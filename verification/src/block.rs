//! Blocks as the endpoints deliver them, and the addresses in them.

use vstd::prelude::*;

use crate::address;
use crate::address::{parse_address_to_bytes, Address};
use crate::error::{ExtractError, ExtractErrorView};
use crate::quantity;
use crate::quantity::parse_hex_u64;

verus! {

/// The parties of a transaction; one that creates a contract has no receiver.
#[derive(Debug)]
pub struct TxData {
    pub from: Option<String>,
    pub to: Option<String>,
}

/// A block with its transactions.
#[derive(Debug)]
pub struct BlockData {
    pub number: Option<String>,
    pub transactions: Vec<TxData>,
}

/// The address that a field holds: one or none.
pub open spec fn field_addresses(field: Option<String>) -> Seq<Seq<u8>> {
    match field {
        Some(s) => match address::address_value(s@) {
            Some(a) => seq![a],
            None => Seq::empty(),
        },
        None => Seq::empty(),
    }
}

/// The addresses of a transaction: the sender's, then the receiver's.
pub open spec fn tx_addresses(tx: TxData) -> Seq<Seq<u8>> {
    field_addresses(tx.from) + field_addresses(tx.to)
}

/// The addresses of transactions, in order and with repetitions.
pub open spec fn all_addresses(txs: Seq<TxData>) -> Seq<Seq<u8>>
    decreases txs.len(),
{
    if txs.len() == 0 {
        Seq::empty()
    } else {
        all_addresses(txs.drop_last()) + tx_addresses(txs.last())
    }
}

/// What is wrong with a block that was asked for under `expected_number`, if anything.
pub open spec fn block_fault(block: BlockData, expected_number: u64) -> Option<ExtractErrorView> {
    match block.number {
        None => Some(ExtractErrorView::MissingNumber { expected: expected_number }),
        Some(s) => match quantity::quantity_outcome(s@) {
            Err(e) => Some(e),
            Ok(actual) => if actual == expected_number {
                None
            } else {
                Some(
                    ExtractErrorView::BlockMismatch {
                        requested: expected_number,
                        received: actual,
                    },
                )
            },
        },
    }
}

/// What a block yields: its addresses and the number of its transactions.
pub open spec fn extraction(block: BlockData, block_number: u64) -> Result<
    (Seq<Seq<u8>>, nat),
    ExtractErrorView,
> {
    match block_fault(block, block_number) {
        Some(e) => Err(e),
        None => Ok((all_addresses(block.transactions@), block.transactions@.len())),
    }
}

/// Addresses and a count, or a failure, with the texts and bytes in them as sequences.
pub open spec fn yield_view(res: Result<(Vec<Address>, usize), ExtractError>) -> Result<
    (Seq<Seq<u8>>, nat),
    ExtractErrorView,
> {
    match res {
        Ok((addresses, count)) => Ok((address::bytes_of(addresses@), count as nat)),
        Err(e) => Err(e@),
    }
}

/// Accepts a block if it carries the number that was asked for.
pub fn validate_block(block: &BlockData, expected_number: u64) -> (res: Result<(), ExtractError>)
    ensures
        match res {
            Ok(_) => block_fault(*block, expected_number) is None,
            Err(e) => block_fault(*block, expected_number) == Some(e@),
        },
{
    match &block.number {
        None => Err(ExtractError::MissingNumber { expected: expected_number }),
        Some(number_str) => match parse_hex_u64(number_str.as_str()) {
            Err(e) => Err(e),
            Ok(actual) => {
                if actual != expected_number {
                    Err(
                        ExtractError::BlockMismatch {
                            requested: expected_number,
                            received: actual,
                        },
                    )
                } else {
                    Ok(())
                }
            },
        },
    }
}

/// Adds the address that a field holds, if it holds one.
fn push_field(addresses: &mut Vec<Address>, field: &Option<String>)
    ensures
        address::bytes_of(final(addresses)@) == address::bytes_of(old(addresses)@)
            + field_addresses(*field),
{
    let ghost before = addresses@;
    match field {
        Some(s) => match parse_address_to_bytes(s.as_str()) {
            Some(bytes) => {
                addresses.push(bytes);
            },
            None => {},
        },
        None => {},
    }
    assert(address::bytes_of(addresses@) =~= address::bytes_of(before) + field_addresses(*field));
}

/// The addresses of the senders and receivers in a block, and the number of its transactions.
pub fn extract_block_addresses(block: BlockData, block_number: u64) -> (res: Result<
    (Vec<Address>, usize),
    ExtractError,
>)
    ensures
        yield_view(res) == extraction(block, block_number),
{
    match validate_block(&block, block_number) {
        Err(e) => {
            return Err(e);
        },
        Ok(_) => {},
    }
    let tx_count: usize = block.transactions.len();
    let mut addresses: Vec<Address> = Vec::new();
    let mut i: usize = 0;
    assert(address::bytes_of(addresses@) =~= all_addresses(block.transactions@.take(0)));
    while i < tx_count
        invariant
            i <= tx_count == block.transactions@.len(),
            address::bytes_of(addresses@) == all_addresses(block.transactions@.take(i as int)),
        decreases tx_count - i,
    {
        let ghost txs = block.transactions@.take(i + 1);
        assert(txs.drop_last() =~= block.transactions@.take(i as int));
        push_field(&mut addresses, &block.transactions[i].from);
        push_field(&mut addresses, &block.transactions[i].to);
        assert(address::bytes_of(addresses@) =~= all_addresses(txs));
        i = i + 1;
    }
    assert(block.transactions@.take(tx_count as int) =~= block.transactions@);
    Ok((addresses, tx_count))
}

/// The addresses of a block are those that its transactions name as sender or receiver, all of
/// them and no others.
pub proof fn law_addresses_of_parties(txs: Seq<TxData>, a: Seq<u8>)
    ensures
        all_addresses(txs).contains(a) <==> exists|i: int|
            0 <= i < txs.len() && (field_addresses((#[trigger] txs[i]).from) == seq![a]
                || field_addresses(txs[i].to) == seq![a]),
    decreases txs.len(),
{
    let all = all_addresses(txs);
    if txs.len() > 0 {
        let shorter = txs.drop_last();
        let last = txs.last();
        law_addresses_of_parties(shorter, a);
        let earlier = all_addresses(shorter);
        let from = field_addresses(last.from);
        let to = field_addresses(last.to);
        assert(all =~= earlier + (from + to));
        if all.contains(a) {
            let k = choose|k: int| 0 <= k < all.len() && all[k] == a;
            if k < earlier.len() {
                assert(earlier[k] == a);
                let i = choose|i: int|
                    0 <= i < shorter.len() && (field_addresses((#[trigger] shorter[i]).from)
                        == seq![a] || field_addresses(shorter[i].to) == seq![a]);
                assert(txs[i] == shorter[i]);
            } else {
                let n = txs.len() - 1;
                assert(txs[n] == last);
                if k - earlier.len() < from.len() {
                    assert(from =~= seq![a]);
                } else {
                    assert(to =~= seq![a]);
                }
            }
        }
        if exists|i: int|
            0 <= i < txs.len() && (field_addresses((#[trigger] txs[i]).from) == seq![a]
                || field_addresses(txs[i].to) == seq![a]) {
            let i = choose|i: int|
                0 <= i < txs.len() && (field_addresses((#[trigger] txs[i]).from) == seq![a]
                    || field_addresses(txs[i].to) == seq![a]);
            if i < shorter.len() {
                assert(shorter[i] == txs[i]);
                let k = choose|k: int| 0 <= k < earlier.len() && earlier[k] == a;
                assert(all[k] == a);
            } else if from == seq![a] {
                assert(all[earlier.len() as int] == a);
            } else {
                assert(all[(earlier.len() + from.len()) as int] == a);
            }
        }
    }
}

/// A transaction yields at most two addresses, and each of them has twenty bytes.
pub proof fn law_addresses_are_bounded(txs: Seq<TxData>)
    ensures
        all_addresses(txs).len() <= 2 * txs.len(),
        forall|i: int| 0 <= i < all_addresses(txs).len() ==> #[trigger] all_addresses(txs)[i].len()
            == 20,
    decreases txs.len(),
{
    if txs.len() > 0 {
        law_addresses_are_bounded(txs.drop_last());
        let earlier = all_addresses(txs.drop_last());
        let more = tx_addresses(txs.last());
        let all = all_addresses(txs);
        assert(all =~= earlier + more);
        assert forall|i: int| 0 <= i < all.len() implies #[trigger] all[i].len() == 20 by {
            if i < earlier.len() {
                assert(all[i] == earlier[i]);
            } else {
                assert(all[i] == more[i - earlier.len()]);
            }
        }
    }
}

/// An address is among those of transactions if and only if the text in the `from` or the `to`
/// field of one of them denotes it.
pub proof fn law_addresses_are_denoted(txs: Seq<TxData>, a: Seq<u8>)
    ensures
        all_addresses(txs).contains(a) <==> exists|i: int|
            0 <= i < txs.len() && (((#[trigger] txs[i]).from matches Some(s)
                && address::address_value(s@) == Some(a)) || (txs[i].to matches Some(s)
                && address::address_value(s@) == Some(a))),
{
    law_addresses_of_parties(txs, a);
    assert forall|field: Option<String>| #[trigger] field_addresses(field) == seq![a] <==> (
    field matches Some(s) && address::address_value(s@) == Some(a)) by {
        if field_addresses(field) == seq![a] {
            assert(field_addresses(field)[0] == a);
        }
    }
    if all_addresses(txs).contains(a) {
        let i = choose|i: int|
            0 <= i < txs.len() && (field_addresses((#[trigger] txs[i]).from) == seq![a]
                || field_addresses(txs[i].to) == seq![a]);
        assert(0 <= i < txs.len());
    }
    if exists|i: int|
        0 <= i < txs.len() && (((#[trigger] txs[i]).from matches Some(s) && address::address_value(
            s@,
        ) == Some(a)) || (txs[i].to matches Some(s) && address::address_value(s@) == Some(a))) {
        let i = choose|i: int|
            0 <= i < txs.len() && (((#[trigger] txs[i]).from matches Some(s)
                && address::address_value(s@) == Some(a)) || (txs[i].to matches Some(s)
                && address::address_value(s@) == Some(a)));
        assert(field_addresses(txs[i].from) == seq![a] || field_addresses(txs[i].to) == seq![a]);
    }
}

/// The addresses of transactions come in the order of the transactions.
pub proof fn law_addresses_in_a_row(before: Seq<TxData>, after: Seq<TxData>)
    ensures
        all_addresses(before + after) == all_addresses(before) + all_addresses(after),
    decreases after.len(),
{
    if after.len() == 0 {
        assert(before + after =~= before);
        assert(all_addresses(before) + all_addresses(after) =~= all_addresses(before));
    } else {
        law_addresses_in_a_row(before, after.drop_last());
        assert((before + after).drop_last() =~= before + after.drop_last());
        assert(all_addresses(before + after) =~= all_addresses(before) + all_addresses(after));
    }
}

/// A transaction yields the address in its `from` field in front of that in its `to` field; a
/// field without an address yields nothing.
pub proof fn law_sender_before_receiver(tx: TxData)
    ensures
        ({
            let sender = match tx.from {
                Some(s) => address::address_value(s@),
                None => None,
            };
            let receiver = match tx.to {
                Some(s) => address::address_value(s@),
                None => None,
            };
            all_addresses(seq![tx]) == match (sender, receiver) {
                (Some(a), Some(b)) => seq![a, b],
                (Some(a), None) => seq![a],
                (None, Some(b)) => seq![b],
                (None, None) => Seq::empty(),
            }
        }),
{
    assert(seq![tx].drop_last() =~= Seq::<TxData>::empty());
    assert(all_addresses(seq![tx].drop_last()) =~= Seq::empty());
    assert(all_addresses(seq![tx]) =~= field_addresses(tx.from) + field_addresses(tx.to));
}

/// A block yields if and only if it carries a text that reads as the number it was asked for
/// under; it then yields its addresses and the number of all its transactions.
pub proof fn law_block_yields_under_its_number(block: BlockData, number: u64)
    ensures
        extraction(block, number) is Ok <==> (block.number matches Some(s)
            && quantity::quantity_outcome(s@) == Ok::<u64, ExtractErrorView>(number)),
        block_fault(block, number) is None <==> extraction(block, number) is Ok,
        extraction(block, number) matches Ok(sum) ==> sum.0 == all_addresses(block.transactions@)
            && sum.1 == block.transactions@.len(),
{
}

/// A block that yields nothing is refused with what is wrong: that it has no number, that its
/// number cannot be read, or which other number it carries.
pub proof fn law_refused_block_tells_why(block: BlockData, number: u64)
    ensures
        extraction(block, number) matches Err(e) ==> block_fault(block, number) == Some(e)
            && match block.number {
            None => e == (ExtractErrorView::MissingNumber { expected: number }),
            Some(s) => match quantity::quantity_outcome(s@) {
                Err(unread) => e == unread,
                Ok(other) => other != number && e == (ExtractErrorView::BlockMismatch {
                    requested: number,
                    received: other,
                }),
            },
        },
{
}

/// A block whose number is written as the tag of a number is accepted under that number and under
/// no other.
pub proof fn law_tagged_block_is_accepted(block: BlockData, carried: u64, number: u64)
    requires
        block.number matches Some(s) && s@ == quantity::block_tag_text(carried),
    ensures
        block_fault(block, number) is None <==> carried == number,
{
    quantity::law_tag_reads_back(carried);
}

/// The view of a yield keeps every address and the count, or the failure.
pub proof fn law_yield_is_kept(res: Result<(Vec<Address>, usize), ExtractError>)
    ensures
        match res {
            Ok((addresses, count)) => yield_view(res) matches Ok(sum) && sum.1 == count
                && sum.0.len() == addresses@.len() && forall|i: int|
                0 <= i < addresses@.len() ==> #[trigger] sum.0[i] == addresses@[i]@,
            Err(e) => yield_view(res) == Err::<(Seq<Seq<u8>>, nat), ExtractErrorView>(e@),
        },
{
}

} // verus!
