//! Gathering what the blocks of a batch yield.

use std::collections::HashMap;

use vstd::prelude::*;

use crate::address;
use crate::address::Address;
use crate::block;
use crate::block::{extract_block_addresses, BlockData};
use crate::error::{ExtractError, ExtractErrorView};

verus! {

broadcast use vstd::std_specs::hash::group_hash_axioms;

/// What the blocks of a batch yield together, taken from `map` in the order of `blocks`: the
/// addresses and the number of transactions, or what is wrong with the first faulty block.
pub open spec fn gathered(blocks: Seq<u64>, map: Map<u64, BlockData>) -> Result<
    (Seq<Seq<u8>>, nat),
    ExtractErrorView,
>
    decreases blocks.len(),
{
    if blocks.len() == 0 {
        Ok((Seq::empty(), 0))
    } else {
        let earlier = blocks.drop_last();
        let number = blocks.last();
        match gathered(earlier, map) {
            Err(e) => Err(e),
            Ok((addresses, count)) => if earlier.contains(number) || !map.contains_key(number) {
                Err(ExtractErrorView::MissingBlock { block: number })
            } else {
                match block::extraction(map[number], number) {
                    Err(e) => Err(e),
                    Ok((more, txs)) => Ok((addresses + more, count + txs)),
                }
            },
        }
    }
}

/// The transactions of the blocks can be counted in machine words, as far as they are counted.
pub open spec fn countable(blocks: Seq<u64>, map: Map<u64, BlockData>) -> bool {
    forall|k: int|
        0 <= k <= blocks.len() ==> (gathered(#[trigger] blocks.take(k), map) matches Ok(sum) ==> sum.1
            <= usize::MAX)
}

/// A fault among some leading blocks is the fault of all.
pub(crate) proof fn lemma_gathered_fault_stays(blocks: Seq<u64>, k: int, map: Map<u64, BlockData>)
    requires
        0 <= k <= blocks.len(),
    ensures
        gathered(blocks.take(k), map) is Err ==> gathered(blocks, map) == gathered(
            blocks.take(k),
            map,
        ),
    decreases blocks.len(),
{
    if k == blocks.len() {
        assert(blocks.take(k) =~= blocks);
    } else {
        lemma_gathered_fault_stays(blocks.drop_last(), k, map);
        assert(blocks.drop_last().take(k) =~= blocks.take(k));
    }
}

/// Takes the blocks of a batch out of `map`, in order, and gathers what they yield.
pub fn gather_blocks(blocks: &Vec<u64>, map: HashMap<u64, BlockData>) -> (res: Result<
    (Vec<Address>, usize),
    ExtractError,
>)
    requires
        countable(blocks@, map@),
    ensures
        block::yield_view(res) == gathered(blocks@, map@),
{
    let ghost all = map@;
    let mut block_map = map;
    let mut addresses: Vec<Address> = Vec::new();
    let mut transactions: usize = 0;
    let mut i: usize = 0;
    assert(blocks@.take(0) =~= Seq::empty());
    assert(address::bytes_of(addresses@) =~= Seq::empty());
    while i < blocks.len()
        invariant
            i <= blocks@.len(),
            all == map@,
            countable(blocks@, all),
            gathered(blocks@.take(i as int), all) == Ok::<(Seq<Seq<u8>>, nat), ExtractErrorView>(
                (address::bytes_of(addresses@), transactions as nat),
            ),
            forall|k: u64| #[trigger]
                block_map@.contains_key(k) <==> all.contains_key(k) && !blocks@.take(
                    i as int,
                ).contains(k),
            forall|k: u64| #[trigger] block_map@.contains_key(k) ==> block_map@[k] == all[k],
        decreases blocks@.len() - i,
    {
        let ghost seen = blocks@.take(i as int);
        let ghost more = blocks@.take(i + 1);
        let ghost before = block_map@;
        let number: u64 = blocks[i];
        proof {
            assert(more =~= seen.push(number));
            assert(more.drop_last() =~= seen);
            lemma_gathered_fault_stays(blocks@, i + 1, all);
        }
        match block_map.remove(&number) {
            None => {
                return Err(ExtractError::MissingBlock { block: number });
            },
            Some(block) => match extract_block_addresses(block, number) {
                Err(e) => {
                    return Err(e);
                },
                Ok((block_addresses, block_txs)) => {
                    let ghost held = addresses@;
                    let ghost added = block_addresses@;
                    let mut tail = block_addresses;
                    assert(gathered(more, all)->Ok_0.1 <= usize::MAX);
                    transactions = transactions + block_txs;
                    addresses.append(&mut tail);
                    assert(address::bytes_of(addresses@) =~= address::bytes_of(held)
                        + address::bytes_of(added));
                },
            },
        }
        proof {
            assert forall|k: u64| #[trigger]
                block_map@.contains_key(k) <==> all.contains_key(k) && !more.contains(k) by {
                if seen.contains(k) {
                    let j = choose|j: int| 0 <= j < seen.len() && seen[j] == k;
                    assert(more[j] == k);
                }
                if k == number {
                    assert(more[i as int] == k);
                }
                if more.contains(k) {
                    let j = choose|j: int| 0 <= j < more.len() && more[j] == k;
                    if j < i {
                        assert(seen[j] == k);
                    }
                }
            }
        }
        i = i + 1;
    }
    assert(blocks@.take(i as int) =~= blocks@);
    Ok((addresses, transactions))
}

/// The number of transactions of those blocks that `map` holds.
pub open spec fn held_total(blocks: Seq<u64>, map: Map<u64, BlockData>) -> nat
    decreases blocks.len(),
{
    if blocks.len() == 0 {
        0
    } else {
        held_total(blocks.drop_last(), map) + (if map.contains_key(blocks.last()) {
            map[blocks.last()].transactions@.len()
        } else {
            0
        })
    }
}

/// What is counted for leading blocks is at most what all blocks hold.
proof fn lemma_counts_within_held(blocks: Seq<u64>, k: int, map: Map<u64, BlockData>)
    requires
        0 <= k <= blocks.len(),
    ensures
        gathered(blocks.take(k), map) matches Ok(sum) ==> sum.1 <= held_total(blocks, map),
        held_total(blocks.take(k), map) <= held_total(blocks, map),
    decreases blocks.len(), k,
{
    if blocks.len() == 0 {
        assert(blocks.take(k) =~= blocks);
    } else if k < blocks.len() {
        lemma_counts_within_held(blocks.drop_last(), k, map);
        assert(blocks.drop_last().take(k) =~= blocks.take(k));
    } else {
        assert(blocks.take(k) =~= blocks);
        let earlier = blocks.drop_last();
        lemma_counts_within_held(earlier, earlier.len() as int, map);
        assert(earlier.take(earlier.len() as int) =~= earlier);
    }
}

/// Whether the transactions of those blocks that `map` holds can be counted in a machine word.
pub fn can_count(blocks: &Vec<u64>, map: &HashMap<u64, BlockData>) -> (res: bool)
    ensures
        res == (held_total(blocks@, map@) <= usize::MAX),
        res ==> countable(blocks@, map@),
{
    let mut total: usize = 0;
    let mut i: usize = 0;
    assert(blocks@.take(0) =~= Seq::empty());
    while i < blocks.len()
        invariant
            i <= blocks@.len(),
            total == held_total(blocks@.take(i as int), map@),
        decreases blocks@.len() - i,
    {
        let ghost more = blocks@.take(i + 1);
        proof {
            assert(more.drop_last() =~= blocks@.take(i as int));
            lemma_counts_within_held(blocks@, i + 1, map@);
        }
        if let Some(block) = map.get(&blocks[i]) {
            if block.transactions.len() > usize::MAX - total {
                return false;
            }
            total = total + block.transactions.len();
        }
        i = i + 1;
    }
    proof {
        assert(blocks@.take(i as int) =~= blocks@);
        assert forall|k: int| 0 <= k <= blocks@.len() implies (gathered(
            #[trigger] blocks@.take(k),
            map@,
        ) matches Ok(sum) ==> sum.1 <= usize::MAX) by {
            lemma_counts_within_held(blocks@, k, map@);
        }
    }
    true
}

/// The number of transactions of blocks.
pub open spec fn tx_total(blocks: Seq<u64>, map: Map<u64, BlockData>) -> nat
    decreases blocks.len(),
{
    if blocks.len() == 0 {
        0
    } else {
        tx_total(blocks.drop_last(), map) + map[blocks.last()].transactions@.len()
    }
}

/// A batch yields only if each of its blocks is there and carries its number, and none is asked
/// for twice; then it yields the addresses of all its blocks, and of no others, and counts all
/// their transactions.
pub proof fn law_batch_yields_its_blocks(
    blocks: Seq<u64>,
    map: Map<u64, BlockData>,
    a: Seq<u8>,
)
    requires
        gathered(blocks, map) is Ok,
    ensures
        blocks.no_duplicates(),
        forall|i: int|
            #![trigger blocks[i]]
            0 <= i < blocks.len() ==> map.contains_key(blocks[i]) && block::block_fault(
                map[blocks[i]],
                blocks[i],
            ) is None,
        gathered(blocks, map)->Ok_0.0.contains(a) <==> exists|i: int|
            0 <= i < blocks.len() && block::all_addresses(
                map[#[trigger] blocks[i]].transactions@,
            ).contains(a),
        gathered(blocks, map)->Ok_0.1 == tx_total(blocks, map),
    decreases blocks.len(),
{
    if blocks.len() > 0 {
        let earlier = blocks.drop_last();
        let number = blocks.last();
        let n = blocks.len() - 1;
        law_batch_yields_its_blocks(earlier, map, a);
        let before = gathered(earlier, map)->Ok_0.0;
        let more = block::all_addresses(map[number].transactions@);
        let all = gathered(blocks, map)->Ok_0.0;
        assert(all == before + more);
        assert forall|i: int, j: int|
            0 <= i < blocks.len() && 0 <= j < blocks.len() && i != j implies blocks[i]
            != blocks[j] by {
            if i < n && j < n {
                assert(earlier[i] != earlier[j]);
            } else if i < n {
                assert(earlier.contains(earlier[i]));
            } else {
                assert(earlier.contains(earlier[j]));
            }
        }
        assert forall|i: int|
            #![trigger blocks[i]]
            0 <= i < blocks.len() implies map.contains_key(blocks[i]) && block::block_fault(
            map[blocks[i]],
            blocks[i],
        ) is None by {
            if i < n {
                assert(earlier[i] == blocks[i]);
            }
        }
        if all.contains(a) {
            let k = choose|k: int| 0 <= k < all.len() && all[k] == a;
            if k < before.len() {
                assert(before[k] == a);
                let i = choose|i: int|
                    0 <= i < earlier.len() && block::all_addresses(
                        map[#[trigger] earlier[i]].transactions@,
                    ).contains(a);
                assert(blocks[i] == earlier[i]);
            } else {
                assert(more[k - before.len()] == a);
                assert(blocks[n] == number);
            }
        }
        if exists|i: int|
            0 <= i < blocks.len() && block::all_addresses(
                map[#[trigger] blocks[i]].transactions@,
            ).contains(a) {
            let i = choose|i: int|
                0 <= i < blocks.len() && block::all_addresses(
                    map[#[trigger] blocks[i]].transactions@,
                ).contains(a);
            if i < n {
                assert(earlier[i] == blocks[i]);
                let k = choose|k: int| 0 <= k < before.len() && before[k] == a;
                assert(all[k] == a);
            } else {
                let k = choose|k: int| 0 <= k < more.len() && more[k] == a;
                assert(all[before.len() + k] == a);
            }
        }
    }
}

/// What the blocks have in them, block by block.
proof fn lemma_gathered_in_order(blocks: Seq<u64>, map: Map<u64, BlockData>)
    requires
        blocks.no_duplicates(),
        forall|i: int|
            #![trigger blocks[i]]
            0 <= i < blocks.len() ==> map.contains_key(blocks[i]) && block::block_fault(
                map[blocks[i]],
                blocks[i],
            ) is None,
    ensures
        gathered(blocks, map) matches Ok(sum) && sum.0 == Seq::new(
            blocks.len(),
            |i: int| block::all_addresses(map[blocks[i]].transactions@),
        ).flatten() && sum.1 == tx_total(blocks, map),
    decreases blocks.len(),
{
    let pieces = Seq::new(
        blocks.len(),
        |i: int| block::all_addresses(map[blocks[i]].transactions@),
    );
    if blocks.len() == 0 {
        assert(pieces.flatten() =~= Seq::empty());
    } else {
        let earlier = blocks.drop_last();
        let n = blocks.len() - 1;
        assert forall|i: int|
            #![trigger earlier[i]]
            0 <= i < earlier.len() implies map.contains_key(earlier[i]) && block::block_fault(
            map[earlier[i]],
            earlier[i],
        ) is None by {
            assert(earlier[i] == blocks[i]);
        }
        assert(earlier.no_duplicates()) by {
            assert forall|i: int, j: int|
                0 <= i < earlier.len() && 0 <= j < earlier.len() && i != j implies earlier[i]
                != earlier[j] by {
                assert(blocks[i] != blocks[j]);
            }
        }
        lemma_gathered_in_order(earlier, map);
        let before = Seq::new(
            earlier.len(),
            |i: int| block::all_addresses(map[earlier[i]].transactions@),
        );
        assert(blocks[n] == blocks.last());
        assert(pieces =~= before.push(pieces[n]));
        before.lemma_flatten_push(pieces[n]);
        assert(!earlier.contains(blocks.last())) by {
            if earlier.contains(blocks.last()) {
                let i = choose|i: int| 0 <= i < earlier.len() && earlier[i] == blocks.last();
                assert(blocks[i] != blocks[n]);
            }
        }
    }
}

/// A batch yields if and only if each of its blocks is there and carries its number, and none is
/// asked for twice; it then yields the addresses of its blocks in the order asked for.
pub proof fn law_blocks_yield_in_order(blocks: Seq<u64>, map: Map<u64, BlockData>)
    ensures
        gathered(blocks, map) is Ok <==> blocks.no_duplicates() && forall|i: int|
            #![trigger blocks[i]]
            0 <= i < blocks.len() ==> map.contains_key(blocks[i]) && block::block_fault(
                map[blocks[i]],
                blocks[i],
            ) is None,
        gathered(blocks, map) matches Ok(sum) ==> sum.0 == Seq::new(
            blocks.len(),
            |i: int| block::all_addresses(map[blocks[i]].transactions@),
        ).flatten() && sum.1 == tx_total(blocks, map),
{
    if gathered(blocks, map) is Ok {
        law_batch_yields_its_blocks(blocks, map, Seq::empty());
    }
    if blocks.no_duplicates() && forall|i: int|
        #![trigger blocks[i]]
        0 <= i < blocks.len() ==> map.contains_key(blocks[i]) && block::block_fault(
            map[blocks[i]],
            blocks[i],
        ) is None {
        lemma_gathered_in_order(blocks, map);
    }
}

/// A batch that does not yield is refused for its first faulty block: as missing if it is not
/// there or was asked for before, else with what is wrong with it.
pub proof fn law_first_faulty_block_counts(blocks: Seq<u64>, map: Map<u64, BlockData>, at: int)
    requires
        0 <= at < blocks.len(),
        blocks.take(at).no_duplicates(),
        forall|i: int|
            #![trigger blocks[i]]
            0 <= i < at ==> map.contains_key(blocks[i]) && block::block_fault(
                map[blocks[i]],
                blocks[i],
            ) is None,
    ensures
        ({
            let number = blocks[at];
            if blocks.take(at).contains(number) || !map.contains_key(number) {
                gathered(blocks, map) == Err::<(Seq<Seq<u8>>, nat), ExtractErrorView>(
                    ExtractErrorView::MissingBlock { block: number },
                )
            } else {
                block::block_fault(map[number], number) matches Some(e) ==> gathered(blocks, map)
                    == Err::<(Seq<Seq<u8>>, nat), ExtractErrorView>(e)
            }
        }),
{
    let earlier = blocks.take(at);
    let more = blocks.take(at + 1);
    assert forall|i: int|
        #![trigger earlier[i]]
        0 <= i < earlier.len() implies map.contains_key(earlier[i]) && block::block_fault(
        map[earlier[i]],
        earlier[i],
    ) is None by {
        assert(earlier[i] == blocks[i]);
    }
    lemma_gathered_in_order(earlier, map);
    assert(more.drop_last() =~= earlier);
    assert(more.last() == blocks[at]);
    lemma_gathered_fault_stays(blocks, at + 1, map);
}

/// The transactions of blocks in a row add up; of one block they are all that it has.
pub proof fn law_transactions_add_up(
    before: Seq<u64>,
    after: Seq<u64>,
    number: u64,
    map: Map<u64, BlockData>,
)
    ensures
        tx_total(before + after, map) == tx_total(before, map) + tx_total(after, map),
        held_total(before + after, map) == held_total(before, map) + held_total(after, map),
        tx_total(seq![number], map) == map[number].transactions@.len(),
        map.contains_key(number) ==> held_total(seq![number], map)
            == map[number].transactions@.len(),
        !map.contains_key(number) ==> held_total(seq![number], map) == 0,
    decreases after.len(),
{
    let one = seq![number];
    assert(one.drop_last() =~= Seq::<u64>::empty());
    assert(tx_total(one.drop_last(), map) == 0 && held_total(one.drop_last(), map) == 0);
    if after.len() == 0 {
        assert(before + after =~= before);
    } else {
        law_transactions_add_up(before, after.drop_last(), number, map);
        assert((before + after).drop_last() =~= before + after.drop_last());
    }
}

} // verus!
