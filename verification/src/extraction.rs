//! What an extraction comes to as a whole.

use vstd::prelude::*;

use crate::address;
use crate::block;
use crate::block::BlockData;
use crate::gather;
use crate::plan;
use crate::plan::RPC_ROTATE_BLOCKS;
use crate::progress;
use crate::progress::{BatchYield, ProgressView};

verus! {

/// The chain has the block and delivers it under its number.
pub open spec fn delivers(chain: Map<u64, BlockData>, number: u64) -> bool {
    chain.contains_key(number) && block::block_fault(chain[number], number) is None
}

/// The address is that of a sender or receiver in one of the blocks.
pub open spec fn occurs(chain: Map<u64, BlockData>, numbers: Seq<u64>, a: Seq<u8>) -> bool {
    exists|i: int|
        0 <= i < numbers.len() && block::all_addresses(
            chain[#[trigger] numbers[i]].transactions@,
        ).contains(a)
}

/// What batches of blocks of the chain yield.
pub open spec fn yields(batches: Seq<Seq<u64>>, chain: Map<u64, BlockData>) -> Seq<BatchYield> {
    Seq::new(
        batches.len(),
        |i: int|
            BatchYield {
                first: batches[i].first(),
                last: batches[i].last(),
                addresses: gather::gathered(batches[i], chain)->Ok_0.0,
                transactions: gather::gathered(batches[i], chain)->Ok_0.1,
            },
    )
}

/// The progress of a part after segments whose batches have come back in some order.
pub open spec fn part_progress(segments: Seq<Seq<BatchYield>>) -> ProgressView
    decreases segments.len(),
{
    if segments.len() == 0 {
        ProgressView::start()
    } else {
        progress::with_batches(
            part_progress(segments.drop_last()).with_segment(segments.last().len() as int),
            segments.last(),
        )
    }
}

/// The batches of the segment at position `k` of the blocks from `first` to `last`.
pub open spec fn batches_of_segment(first: int, last: int, batch_size: int, k: int) -> Seq<
    Seq<u64>,
> {
    let size = RPC_ROTATE_BLOCKS as int;
    let start = plan::chunk_start(first, size, k);
    plan::chunks(start, plan::chunk_end(start, size, last), batch_size)
}

/// Consecutive blocks that the chain delivers can be gathered.
proof fn lemma_run_gathers(first: u64, last: int, chain: Map<u64, BlockData>)
    requires
        first - 1 <= last <= u64::MAX,
        forall|n: u64| first <= n <= last ==> #[trigger] delivers(chain, n),
    ensures
        gather::gathered(plan::run(first as int, last), chain) is Ok,
    decreases last - first + 1,
{
    let numbers = plan::run(first as int, last);
    if first <= last {
        lemma_run_gathers(first, last - 1, chain);
        let earlier = plan::run(first as int, last - 1);
        assert(numbers.drop_last() =~= earlier);
        assert(numbers.last() == last as u64);
        assert(!earlier.contains(last as u64)) by {
            if earlier.contains(last as u64) {
                let i = choose|i: int| 0 <= i < earlier.len() && earlier[i] == last as u64;
                assert(earlier[i] == (first + i) as u64);
            }
        }
        assert(delivers(chain, last as u64));
    }
}

/// The transactions of blocks in a row add up.
proof fn lemma_totals_add(a: Seq<u64>, b: Seq<u64>, chain: Map<u64, BlockData>)
    ensures
        gather::tx_total(a + b, chain) == gather::tx_total(a, chain) + gather::tx_total(b, chain),
    decreases b.len(),
{
    if b.len() == 0 {
        assert(a + b =~= a);
    } else {
        lemma_totals_add(a, b.drop_last(), chain);
        assert((a + b).drop_last() =~= a + b.drop_last());
    }
}

/// An address occurs in blocks in a row if it occurs in the former or in the latter.
proof fn lemma_occurs_in_either(a: Seq<u64>, b: Seq<u64>, chain: Map<u64, BlockData>, x: Seq<u8>)
    ensures
        occurs(chain, a + b, x) <==> occurs(chain, a, x) || occurs(chain, b, x),
{
    let both = a + b;
    if occurs(chain, both, x) {
        let i = choose|i: int|
            0 <= i < both.len() && block::all_addresses(
                chain[#[trigger] both[i]].transactions@,
            ).contains(x);
        if i < a.len() {
            assert(a[i] == both[i]);
        } else {
            assert(b[i - a.len()] == both[i]);
        }
    }
    if occurs(chain, a, x) {
        let i = choose|i: int|
            0 <= i < a.len() && block::all_addresses(
                chain[#[trigger] a[i]].transactions@,
            ).contains(x);
        assert(both[i] == a[i]);
    }
    if occurs(chain, b, x) {
        let i = choose|i: int|
            0 <= i < b.len() && block::all_addresses(
                chain[#[trigger] b[i]].transactions@,
            ).contains(x);
        assert(both[a.len() + i] == b[i]);
    }
}

/// What the progress is after batches of blocks that can be gathered.
proof fn lemma_batches_add_up(
    before: ProgressView,
    batches: Seq<Seq<u64>>,
    chain: Map<u64, BlockData>,
    x: Seq<u8>,
)
    requires
        forall|i: int|
            #![trigger batches[i]]
            0 <= i < batches.len() ==> gather::gathered(batches[i], chain) is Ok
                && progress::span(batches[i].first(), batches[i].last()) == batches[i].len(),
    ensures
        ({
            let after = progress::with_batches(before, yields(batches, chain));
            let numbers = batches.flatten();
            &&& after.blocks == before.blocks + numbers.len()
            &&& after.transactions == before.transactions + gather::tx_total(numbers, chain)
            &&& after.unique.contains(x) <==> before.unique.contains(x) || occurs(
                chain,
                numbers,
                x,
            )
        }),
    decreases batches.len(),
{
    if batches.len() == 0 {
        assert(yields(batches, chain) =~= Seq::empty());
        assert(batches.flatten() =~= Seq::empty());
        assert(!occurs(chain, batches.flatten(), x));
    } else {
        let shorter = batches.drop_last();
        let batch = batches.last();
        let n = batches.len() - 1;
        assert forall|i: int|
            #![trigger shorter[i]]
            0 <= i < shorter.len() implies gather::gathered(shorter[i], chain) is Ok
            && progress::span(shorter[i].first(), shorter[i].last()) == shorter[i].len() by {
            assert(shorter[i] == batches[i]);
        }
        lemma_batches_add_up(before, shorter, chain, x);
        let all = yields(batches, chain);
        assert(all.drop_last() =~= yields(shorter, chain));
        assert(batches[n] == batch);
        assert(progress::with_batches(before, all) == progress::with_batches(
            before,
            all.drop_last(),
        ).with_batch(all.last())) by {
            reveal_with_fuel(Seq::fold_left, 2);
        }
        assert(batches =~= shorter.push(batch));
        shorter.lemma_flatten_push(batch);
        lemma_totals_add(shorter.flatten(), batch, chain);
        lemma_occurs_in_either(shorter.flatten(), batch, chain, x);
        gather::law_batch_yields_its_blocks(batch, chain, x);
    }
}

/// What the progress is after the leading segments of a part.
proof fn lemma_segments_add_up(
    first: u64,
    last: u64,
    batch_size: u64,
    chain: Map<u64, BlockData>,
    segments: Seq<Seq<BatchYield>>,
    x: Seq<u8>,
)
    requires
        batch_size > 0,
        first <= last,
        segments.len() <= plan::chunk_count(first as int, last as int, RPC_ROTATE_BLOCKS as int),
        forall|n: u64| first <= n <= last ==> #[trigger] delivers(chain, n),
        forall|k: int|
            #![trigger segments[k]]
            0 <= k < segments.len() ==> segments[k].to_multiset() == yields(
                batches_of_segment(first as int, last as int, batch_size as int, k),
                chain,
            ).to_multiset(),
    ensures
        ({
            let after = part_progress(segments);
            let numbers = plan::chunks(first as int, last as int, RPC_ROTATE_BLOCKS as int).take(
                segments.len() as int,
            ).flatten();
            &&& after.blocks == numbers.len()
            &&& after.transactions == gather::tx_total(numbers, chain)
            &&& after.unique.contains(x) <==> occurs(chain, numbers, x)
        }),
    decreases segments.len(),
{
    let size = RPC_ROTATE_BLOCKS as int;
    let pieces = plan::chunks(first as int, last as int, size);
    if segments.len() == 0 {
        assert(pieces.take(0) =~= Seq::empty());
        assert(pieces.take(0).flatten() =~= Seq::empty());
        assert(!occurs(chain, pieces.take(0).flatten(), x));
    } else {
        let k = segments.len() - 1;
        let shorter = segments.drop_last();
        assert forall|j: int|
            #![trigger shorter[j]]
            0 <= j < shorter.len() implies shorter[j].to_multiset() == yields(
            batches_of_segment(first as int, last as int, batch_size as int, j),
            chain,
        ).to_multiset() by {
            assert(shorter[j] == segments[j]);
        }
        lemma_segments_add_up(first, last, batch_size, chain, shorter, x);
        let start = plan::chunk_start(first as int, size, k);
        let end = plan::chunk_end(start, size, last as int);
        let batches = batches_of_segment(first as int, last as int, batch_size as int, k);
        plan::lemma_chunk_bounds(first as int, last as int, size, k);
        assert forall|i: int|
            #![trigger batches[i]]
            0 <= i < batches.len() implies gather::gathered(batches[i], chain) is Ok
            && progress::span(batches[i].first(), batches[i].last()) == batches[i].len() by {
            plan::lemma_chunk_bounds(start, end, batch_size as int, i);
            let from = plan::chunk_start(start, batch_size as int, i);
            let to = plan::chunk_end(from, batch_size as int, end);
            lemma_run_gathers(from as u64, to, chain);
            assert(batches[i] == plan::run(from, to));
        }
        let before = part_progress(shorter).with_segment(segments.last().len() as int);
        progress::law_order_does_not_matter(before, segments.last(), yields(batches, chain));
        lemma_batches_add_up(before, batches, chain, x);
        plan::law_chunks_in_a_row(start, end, batch_size as int);
        let seen = pieces.take(k);
        assert(pieces.take(k + 1) =~= seen.push(pieces[k]));
        seen.lemma_flatten_push(pieces[k]);
        assert(pieces[k] == plan::run(start, end));
        lemma_totals_add(seen.flatten(), pieces[k], chain);
        lemma_occurs_in_either(seen.flatten(), pieces[k], chain, x);
    }
}

/// A part is complete: from a chain that delivers its blocks it gets every address of a sender
/// or receiver in them and no other address, and counts every block and every transaction once,
/// in whatever order the batches of a segment come back.
pub proof fn law_part_is_complete(
    first: u64,
    last: u64,
    batch_size: u64,
    chain: Map<u64, BlockData>,
    segments: Seq<Seq<BatchYield>>,
    x: Seq<u8>,
)
    requires
        batch_size > 0,
        first <= last,
        forall|n: u64| first <= n <= last ==> #[trigger] delivers(chain, n),
        segments.len() == plan::chunk_count(first as int, last as int, RPC_ROTATE_BLOCKS as int),
        forall|k: int|
            #![trigger segments[k]]
            0 <= k < segments.len() ==> segments[k].to_multiset() == yields(
                batches_of_segment(first as int, last as int, batch_size as int, k),
                chain,
            ).to_multiset(),
    ensures
        part_progress(segments).unique.contains(x) <==> exists|n: u64|
            first <= n <= last && block::all_addresses(
                (#[trigger] chain[n]).transactions@,
            ).contains(x),
        part_progress(segments).blocks == last - first + 1,
        part_progress(segments).transactions == gather::tx_total(
            plan::run(first as int, last as int),
            chain,
        ),
{
    let size = RPC_ROTATE_BLOCKS as int;
    let pieces = plan::chunks(first as int, last as int, size);
    let numbers = plan::run(first as int, last as int);
    lemma_segments_add_up(first, last, batch_size, chain, segments, x);
    assert(pieces.take(segments.len() as int) =~= pieces);
    plan::law_chunks_in_a_row(first as int, last as int, size);
    if occurs(chain, numbers, x) {
        let i = choose|i: int|
            0 <= i < numbers.len() && block::all_addresses(
                chain[#[trigger] numbers[i]].transactions@,
            ).contains(x);
        let n = numbers[i];
        assert(first <= n <= last);
        assert(block::all_addresses(chain[n].transactions@).contains(x));
    }
    if exists|n: u64|
        first <= n <= last && block::all_addresses(
            (#[trigger] chain[n]).transactions@,
        ).contains(x) {
        let n = choose|n: u64|
            first <= n <= last && block::all_addresses(
                (#[trigger] chain[n]).transactions@,
            ).contains(x);
        assert(numbers[n - first] == n);
    }
}

/// A part holds an address if and only if the text in the `from` or the `to` field of a
/// transaction in one of its blocks denotes it: from a chain that delivers the blocks none is
/// lost, and none is made up.
pub proof fn law_part_holds_the_parties(
    first: u64,
    last: u64,
    batch_size: u64,
    chain: Map<u64, BlockData>,
    segments: Seq<Seq<BatchYield>>,
    x: Seq<u8>,
)
    requires
        batch_size > 0,
        first <= last,
        forall|n: u64| first <= n <= last ==> #[trigger] delivers(chain, n),
        segments.len() == plan::chunk_count(first as int, last as int, RPC_ROTATE_BLOCKS as int),
        forall|k: int|
            #![trigger segments[k]]
            0 <= k < segments.len() ==> segments[k].to_multiset() == yields(
                batches_of_segment(first as int, last as int, batch_size as int, k),
                chain,
            ).to_multiset(),
    ensures
        part_progress(segments).unique.contains(x) <==> exists|n: u64, i: int|
            first <= n <= last && 0 <= i < chain[n].transactions@.len() && (((
            #[trigger] chain[n].transactions@[i]).from matches Some(s) && address::address_value(s@)
                == Some(x)) || (chain[n].transactions@[i].to matches Some(s)
                && address::address_value(s@) == Some(x))),
{
    law_part_is_complete(first, last, batch_size, chain, segments, x);
    if part_progress(segments).unique.contains(x) {
        let n = choose|n: u64|
            first <= n <= last && block::all_addresses(
                (#[trigger] chain[n]).transactions@,
            ).contains(x);
        let txs = chain[n].transactions@;
        block::law_addresses_are_denoted(txs, x);
        let i = choose|i: int|
            0 <= i < txs.len() && (((#[trigger] txs[i]).from matches Some(s)
                && address::address_value(s@) == Some(x)) || (txs[i].to matches Some(s)
                && address::address_value(s@) == Some(x)));
        assert(chain[n].transactions@[i] == txs[i]);
    }
    if exists|n: u64, i: int|
        first <= n <= last && 0 <= i < chain[n].transactions@.len() && (((
            #[trigger] chain[n].transactions@[i]).from matches Some(s) && address::address_value(s@)
                == Some(x)) || (chain[n].transactions@[i].to matches Some(s)
                && address::address_value(s@) == Some(x))) {
        let (n, i) = choose|n: u64, i: int|
            first <= n <= last && 0 <= i < chain[n].transactions@.len() && (((
            #[trigger] chain[n].transactions@[i]).from matches Some(s) && address::address_value(s@)
                == Some(x)) || (chain[n].transactions@[i].to matches Some(s)
                && address::address_value(s@) == Some(x)));
        let txs = chain[n].transactions@;
        assert(txs[i] == chain[n].transactions@[i]);
        block::law_addresses_are_denoted(txs, x);
        assert(block::all_addresses(chain[n].transactions@).contains(x));
    }
}

} // verus!
