//! What a part has yielded so far, and how far its segment has come.

use vstd::prelude::*;

use crate::address;
use crate::address::Address;
use crate::address_set::AddressSet;

verus! {

/// After how many batches the progress is told.
pub const REPORT_INTERVAL: usize = 100;

/// The totals of a part and of its current segment.
#[derive(Debug)]
pub struct Progress {
    blocks: u64,
    transactions: u64,
    addresses: u64,
    unique: AddressSet,
    segment_blocks: u64,
    processed: usize,
    total_batches: usize,
}

/// [`Progress`] with its addresses taken as a set and its numbers as integers.
#[verifier::ext_equal]
pub struct ProgressView {
    /// The blocks of the part that have been fetched.
    pub blocks: int,
    /// Their transactions.
    pub transactions: int,
    /// Their addresses, with repetitions.
    pub addresses: int,
    /// Their addresses.
    pub unique: Set<Seq<u8>>,
    /// The blocks of the segment that have been fetched.
    pub segment_blocks: int,
    /// The batches of the segment that have been fetched.
    pub processed: int,
    /// The batches of the segment.
    pub total_batches: int,
}

/// What a batch of blocks has yielded.
pub struct BatchYield {
    /// The first block.
    pub first: u64,
    /// The last block.
    pub last: u64,
    /// The addresses, with repetitions.
    pub addresses: Seq<Seq<u8>>,
    /// The number of transactions.
    pub transactions: nat,
}

/// The number of blocks of a batch from `first` to `last`.
pub open spec fn span(first: u64, last: u64) -> int {
    if first <= last {
        last - first + 1
    } else {
        1
    }
}

impl ProgressView {
    /// The progress at the start of a part.
    pub open spec fn start() -> ProgressView {
        ProgressView {
            blocks: 0,
            transactions: 0,
            addresses: 0,
            unique: Set::empty(),
            segment_blocks: 0,
            processed: 0,
            total_batches: 0,
        }
    }

    /// The progress with a new segment of that many batches.
    pub open spec fn with_segment(self, total_batches: int) -> ProgressView {
        ProgressView { segment_blocks: 0, processed: 0, total_batches, ..self }
    }

    /// The progress with what one more batch has yielded.
    pub open spec fn with_batch(self, batch: BatchYield) -> ProgressView {
        ProgressView {
            blocks: self.blocks + span(batch.first, batch.last),
            transactions: self.transactions + batch.transactions,
            addresses: self.addresses + batch.addresses.len(),
            unique: self.unique.union(batch.addresses.to_set()),
            segment_blocks: self.segment_blocks + span(batch.first, batch.last),
            processed: self.processed + 1,
            total_batches: self.total_batches,
        }
    }

    /// All numbers can be held in machine words.
    pub open spec fn fits(self) -> bool {
        &&& self.blocks <= u64::MAX
        &&& self.transactions <= u64::MAX
        &&& self.addresses <= u64::MAX
        &&& self.segment_blocks <= u64::MAX
        &&& self.processed <= usize::MAX
    }
}

impl View for Progress {
    type V = ProgressView;

    closed spec fn view(&self) -> ProgressView {
        ProgressView {
            blocks: self.blocks as int,
            transactions: self.transactions as int,
            addresses: self.addresses as int,
            unique: self.unique@,
            segment_blocks: self.segment_blocks as int,
            processed: self.processed as int,
            total_batches: self.total_batches as int,
        }
    }
}

/// The yield of a batch that its addresses and its count make up.
pub open spec fn batch_yield(
    first: u64,
    last: u64,
    addresses: Seq<Address>,
    tx_count: usize,
) -> BatchYield {
    BatchYield {
        first,
        last,
        addresses: address::bytes_of(addresses),
        transactions: tx_count as nat,
    }
}

impl Progress {
    /// The set of addresses is well-formed.
    pub closed spec fn wf(&self) -> bool {
        self.unique.wf()
    }

    /// The progress at the start of a part.
    pub fn new() -> (res: Progress)
        ensures
            res.wf(),
            res@ == ProgressView::start(),
    {
        Progress {
            blocks: 0,
            transactions: 0,
            addresses: 0,
            unique: AddressSet::new(),
            segment_blocks: 0,
            processed: 0,
            total_batches: 0,
        }
    }

    /// Starts a segment of that many batches.
    pub fn start_segment(&mut self, total_batches: usize)
        requires
            old(self).wf(),
        ensures
            final(self).wf(),
            final(self)@ == old(self)@.with_segment(total_batches as int),
    {
        self.segment_blocks = 0;
        self.processed = 0;
        self.total_batches = total_batches;
    }

    /// Whether the totals can still be held in machine words with one more batch.
    pub fn can_absorb(
        &self,
        first: u64,
        last: u64,
        addresses: &Vec<Address>,
        tx_count: usize,
    ) -> (res: bool)
        ensures
            res == self@.with_batch(batch_yield(first, last, addresses@, tx_count)).fits(),
    {
        let before: u64 = last.saturating_sub(first);
        before < u64::MAX && self.blocks <= u64::MAX - (before + 1) && self.segment_blocks
            <= u64::MAX - (before + 1) && self.transactions <= u64::MAX - tx_count as u64
            && self.addresses <= u64::MAX - addresses.len() as u64 && self.processed < usize::MAX
    }

    /// Adds what a batch of blocks has yielded.
    pub fn absorb(&mut self, first: u64, last: u64, addresses: &Vec<Address>, tx_count: usize)
        requires
            old(self).wf(),
            old(self)@.with_batch(batch_yield(first, last, addresses@, tx_count)).fits(),
        ensures
            final(self).wf(),
            final(self)@ == old(self)@.with_batch(batch_yield(first, last, addresses@, tx_count)),
            final(self)@.transactions == old(self)@.transactions + tx_count,
            final(self)@.addresses == old(self)@.addresses + addresses@.len(),
            final(self)@.processed == old(self)@.processed + 1,
            first <= last ==> final(self)@.blocks == old(self)@.blocks + (last - first + 1),
            first <= last ==> final(self)@.segment_blocks == old(self)@.segment_blocks + (last
                - first + 1),
            forall|a: Seq<u8>| #[trigger]
                final(self)@.unique.contains(a) <==> old(self)@.unique.contains(a) || exists|i: int|
                    0 <= i < addresses@.len() && (#[trigger] addresses@[i])@ == a,
    {
        let ghost was = self@;
        self.transactions = self.transactions + tx_count as u64;
        self.addresses = self.addresses + addresses.len() as u64;
        self.unique.extend(addresses);
        self.processed = self.processed + 1;
        let current_blocks: u64 = last.saturating_sub(first) + 1;
        self.segment_blocks = self.segment_blocks + current_blocks;
        self.blocks = self.blocks + current_blocks;
        assert(self@ =~= was.with_batch(batch_yield(first, last, addresses@, tx_count)));
        proof {
            let new = address::bytes_of(addresses@);
            assert forall|a: Seq<u8>| #[trigger] self@.unique.contains(a) <==> was.unique.contains(
                a,
            ) || exists|i: int| 0 <= i < addresses@.len() && (#[trigger] addresses@[i])@ == a by {
                if new.contains(a) {
                    let i = choose|i: int| 0 <= i < new.len() && new[i] == a;
                    assert(addresses@[i]@ == a);
                }
                if exists|i: int| 0 <= i < addresses@.len() && (#[trigger] addresses@[i])@ == a {
                    let i = choose|i: int|
                        0 <= i < addresses@.len() && (#[trigger] addresses@[i])@ == a;
                    assert(new[i] == a);
                }
            }
        }
    }

    /// Whether the progress is to be told: after every hundredth batch and after the last.
    pub fn report_due(&self) -> (res: bool)
        ensures
            res == (self@.processed % REPORT_INTERVAL as int == 0 || self@.processed
                == self@.total_batches),
            res == (self@.processed % 100 == 0 || self@.processed == self@.total_batches),
    {
        self.processed % REPORT_INTERVAL == 0 || self.processed == self.total_batches
    }

    /// The number of blocks of the part that have been fetched.
    pub fn blocks(&self) -> (res: u64)
        ensures
            res == self@.blocks,
    {
        self.blocks
    }

    /// The number of their transactions.
    pub fn transactions(&self) -> (res: u64)
        ensures
            res == self@.transactions,
    {
        self.transactions
    }

    /// The number of their addresses, with repetitions.
    pub fn addresses(&self) -> (res: u64)
        ensures
            res == self@.addresses,
    {
        self.addresses
    }

    /// Their addresses.
    pub fn unique(&self) -> (res: &AddressSet)
        requires
            self.wf(),
        ensures
            res.wf(),
            res@ == self@.unique,
    {
        &self.unique
    }

    /// The number of blocks of the segment that have been fetched.
    pub fn segment_blocks(&self) -> (res: u64)
        ensures
            res == self@.segment_blocks,
    {
        self.segment_blocks
    }

    /// The number of batches of the segment that have been fetched.
    pub fn processed(&self) -> (res: usize)
        ensures
            res == self@.processed,
    {
        self.processed
    }

    /// The number of batches of the segment.
    pub fn total_batches(&self) -> (res: usize)
        ensures
            res == self@.total_batches,
    {
        self.total_batches
    }
}

/// The progress with what several batches have yielded, one after the other.
pub open spec fn with_batches(progress: ProgressView, batches: Seq<BatchYield>) -> ProgressView {
    batches.fold_left(progress, |p: ProgressView, b: BatchYield| p.with_batch(b))
}

/// In which order batches come back does not matter.
pub proof fn law_order_does_not_matter(
    progress: ProgressView,
    batches: Seq<BatchYield>,
    other: Seq<BatchYield>,
)
    requires
        batches.to_multiset() == other.to_multiset(),
    ensures
        with_batches(progress, batches) == with_batches(progress, other),
{
    let f = |p: ProgressView, b: BatchYield| p.with_batch(b);
    assert forall|x: BatchYield, y: BatchYield, v: ProgressView| #[trigger] f(f(v, x), y) == f(
        f(v, y),
        x,
    ) by {
        assert(f(f(v, x), y) =~= f(f(v, y), x));
    }
    vstd::seq_lib::lemma_fold_left_permutation(batches, other, f, progress);
}

/// The addresses of a part are those that its batches have yielded: none is lost, none is made
/// up.
pub proof fn law_addresses_of_batches(
    progress: ProgressView,
    batches: Seq<BatchYield>,
    a: Seq<u8>,
)
    ensures
        with_batches(progress, batches).unique.contains(a) <==> progress.unique.contains(a)
            || exists|i: int|
            0 <= i < batches.len() && (#[trigger] batches[i]).addresses.contains(a),
    decreases batches.len(),
{
    if batches.len() > 0 {
        let shorter = batches.drop_last();
        law_addresses_of_batches(progress, shorter, a);
        reveal_with_fuel(Seq::fold_left, 2);
        assert(with_batches(progress, batches) == with_batches(progress, shorter).with_batch(
            batches.last(),
        ));
        if batches.last().addresses.contains(a) {
            assert(batches[batches.len() - 1].addresses.contains(a));
        }
        if exists|i: int|
            0 <= i < shorter.len() && (#[trigger] shorter[i]).addresses.contains(a) {
            let i = choose|i: int|
                0 <= i < shorter.len() && (#[trigger] shorter[i]).addresses.contains(a);
            assert(batches[i].addresses.contains(a));
        }
        if exists|i: int|
            0 <= i < batches.len() && (#[trigger] batches[i]).addresses.contains(a) {
            let i = choose|i: int|
                0 <= i < batches.len() && (#[trigger] batches[i]).addresses.contains(a);
            if i < shorter.len() {
                assert(shorter[i].addresses.contains(a));
            }
        }
    }
}

/// Over batches the blocks of the part and of its segment grow alike, every batch is counted once,
/// every address is counted as often as it came, and how many batches there are does not change.
pub proof fn law_counts_of_batches(progress: ProgressView, batches: Seq<BatchYield>)
    ensures
        ({
            let after = with_batches(progress, batches);
            &&& after.processed == progress.processed + batches.len()
            &&& after.total_batches == progress.total_batches
            &&& after.segment_blocks - progress.segment_blocks == after.blocks - progress.blocks
            &&& after.addresses == progress.addresses + Seq::new(
                batches.len(),
                |i: int| batches[i].addresses,
            ).flatten().len()
        }),
    decreases batches.len(),
{
    let lists = Seq::new(batches.len(), |i: int| batches[i].addresses);
    if batches.len() == 0 {
        assert(lists.flatten() =~= Seq::empty());
    } else {
        let shorter = batches.drop_last();
        law_counts_of_batches(progress, shorter);
        let before = Seq::new(shorter.len(), |i: int| shorter[i].addresses);
        assert(lists =~= before.push(batches.last().addresses));
        before.lemma_flatten_push(batches.last().addresses);
        reveal_with_fuel(Seq::fold_left, 2);
        assert(with_batches(progress, batches) == with_batches(progress, shorter).with_batch(
            batches.last(),
        ));
    }
}

/// Batches in a row add up: what two runs of batches add is what each of them adds.
pub proof fn law_batches_add_up(
    progress: ProgressView,
    before: Seq<BatchYield>,
    after: Seq<BatchYield>,
    one: BatchYield,
)
    ensures
        with_batches(progress, before + after) == with_batches(
            with_batches(progress, before),
            after,
        ),
        with_batches(progress, seq![one]).transactions == progress.transactions + one.transactions,
        one.first <= one.last ==> with_batches(progress, seq![one]).blocks == progress.blocks + (
        one.last - one.first + 1),
        one.first > one.last ==> with_batches(progress, seq![one]).blocks == progress.blocks + 1,
    decreases after.len(),
{
    reveal_with_fuel(Seq::fold_left, 2);
    assert(seq![one].drop_last() =~= Seq::empty());
    assert(with_batches(progress, seq![one]) == progress.with_batch(one));
    if after.len() == 0 {
        assert(before + after =~= before);
    } else {
        law_batches_add_up(progress, before, after.drop_last(), one);
        assert((before + after).drop_last() =~= before + after.drop_last());
    }
}

/// A new segment starts its own counts and leaves those of the part as they are; a part starts
/// with nothing.
pub proof fn law_segment_keeps_the_part(progress: ProgressView, total_batches: int)
    ensures
        ({
            let after = progress.with_segment(total_batches);
            &&& after.blocks == progress.blocks
            &&& after.transactions == progress.transactions
            &&& after.addresses == progress.addresses
            &&& after.unique == progress.unique
            &&& after.segment_blocks == 0
            &&& after.processed == 0
            &&& after.total_batches == total_batches
        }),
        ({
            let start = ProgressView::start();
            &&& start.blocks == 0
            &&& start.transactions == 0
            &&& start.addresses == 0
            &&& forall|a: Seq<u8>| !start.unique.contains(a)
        }),
{
}

/// The totals fit if and only if none of them is beyond its machine word.
pub proof fn law_totals_fit(progress: ProgressView)
    ensures
        progress.fits() <==> progress.blocks < 0x1_0000_0000_0000_0000 && progress.transactions
            < 0x1_0000_0000_0000_0000 && progress.addresses < 0x1_0000_0000_0000_0000
            && progress.segment_blocks < 0x1_0000_0000_0000_0000 && progress.processed
            <= usize::MAX,
{
}

/// The yield of a batch keeps its blocks, every address and the count.
pub proof fn law_batch_is_kept(first: u64, last: u64, addresses: Seq<Address>, tx_count: usize)
    ensures
        ({
            let batch = batch_yield(first, last, addresses, tx_count);
            &&& batch.first == first
            &&& batch.last == last
            &&& batch.transactions == tx_count
            &&& batch.addresses.len() == addresses.len()
            &&& forall|i: int|
                0 <= i < addresses.len() ==> #[trigger] batch.addresses[i] == addresses[i]@
        }),
{
}

} // verus!
