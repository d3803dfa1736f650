//! How a run is divided: into parts of one file each, parts into segments with one preferred
//! endpoint each, and segments into batches of one request each.

use vstd::prelude::*;

verus! {

/// The number of blocks of a part.
pub const PART_SIZE: u64 = 1_000_000;

/// The number of blocks of a segment.
pub const RPC_ROTATE_BLOCKS: u64 = 20_000;

/// The pause between two segments, in seconds.
pub const RPC_ROTATE_WAIT_SECS: u64 = 5;

/// The block numbers from `first` to `last`, both among them.
pub open spec fn run(first: int, last: int) -> Seq<u64> {
    Seq::new(
        if first <= last {
            (last - first + 1) as nat
        } else {
            0
        },
        |i: int| (first + i) as u64,
    )
}

/// Where a chunk of `size` blocks ends that starts at `start`.
pub open spec fn chunk_end(start: int, size: int, last: int) -> int {
    if start + size - 1 < last {
        start + size - 1
    } else {
        last
    }
}

/// Where the chunk at position `k` starts.
pub open spec fn chunk_start(first: int, size: int, k: int) -> int {
    first + k * size
}

/// How many chunks of `size` blocks there are from `first` to `last`; the last may be smaller.
pub open spec fn chunk_count(first: int, last: int, size: int) -> nat {
    if first <= last {
        ((last - first) / size + 1) as nat
    } else {
        0
    }
}

/// The block numbers of the chunk at position `k`.
pub open spec fn chunk(first: int, last: int, size: int, k: int) -> Seq<u64> {
    run(chunk_start(first, size, k), chunk_end(chunk_start(first, size, k), size, last))
}

/// The block numbers from `first` to `last`, chunk by chunk.
pub open spec fn chunks(first: int, last: int, size: int) -> Seq<Seq<u64>> {
    Seq::new(chunk_count(first, last, size), |k: int| chunk(first, last, size, k))
}

/// A part of a run. Parts count from one.
#[derive(Clone, Copy, Debug, PartialEq, Eq, Structural)]
pub struct Part {
    pub number: u32,
    pub start: u64,
    pub end: u64,
}

/// A segment of a part. Segments count from zero.
#[derive(Clone, Copy, Debug, PartialEq, Eq, Structural)]
pub struct Segment {
    pub number: u64,
    pub start: u64,
    pub end: u64,
}

/// The part at position `k` of the run from `first` to `last`.
pub open spec fn part_at(first: u64, last: u64, k: int) -> Part {
    Part {
        number: (k + 1) as u32,
        start: chunk_start(first as int, PART_SIZE as int, k) as u64,
        end: chunk_end(
            chunk_start(first as int, PART_SIZE as int, k),
            PART_SIZE as int,
            last as int,
        ) as u64,
    }
}

/// The segment at position `k` of the blocks from `first` to `last`.
pub open spec fn segment_at(first: u64, last: u64, k: int) -> Segment {
    Segment {
        number: k as u64,
        start: chunk_start(first as int, RPC_ROTATE_BLOCKS as int, k) as u64,
        end: chunk_end(
            chunk_start(first as int, RPC_ROTATE_BLOCKS as int, k),
            RPC_ROTATE_BLOCKS as int,
            last as int,
        ) as u64,
    }
}

/// The part behind a part, unless the run ends with it.
pub open spec fn part_after(part: Part, last: u64) -> Option<Part> {
    if part.end < last {
        Some(
            Part {
                number: (part.number + 1) as u32,
                start: (part.end + 1) as u64,
                end: chunk_end(part.end + 1, PART_SIZE as int, last as int) as u64,
            },
        )
    } else {
        None
    }
}

/// The segment behind a segment, unless the part ends with it.
pub open spec fn segment_after(segment: Segment, part_end: u64) -> Option<Segment> {
    if segment.end < part_end {
        Some(
            Segment {
                number: if segment.number < u64::MAX {
                    (segment.number + 1) as u64
                } else {
                    u64::MAX
                },
                start: (segment.end + 1) as u64,
                end: chunk_end(segment.end + 1, RPC_ROTATE_BLOCKS as int, part_end as int) as u64,
            },
        )
    } else {
        None
    }
}

/// Where a chunk of `size` blocks ends that starts at `start`.
fn end_of_chunk(start: u64, size: u64, last: u64) -> (res: u64)
    requires
        size > 0,
    ensures
        res == chunk_end(start as int, size as int, last as int),
{
    let full: u64 = start.saturating_add(size - 1);
    if full < last {
        full
    } else {
        last
    }
}

/// The first part of the run from `start_block` to `end_block`.
pub fn first_part(start_block: u64, end_block: u64) -> (res: Part)
    ensures
        res == part_at(start_block, end_block, 0),
{
    Part { number: 1, start: start_block, end: end_of_chunk(start_block, PART_SIZE, end_block) }
}

/// The part behind `part`, unless the run ends with it.
pub fn next_part(part: &Part, end_block: u64) -> (res: Option<Part>)
    requires
        part.end < end_block ==> part.number < u32::MAX,
    ensures
        res == part_after(*part, end_block),
{
    if part.end < end_block {
        let start: u64 = part.end + 1;
        Some(
            Part {
                number: part.number + 1,
                start,
                end: end_of_chunk(start, PART_SIZE, end_block),
            },
        )
    } else {
        None
    }
}

/// The first segment of a part.
pub fn first_segment(part: &Part) -> (res: Segment)
    ensures
        res == segment_at(part.start, part.end, 0),
{
    Segment {
        number: 0,
        start: part.start,
        end: end_of_chunk(part.start, RPC_ROTATE_BLOCKS, part.end),
    }
}

/// The segment behind `segment`, unless the part that ends at `part_end` ends with it.
pub fn next_segment(segment: &Segment, part_end: u64) -> (res: Option<Segment>)
    ensures
        res == segment_after(*segment, part_end),
{
    if segment.end < part_end {
        let start: u64 = segment.end + 1;
        Some(
            Segment {
                number: segment.number.saturating_add(1),
                start,
                end: end_of_chunk(start, RPC_ROTATE_BLOCKS, part_end),
            },
        )
    } else {
        None
    }
}

/// The position of the endpoint that a segment prefers: from segment to segment the next one.
pub fn preferred_rpc(segment: &Segment, rpcs: usize) -> (res: usize)
    requires
        rpcs > 0,
    ensures
        res == (segment.number as usize) % rpcs,
        segment.number <= u32::MAX ==> res == segment.number as int % rpcs as int,
        segment.number < rpcs ==> res == segment.number,
        res < rpcs,
{
    proof {
        if segment.number < rpcs {
            vstd::arithmetic::div_mod::lemma_small_mod(segment.number as nat, rpcs as nat);
        }
    }
    (segment.number as usize) % rpcs
}

/// The block numbers from `first` to `last`, both among them.
fn numbers(first: u64, last: u64) -> (res: Vec<u64>)
    requires
        first <= last,
    ensures
        res@ == run(first as int, last as int),
{
    let mut out: Vec<u64> = Vec::new();
    let mut n: u64 = first;
    while n < last
        invariant
            first <= n <= last,
            out@ =~= run(first as int, n - 1),
        decreases last - n,
    {
        out.push(n);
        n = n + 1;
    }
    out.push(n);
    assert(out@ =~= run(first as int, last as int));
    out
}

/// The contents of lists of block numbers.
pub open spec fn lists(batches: Seq<Vec<u64>>) -> Seq<Seq<u64>> {
    Seq::new(batches.len(), |i: int| batches[i]@)
}

/// The batches of the blocks from `start` to `end`: `batch_size` blocks each, the last one
/// maybe fewer.
pub fn segment_batches(start: u64, end: u64, batch_size: u64) -> (res: Vec<Vec<u64>>)
    requires
        batch_size > 0,
    ensures
        lists(res@) == chunks(start as int, end as int, batch_size as int),
{
    let mut batches: Vec<Vec<u64>> = Vec::new();
    if start > end {
        assert(lists(batches@) =~= chunks(start as int, end as int, batch_size as int));
        return batches;
    }
    let ghost first = start as int;
    let ghost last = end as int;
    let ghost size = batch_size as int;
    let mut current: u64 = start;
    let ghost mut k: int = 0;
    assert(0 * size == 0);
    loop
        invariant_except_break
            k == batches@.len(),
            first <= current <= last,
            current == chunk_start(first, size, k),
            forall|j: int| 0 <= j < k ==> (#[trigger] batches@[j])@ == chunk(first, last, size, j),
        invariant
            size == batch_size > 0,
            first == start,
            last == end,
            first <= last,
        ensures
            batches@.len() == chunk_count(first, last, size),
            forall|j: int|
                0 <= j < batches@.len() ==> (#[trigger] batches@[j])@ == chunk(
                    first,
                    last,
                    size,
                    j,
                ),
        decreases end - current,
    {
        let batch_end: u64 = end_of_chunk(current, batch_size, end);
        batches.push(numbers(current, batch_end));
        if batch_end == end {
            proof {
                lemma_last_chunk(first, last, size, k);
            }
            break;
        }
        proof {
            assert((k + 1) * size == k * size + size) by (nonlinear_arith);
            k = k + 1;
        }
        current = batch_end + 1;
    }
    assert(lists(batches@) =~= chunks(first, last, size));
    batches
}

/// The chunk that holds the last block is the last one.
proof fn lemma_last_chunk(first: int, last: int, size: int, k: int)
    requires
        size > 0,
        0 <= k,
        chunk_start(first, size, k) <= last <= chunk_start(first, size, k) + size - 1,
    ensures
        first <= last,
        chunk_count(first, last, size) == k + 1,
{
    assert(0 <= k * size) by (nonlinear_arith)
        requires
            0 <= k,
            0 < size,
    ;
    vstd::arithmetic::div_mod::lemma_fundamental_div_mod_converse(
        last - first,
        size,
        k,
        last - first - k * size,
    );
}

/// Every chunk starts within the blocks; all but the last are full, and the last ends them.
pub(crate) proof fn lemma_chunk_bounds(first: int, last: int, size: int, k: int)
    requires
        size > 0,
        first <= last,
        0 <= k < chunk_count(first, last, size),
    ensures
        first <= chunk_start(first, size, k) <= chunk_end(chunk_start(first, size, k), size, last)
            <= last,
        chunk_start(first, size, k + 1) == chunk_start(first, size, k) + size,
        k + 1 < chunk_count(first, last, size) ==> chunk_end(
            chunk_start(first, size, k),
            size,
            last,
        ) + 1 == chunk_start(first, size, k + 1) <= last,
        k + 1 == chunk_count(first, last, size) ==> chunk_end(
            chunk_start(first, size, k),
            size,
            last,
        ) == last,
{
    let q = (last - first) / size;
    let r = (last - first) % size;
    vstd::arithmetic::div_mod::lemma_fundamental_div_mod(last - first, size);
    assert(0 <= r < size) by {
        vstd::arithmetic::div_mod::lemma_mod_bound(last - first, size);
    }
    assert((k + 1) * size == k * size + size) by (nonlinear_arith);
    assert(0 <= k * size <= q * size) by (nonlinear_arith)
        requires
            0 <= k <= q,
            0 < size,
    ;
    assert(size * q == q * size) by (nonlinear_arith);
    if k + 1 < chunk_count(first, last, size) {
        assert((k + 1) * size <= q * size) by (nonlinear_arith)
            requires
                k + 1 <= q,
                0 < size,
        ;
    }
}

/// The chunks of a run, put in a row, are the run: no block is missing, none comes twice, and
/// they come in order.
pub proof fn law_chunks_in_a_row(first: int, last: int, size: int)
    requires
        size > 0,
    ensures
        chunks(first, last, size).flatten() == run(first, last),
{
    let all = chunks(first, last, size);
    if first <= last {
        let count = chunk_count(first, last, size) as int;
        assert(count >= 1) by {
            vstd::arithmetic::div_mod::lemma_div_pos_is_pos(last - first, size);
        }
        lemma_leading_chunks(first, last, size, count);
        lemma_chunk_bounds(first, last, size, count - 1);
        assert(all.take(count) =~= all);
    } else {
        assert(run(first, last) =~= Seq::<u64>::empty());
    }
}

/// The leading chunks, put in a row, are the blocks up to the end of the last of them.
proof fn lemma_leading_chunks(first: int, last: int, size: int, k: int)
    requires
        size > 0,
        first <= last,
        1 <= k <= chunk_count(first, last, size),
    ensures
        chunks(first, last, size).take(k).flatten() == run(
            first,
            chunk_end(chunk_start(first, size, k - 1), size, last),
        ),
    decreases k,
{
    let all = chunks(first, last, size);
    let before = all.take(k - 1);
    let piece = chunk(first, last, size, k - 1);
    assert(all.take(k) =~= before.push(piece));
    before.lemma_flatten_push(piece);
    lemma_chunk_bounds(first, last, size, k - 1);
    if k == 1 {
        assert(before =~= Seq::empty());
        assert(before.flatten() =~= Seq::empty());
        assert(0 * size == 0);
    } else {
        lemma_leading_chunks(first, last, size, k - 1);
        lemma_chunk_bounds(first, last, size, k - 2);
    }
    assert(before.flatten() + piece =~= run(
        first,
        chunk_end(chunk_start(first, size, k - 1), size, last),
    ));
}

/// Going from part to part visits all parts of the run and then stops.
pub proof fn law_parts_in_turn(first: u64, last: u64, k: int)
    requires
        first <= last,
        0 <= k < chunk_count(first as int, last as int, PART_SIZE as int),
        k + 1 < u32::MAX,
    ensures
        part_after(part_at(first, last, k), last) == (if k + 1 < chunk_count(
            first as int,
            last as int,
            PART_SIZE as int,
        ) {
            Some(part_at(first, last, k + 1))
        } else {
            None
        }),
        run(part_at(first, last, k).start as int, part_at(first, last, k).end as int) == chunk(
            first as int,
            last as int,
            PART_SIZE as int,
            k,
        ),
        part_at(first, last, k).end - part_at(first, last, k).start < PART_SIZE,
{
    lemma_chunk_bounds(first as int, last as int, PART_SIZE as int, k);
}

/// Going from segment to segment visits all segments of a part and then stops.
pub proof fn law_segments_in_turn(first: u64, last: u64, k: int)
    requires
        first <= last,
        0 <= k < chunk_count(first as int, last as int, RPC_ROTATE_BLOCKS as int),
    ensures
        segment_after(segment_at(first, last, k), last) == (if k + 1 < chunk_count(
            first as int,
            last as int,
            RPC_ROTATE_BLOCKS as int,
        ) {
            Some(segment_at(first, last, k + 1))
        } else {
            None
        }),
        run(segment_at(first, last, k).start as int, segment_at(first, last, k).end as int)
            == chunk(first as int, last as int, RPC_ROTATE_BLOCKS as int, k),
        segment_at(first, last, k).end - segment_at(first, last, k).start < RPC_ROTATE_BLOCKS,
        segment_at(first, last, k).number == k,
        last - first < PART_SIZE ==> k < PART_SIZE / RPC_ROTATE_BLOCKS,
{
    lemma_chunk_bounds(first as int, last as int, RPC_ROTATE_BLOCKS as int, k);
}

/// The blocks from `first` to `last` as they are requested: segment by segment, batch by batch.
pub open spec fn part_requests(first: int, last: int, batch_size: int) -> Seq<Seq<u64>> {
    let size = RPC_ROTATE_BLOCKS as int;
    Seq::new(
        chunk_count(first, last, size),
        |k: int|
            {
                let start = chunk_start(first, size, k);
                chunks(start, chunk_end(start, size, last), batch_size).flatten()
            },
    )
}

/// The blocks of a run as they are requested: part by part.
pub open spec fn run_requests(first: int, last: int, batch_size: int) -> Seq<Seq<u64>> {
    let size = PART_SIZE as int;
    Seq::new(
        chunk_count(first, last, size),
        |k: int|
            {
                let start = chunk_start(first, size, k);
                part_requests(start, chunk_end(start, size, last), batch_size).flatten()
            },
    )
}

/// Over all parts, segments and batches of a run every block is requested exactly once, in
/// order.
pub proof fn law_every_block_once(first: u64, last: u64, batch_size: u64)
    requires
        batch_size > 0,
    ensures
        run_requests(first as int, last as int, batch_size as int).flatten() == run(
            first as int,
            last as int,
        ),
{
    let size = PART_SIZE as int;
    let requests = run_requests(first as int, last as int, batch_size as int);
    let parts = chunks(first as int, last as int, size);
    assert forall|k: int| 0 <= k < parts.len() implies #[trigger] requests[k] == parts[k] by {
        let start = chunk_start(first as int, size, k);
        lemma_part_in_a_row(start, chunk_end(start, size, last as int), batch_size as int);
    }
    assert(requests =~= parts);
    law_chunks_in_a_row(first as int, last as int, size);
}

/// Over all segments and batches of a part every block is requested exactly once, in order.
proof fn lemma_part_in_a_row(first: int, last: int, batch_size: int)
    requires
        batch_size > 0,
    ensures
        part_requests(first, last, batch_size).flatten() == run(first, last),
{
    let size = RPC_ROTATE_BLOCKS as int;
    let requests = part_requests(first, last, batch_size);
    let segments = chunks(first, last, size);
    assert forall|k: int| 0 <= k < segments.len() implies #[trigger] requests[k]
        == segments[k] by {
        let start = chunk_start(first, size, k);
        law_chunks_in_a_row(start, chunk_end(start, size, last), batch_size);
    }
    assert(requests =~= segments);
    law_chunks_in_a_row(first, last, size);
}

/// The block numbers from the first to the last are these and no others, one after the other.
pub proof fn law_run_is_consecutive(first: int, last: int, i: int)
    requires
        0 <= first,
        last <= u64::MAX,
    ensures
        run(first, last).len() == (if first <= last {
            last - first + 1
        } else {
            0
        }),
        0 <= i < run(first, last).len() ==> run(first, last)[i] == first + i,
{
}

/// Chunks are full but for the last, which is not empty; each starts right behind the one before
/// it and is consecutive.
pub proof fn law_chunks_are_full(first: int, last: int, size: int, k: int, i: int)
    requires
        size > 0,
        0 <= first <= last <= u64::MAX,
        0 <= k < chunks(first, last, size).len(),
    ensures
        k + 1 < chunks(first, last, size).len() ==> chunks(first, last, size)[k].len() == size,
        1 <= chunks(first, last, size)[k].len() <= size,
        0 <= i < chunks(first, last, size)[k].len() ==> chunks(first, last, size)[k][i] == first + k
            * size + i,
        k + 1 == chunks(first, last, size).len() ==> chunks(first, last, size)[k].last() == last,
{
    lemma_chunk_bounds(first, last, size, k);
}

/// The parts of a run have a million blocks each but for the last, which ends the run; they count
/// from one.
pub proof fn law_part_bounds(first: u64, last: u64, k: int)
    requires
        0 <= k < u32::MAX,
        first + k * 1_000_000 <= last,
    ensures
        part_at(first, last, k).number == k + 1,
        part_at(first, last, k).start == first + k * 1_000_000,
        part_at(first, last, k).end == (if first + k * 1_000_000 + 999_999 < last {
            first + k * 1_000_000 + 999_999
        } else {
            last as int
        }),
{
}

/// The segments of a part have twenty thousand blocks each but for the last, which ends the part;
/// they count from zero.
pub proof fn law_segment_bounds(first: u64, last: u64, k: int)
    requires
        0 <= k,
        first + k * 20_000 <= last,
    ensures
        segment_at(first, last, k).number == k,
        segment_at(first, last, k).start == first + k * 20_000,
        segment_at(first, last, k).end == (if first + k * 20_000 + 19_999 < last {
            first + k * 20_000 + 19_999
        } else {
            last as int
        }),
{
}

/// Behind a part comes another if and only if the run goes on behind it: it starts with the next
/// block, has the next number, and has a million blocks or ends the run.
pub proof fn law_next_part_follows(part: Part, last: u64)
    requires
        part.number < u32::MAX,
    ensures
        part_after(part, last) is Some <==> part.end < last,
        part_after(part, last) matches Some(next) ==> next.number == part.number + 1 && next.start
            == part.end + 1 && next.start <= next.end <= last && next.end - next.start < 1_000_000
            && (next.end < last ==> next.end - next.start == 999_999),
{
}

/// Behind a segment comes another if and only if the part goes on behind it: it starts with the
/// next block, has the next number, and has twenty thousand blocks or ends the part. Between the
/// two there is a pause of five seconds.
pub proof fn law_next_segment_follows(segment: Segment, part_end: u64)
    ensures
        RPC_ROTATE_WAIT_SECS == 5,
        segment_after(segment, part_end) is Some <==> segment.end < part_end,
        segment_after(segment, part_end) matches Some(next) ==> (segment.number < u64::MAX
            ==> next.number == segment.number + 1) && next.start == segment.end + 1 && next.start
            <= next.end <= part_end && next.end - next.start < 20_000 && (next.end < part_end
            ==> next.end - next.start == 19_999),
{
}

/// The contents of lists are those of each list, in order.
pub proof fn law_lists_one_by_one(batches: Seq<Vec<u64>>, i: int)
    requires
        0 <= i < batches.len(),
    ensures
        lists(batches).len() == batches.len(),
        lists(batches)[i] == batches[i]@,
{
}

} // verus!
