//! What a fetch comes to over all the replies that it gets.

use vstd::prelude::*;

use crate::block;
use crate::block::BlockData;
use crate::error::ExtractErrorView;
use crate::fetch;
use crate::fetch::{FetchReply, FetchView, StepView};
use crate::gather;

verus! {

/// Where a fetch stands after these replies, one after the other.
pub open spec fn after_replies(fetch: FetchView, replies: Seq<FetchReply>) -> StepView
    decreases replies.len(),
{
    if replies.len() == 0 {
        StepView::Ask(fetch)
    } else {
        match after_replies(fetch, replies.drop_last()) {
            StepView::Ask(next) => next.after_reply(replies.last()),
            StepView::Done(res) => StepView::Done(res),
        }
    }
}

/// One of the replies holds the block, alone or under that number in a batch.
pub open spec fn was_received(replies: Seq<FetchReply>, number: u64, block: BlockData) -> bool {
    exists|i: int|
        0 <= i < replies.len() && match #[trigger] replies[i] {
            FetchReply::Failed => false,
            FetchReply::Batch(map) => map.contains_key(number) && map[number] == block,
            FetchReply::Single(found) => found == block,
        }
}

/// The addresses of blocks, block by block, in order and with repetitions.
pub open spec fn addresses_in(received: Seq<BlockData>) -> Seq<Seq<u8>>
    decreases received.len(),
{
    if received.len() == 0 {
        Seq::empty()
    } else {
        addresses_in(received.drop_last()) + block::all_addresses(received.last().transactions@)
    }
}

/// The number of transactions of blocks.
pub open spec fn transactions_in(received: Seq<BlockData>) -> nat
    decreases received.len(),
{
    if received.len() == 0 {
        0
    } else {
        transactions_in(received.drop_last()) + received.last().transactions@.len()
    }
}

/// The blocks were received, one for each of the numbers, and each of them carries its number.
pub open spec fn answers(
    replies: Seq<FetchReply>,
    numbers: Seq<u64>,
    received: Seq<BlockData>,
) -> bool {
    &&& received.len() == numbers.len()
    &&& forall|i: int|
        #![trigger received[i]]
        0 <= i < received.len() ==> block::block_fault(received[i], numbers[i]) is None
            && was_received(replies, numbers[i], received[i])
}

/// What was received stays received.
proof fn lemma_answers_stay(
    replies: Seq<FetchReply>,
    numbers: Seq<u64>,
    received: Seq<BlockData>,
)
    requires
        replies.len() > 0,
        answers(replies.drop_last(), numbers, received),
    ensures
        answers(replies, numbers, received),
{
    let earlier = replies.drop_last();
    assert forall|i: int|
        #![trigger received[i]]
        0 <= i < received.len() implies block::block_fault(received[i], numbers[i]) is None
        && was_received(replies, numbers[i], received[i]) by {
        assert(was_received(earlier, numbers[i], received[i]));
        let k = choose|k: int|
            0 <= k < earlier.len() && match #[trigger] earlier[k] {
                FetchReply::Failed => false,
                FetchReply::Batch(map) => map.contains_key(numbers[i]) && map[numbers[i]]
                    == received[i],
                FetchReply::Single(found) => found == received[i],
            };
        assert(replies[k] == earlier[k]);
    }
}

/// The blocks that `map` holds under the numbers.
spec fn taken_from(map: Map<u64, BlockData>, numbers: Seq<u64>) -> Seq<BlockData> {
    Seq::new(numbers.len(), |i: int| map[numbers[i]])
}

/// What is gathered from a map is the yield of the blocks in it.
proof fn lemma_gathered_is_yield(numbers: Seq<u64>, map: Map<u64, BlockData>)
    requires
        gather::gathered(numbers, map) is Ok,
    ensures
        gather::gathered(numbers, map)->Ok_0 == (
            addresses_in(taken_from(map, numbers)),
            transactions_in(taken_from(map, numbers)),
        ),
        forall|i: int|
            #![trigger numbers[i]]
            0 <= i < numbers.len() ==> map.contains_key(numbers[i]) && block::block_fault(
                map[numbers[i]],
                numbers[i],
            ) is None,
    decreases numbers.len(),
{
    let taken = taken_from(map, numbers);
    if numbers.len() > 0 {
        let earlier = numbers.drop_last();
        lemma_gathered_is_yield(earlier, map);
        assert(taken.drop_last() =~= taken_from(map, earlier));
        assert forall|i: int|
            #![trigger numbers[i]]
            0 <= i < numbers.len() implies map.contains_key(numbers[i]) && block::block_fault(
            map[numbers[i]],
            numbers[i],
        ) is None by {
            if i < earlier.len() {
                assert(earlier[i] == numbers[i]);
            }
        }
    }
}

/// What holds of a fetch after any replies: while it goes on, it is the same fetch, and what it
/// has gathered is the yield of received blocks, one for each of the leading numbers; when it
/// ends well, the yield is that of received blocks, one for each number.
proof fn lemma_yield_so_far(
    blocks: Seq<u64>,
    rpcs: nat,
    preferred: nat,
    replies: Seq<FetchReply>,
) -> (received: Seq<BlockData>)
    requires
        preferred < rpcs,
    ensures
        match after_replies(FetchView::start(blocks, rpcs, preferred), replies) {
            StepView::Ask(next) => {
                &&& next.wf()
                &&& next.blocks == blocks
                &&& next.rpcs == rpcs
                &&& next.preferred == preferred
                &&& next.addresses == addresses_in(received)
                &&& next.transactions == transactions_in(received)
                &&& answers(
                    replies,
                    blocks.take(
                        match next.single {
                            Some(index) => index as int,
                            None => 0,
                        },
                    ),
                    received,
                )
            },
            StepView::Done(Ok(sum)) => {
                &&& sum.0 == addresses_in(received)
                &&& sum.1 == transactions_in(received)
                &&& answers(replies, blocks, received)
            },
            StepView::Done(Err(_)) => true,
        },
    decreases replies.len(),
{
    let start = FetchView::start(blocks, rpcs, preferred);
    if replies.len() == 0 {
        Seq::empty()
    } else {
        let earlier = replies.drop_last();
        let reply = replies.last();
        let before = lemma_yield_so_far(blocks, rpcs, preferred, earlier);
        match after_replies(start, earlier) {
            StepView::Done(Ok(_)) => {
                lemma_answers_stay(replies, blocks, before);
                before
            },
            StepView::Done(Err(_)) => before,
            StepView::Ask(fetch) => {
                fetch::law_fetch_ends(fetch, Seq::empty(), 0);
                match (fetch.single, reply) {
                    (None, FetchReply::Batch(map)) => {
                        let taken = taken_from(map, blocks);
                        if gather::gathered(blocks, map) is Ok {
                            lemma_gathered_is_yield(blocks, map);
                            assert forall|i: int|
                                #![trigger taken[i]]
                                0 <= i < taken.len() implies block::block_fault(
                                taken[i],
                                blocks[i],
                            ) is None && was_received(replies, blocks[i], taken[i]) by {
                                assert(map.contains_key(blocks[i]));
                                assert(replies[replies.len() - 1] == reply);
                            }
                        }
                        taken
                    },
                    (Some(index), FetchReply::Single(found)) => {
                        let number = blocks[index as int];
                        lemma_answers_stay(replies, blocks.take(index as int), before);
                        if block::block_fault(found, number) is None {
                            let more = block::all_addresses(found.transactions@);
                            let received = before.push(found);
                            fetch::law_fetch_ends(fetch, more, found.transactions@.len());
                            assert(received.drop_last() =~= before);
                            let numbers = blocks.take(index as int + 1);
                            assert forall|i: int|
                                #![trigger received[i]]
                                0 <= i < received.len() implies block::block_fault(
                                received[i],
                                numbers[i],
                            ) is None && was_received(replies, numbers[i], received[i]) by {
                                if i < index {
                                    assert(received[i] == before[i]);
                                    assert(numbers[i] == blocks.take(index as int)[i]);
                                } else {
                                    assert(replies[replies.len() - 1] == reply);
                                }
                            }
                            if index + 1 == blocks.len() {
                                assert(numbers =~= blocks);
                            }
                            received
                        } else {
                            before
                        }
                    },
                    _ => {
                        let at = match fetch.single {
                            Some(index) => index as int,
                            None => 0,
                        };
                        lemma_answers_stay(replies, blocks.take(at), before);
                        if blocks.len() == 0 {
                            assert(blocks.take(at) =~= blocks);
                        }
                        before
                    },
                }
            },
        }
    }
}

/// Whatever mixture of failures, faulty blocks and answers comes back: a fetch that ends well
/// yields the addresses and counts the transactions of blocks that were received, one for each
/// block asked for, in that order, each under its own number, and of no others.
pub proof fn law_fetch_yields_received_blocks(
    blocks: Seq<u64>,
    rpcs: nat,
    preferred: nat,
    replies: Seq<FetchReply>,
)
    requires
        preferred < rpcs,
    ensures
        after_replies(FetchView::start(blocks, rpcs, preferred), replies) matches StepView::Done(
            Ok(sum),
        ) ==> exists|received: Seq<BlockData>| #[trigger]
            answers(replies, blocks, received) && sum.0 == addresses_in(received) && sum.1
                == transactions_in(received),
{
    let received = lemma_yield_so_far(blocks, rpcs, preferred, replies);
    if let StepView::Done(Ok(sum)) = after_replies(
        FetchView::start(blocks, rpcs, preferred),
        replies,
    ) {
        assert(answers(replies, blocks, received));
    }
}

/// The reply does not bring the fetch further: it failed, or its block is faulty.
pub open spec fn is_refused(fetch: FetchView, reply: FetchReply) -> bool {
    match (fetch.single, reply) {
        (_, FetchReply::Failed) => true,
        (Some(index), FetchReply::Single(found)) => block::block_fault(
            found,
            fetch.blocks[index as int],
        ) is Some,
        _ => false,
    }
}

/// Refused replies only count, as long as the request is not given up.
proof fn lemma_refusals_count(fetch: FetchView, replies: Seq<FetchReply>)
    requires
        fetch.wf(),
        fetch.attempt + replies.len() < fetch.attempts(),
        forall|i: int| 0 <= i < replies.len() ==> is_refused(fetch, #[trigger] replies[i]),
    ensures
        after_replies(fetch, replies) == StepView::Ask(
            FetchView { attempt: fetch.attempt + replies.len(), ..fetch },
        ),
    decreases replies.len(),
{
    if replies.len() > 0 {
        let earlier = replies.drop_last();
        assert forall|i: int| 0 <= i < earlier.len() implies is_refused(
            fetch,
            #[trigger] earlier[i],
        ) by {
            assert(earlier[i] == replies[i]);
        }
        lemma_refusals_count(fetch, earlier);
        assert(is_refused(fetch, replies[replies.len() - 1]));
    }
}

/// A late answer is as good as an early one: after any refused replies that leave the request
/// standing, an answer brings the fetch to where it would have brought it at once.
pub proof fn law_late_answer_counts(
    fetch: FetchView,
    refused: Seq<FetchReply>,
    answer: FetchReply,
)
    requires
        fetch.wf(),
        fetch.attempt + refused.len() < fetch.attempts(),
        forall|i: int| 0 <= i < refused.len() ==> is_refused(fetch, #[trigger] refused[i]),
        match answer {
            FetchReply::Failed => false,
            FetchReply::Batch(_) => fetch.single is None,
            FetchReply::Single(_) => fetch.single is Some && !is_refused(fetch, answer),
        },
    ensures
        after_replies(fetch, refused.push(answer)) == fetch.after_reply(answer),
{
    lemma_refusals_count(fetch, refused);
    let all = refused.push(answer);
    assert(all.drop_last() =~= refused);
    let late = FetchView { attempt: fetch.attempt + refused.len(), ..fetch };
    assert(late.after_reply(answer) =~= fetch.after_reply(answer));
}

/// What was received is what the chain holds: a received block that carries its number has the
/// addresses and the transactions of the chain's block of that number.
pub open spec fn is_honest(replies: Seq<FetchReply>, chain: Map<u64, BlockData>) -> bool {
    forall|number: u64, found: BlockData| #[trigger]
        was_received(replies, number, found) && block::block_fault(found, number) is None
            ==> block::all_addresses(found.transactions@) == block::all_addresses(
            chain[number].transactions@,
        ) && found.transactions@.len() == chain[number].transactions@.len()
}

/// Blocks that agree with those in a map yield what the map yields.
proof fn lemma_same_yield(
    numbers: Seq<u64>,
    chain: Map<u64, BlockData>,
    received: Seq<BlockData>,
)
    requires
        received.len() == numbers.len(),
        gather::gathered(numbers, chain) is Ok,
        forall|i: int|
            #![trigger received[i]]
            0 <= i < received.len() ==> block::all_addresses(received[i].transactions@)
                == block::all_addresses(chain[numbers[i]].transactions@)
                && received[i].transactions@.len() == chain[numbers[i]].transactions@.len(),
    ensures
        gather::gathered(numbers, chain) == Ok::<(Seq<Seq<u8>>, nat), ExtractErrorView>(
            (addresses_in(received), transactions_in(received)),
        ),
    decreases numbers.len(),
{
    if numbers.len() > 0 {
        let shorter = received.drop_last();
        let earlier = numbers.drop_last();
        assert forall|i: int|
            #![trigger shorter[i]]
            0 <= i < shorter.len() implies block::all_addresses(shorter[i].transactions@)
            == block::all_addresses(chain[earlier[i]].transactions@)
            && shorter[i].transactions@.len() == chain[earlier[i]].transactions@.len() by {
            assert(shorter[i] == received[i]);
        }
        lemma_same_yield(earlier, chain, shorter);
        assert(received[numbers.len() - 1] == received.last());
    }
}

/// From endpoints that deliver the blocks of a chain, a fetch that ends well yields what the
/// chain's blocks yield, by whatever way the blocks came.
pub proof fn law_fetch_yields_the_chain(
    blocks: Seq<u64>,
    rpcs: nat,
    preferred: nat,
    replies: Seq<FetchReply>,
    chain: Map<u64, BlockData>,
)
    requires
        preferred < rpcs,
        gather::gathered(blocks, chain) is Ok,
        is_honest(replies, chain),
    ensures
        after_replies(FetchView::start(blocks, rpcs, preferred), replies) matches StepView::Done(
            Ok(sum),
        ) ==> gather::gathered(blocks, chain) == Ok::<(Seq<Seq<u8>>, nat), ExtractErrorView>(sum),
{
    let received = lemma_yield_so_far(blocks, rpcs, preferred, replies);
    if let StepView::Done(Ok(sum)) = after_replies(
        FetchView::start(blocks, rpcs, preferred),
        replies,
    ) {
        assert forall|i: int|
            #![trigger received[i]]
            0 <= i < received.len() implies block::all_addresses(received[i].transactions@)
            == block::all_addresses(chain[blocks[i]].transactions@)
            && received[i].transactions@.len() == chain[blocks[i]].transactions@.len() by {
            assert(was_received(replies, blocks[i], received[i]));
        }
        lemma_same_yield(blocks, chain, received);
    }
}

} // verus!
