//! Asking for the latest block: endpoint after endpoint until one answers.

use vstd::prelude::*;

use crate::error::ExtractErrorView;
use crate::quantity;
use crate::quantity::parse_hex_u64;
use crate::rpc::{HttpReply, RpcResponse};

verus! {

/// The pause after all endpoints have failed, in seconds.
pub const HEIGHT_WAIT_SECS: u64 = 15;

/// The block number that a reply holds, if it holds one.
pub open spec fn height_in(reply: HttpReply<RpcResponse<String>>) -> Option<u64> {
    match reply {
        HttpReply::Body(parsed) => match parsed.result {
            Some(text) => match quantity::quantity_outcome(text@) {
                Ok(block) => Some(block),
                Err(_) => None,
            },
            None => None,
        },
        _ => None,
    }
}

/// What is to be done to learn the latest block.
#[derive(Clone, Copy, Debug, PartialEq, Eq, Structural)]
pub enum HeightStep {
    /// Ask the endpoint at that position.
    Ask { rpc: usize },
    /// Pause, and start over with the first endpoint.
    Rest { pause_secs: u64 },
    /// The endpoint at that position has answered with the latest block.
    Found { rpc: usize, block: u64 },
}

/// What follows when all endpoints in front of that position have failed.
pub open spec fn step_at(position: int, rpcs: int) -> HeightStep {
    if position < rpcs {
        HeightStep::Ask { rpc: position as usize }
    } else {
        HeightStep::Rest { pause_secs: HEIGHT_WAIT_SECS }
    }
}

/// What follows the answer of the endpoint at that position.
pub open spec fn step_after(
    position: int,
    rpcs: int,
    reply: HttpReply<RpcResponse<String>>,
) -> HeightStep {
    match height_in(reply) {
        Some(block) => HeightStep::Found { rpc: position as usize, block },
        None => step_at(position + 1, rpcs),
    }
}

/// The block number that a reply holds, if it holds one.
pub fn height_of(reply: HttpReply<RpcResponse<String>>) -> (res: Option<u64>)
    ensures
        res == height_in(reply),
{
    match reply {
        HttpReply::Body(parsed) => match parsed.result {
            Some(text) => match parse_hex_u64(text.as_str()) {
                Ok(block) => Some(block),
                Err(_) => None,
            },
            None => None,
        },
        _ => None,
    }
}

/// What to begin a round with.
pub fn first_height_step(rpcs: usize) -> (res: HeightStep)
    ensures
        res == step_at(0, rpcs as int),
{
    if 0 < rpcs {
        HeightStep::Ask { rpc: 0 }
    } else {
        HeightStep::Rest { pause_secs: HEIGHT_WAIT_SECS }
    }
}

/// What follows the answer of the endpoint at that position.
pub fn next_height_step(
    rpc: usize,
    rpcs: usize,
    reply: HttpReply<RpcResponse<String>>,
) -> (res: HeightStep)
    requires
        rpc < rpcs,
    ensures
        res == step_after(rpc as int, rpcs as int, reply),
{
    match height_of(reply) {
        Some(block) => HeightStep::Found { rpc, block },
        None => {
            if rpc < rpcs - 1 {
                HeightStep::Ask { rpc: rpc + 1 }
            } else {
                HeightStep::Rest { pause_secs: HEIGHT_WAIT_SECS }
            }
        },
    }
}

/// How a round ends, from that position on, if the endpoints answer as `replies` says.
pub open spec fn round_end(
    position: int,
    replies: Seq<HttpReply<RpcResponse<String>>>,
) -> HeightStep
    decreases replies.len() - position,
{
    if position < 0 || position >= replies.len() {
        step_at(position, replies.len() as int)
    } else {
        match step_after(position, replies.len() as int, replies[position]) {
            HeightStep::Ask { .. } => round_end(position + 1, replies),
            other => other,
        }
    }
}

/// A round finds the block of the first endpoint that answers with one; it ends in a pause if
/// and only if none does.
pub proof fn law_first_answer_counts(replies: Seq<HttpReply<RpcResponse<String>>>, position: int)
    requires
        0 <= position <= replies.len() <= usize::MAX,
    ensures
        match round_end(position, replies) {
            HeightStep::Found { rpc, block } => position <= rpc < replies.len() && height_in(
                replies[rpc as int],
            ) == Some(block) && forall|i: int|
                position <= i < rpc ==> height_in(#[trigger] replies[i]) is None,
            HeightStep::Rest { pause_secs } => pause_secs == HEIGHT_WAIT_SECS && forall|i: int|
                position <= i < replies.len() ==> height_in(#[trigger] replies[i]) is None,
            HeightStep::Ask { .. } => false,
        },
    decreases replies.len() - position,
{
    if position < replies.len() {
        law_first_answer_counts(replies, position + 1);
        if position + 1 == replies.len() {
            assert(round_end(position + 1, replies) == step_at(
                position + 1,
                replies.len() as int,
            ));
        }
    }
}

/// The latest block found in a reply is the number that its result reads as: there is one if and
/// only if the reply has a body with a result that reads as a quantity.
pub proof fn law_height_is_what_the_result_reads_as(
    reply: HttpReply<RpcResponse<String>>,
    number: u64,
)
    ensures
        height_in(reply) == Some(number) <==> (reply matches HttpReply::Body(parsed)
            && parsed.result matches Some(text) && quantity::quantity_outcome(text@) == Ok::<
            u64,
            ExtractErrorView,
        >(number)),
{
}

/// From a reply whose result is the tag of a block, that block is found.
pub proof fn law_tagged_height_is_found(reply: HttpReply<RpcResponse<String>>, number: u64)
    requires
        reply matches HttpReply::Body(parsed) && parsed.result matches Some(text) && text@
            == quantity::block_tag_text(number),
    ensures
        height_in(reply) == Some(number),
{
    quantity::law_tag_reads_back(number);
}

/// The endpoints are asked one after the other from the first on; behind the last, and without
/// any, there is a pause of fifteen seconds; an answer names its endpoint and its block.
pub proof fn law_height_asks_in_turn(
    rpc: int,
    rpcs: int,
    reply: HttpReply<RpcResponse<String>>,
)
    requires
        0 <= rpc < rpcs <= usize::MAX,
    ensures
        step_at(0, rpcs) == (HeightStep::Ask { rpc: 0 }),
        step_at(0, 0) == (HeightStep::Rest { pause_secs: 15 }),
        match step_after(rpc, rpcs, reply) {
            HeightStep::Ask { rpc: next } => height_in(reply) is None && next == rpc + 1 && next
                < rpcs,
            HeightStep::Rest { pause_secs } => height_in(reply) is None && rpc + 1 == rpcs
                && pause_secs == 15,
            HeightStep::Found { rpc: at, block } => at == rpc && height_in(reply) == Some(block),
        },
{
}

} // verus!
