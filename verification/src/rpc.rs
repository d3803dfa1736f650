//! The calls sent to an endpoint, and what becomes of its replies.

use std::collections::{HashMap, HashSet};

use vstd::prelude::*;

use crate::block::BlockData;
use crate::error::{ExtractError, ExtractErrorView};
use crate::quantity;
use crate::quantity::block_tag;

verus! {

broadcast use vstd::std_specs::hash::group_hash_axioms;

/// A parameter of a call.
#[derive(Debug)]
pub enum Param {
    Text(String),
    Flag(bool),
}

/// A JSON-RPC call.
#[derive(Debug)]
pub struct RpcCall {
    pub jsonrpc: String,
    pub method: String,
    pub params: Vec<Param>,
    pub id: u64,
}

/// [`Param`] with its text taken as a character sequence.
pub enum ParamView {
    Text(Seq<char>),
    Flag(bool),
}

/// [`RpcCall`] with its texts taken as character sequences.
pub struct RpcCallView {
    pub jsonrpc: Seq<char>,
    pub method: Seq<char>,
    pub params: Seq<ParamView>,
    pub id: u64,
}

impl View for Param {
    type V = ParamView;

    open spec fn view(&self) -> ParamView {
        match *self {
            Param::Text(s) => ParamView::Text(s@),
            Param::Flag(b) => ParamView::Flag(b),
        }
    }
}

impl View for RpcCall {
    type V = RpcCallView;

    open spec fn view(&self) -> RpcCallView {
        RpcCallView {
            jsonrpc: self.jsonrpc@,
            method: self.method@,
            params: Seq::new(self.params@.len(), |i: int| self.params@[i]@),
            id: self.id,
        }
    }
}

/// An error that an endpoint reports.
#[derive(Debug)]
pub struct RpcErrorDetail {
    pub message: String,
}

/// An endpoint's answer to one call.
#[derive(Debug)]
pub struct RpcResponse<T> {
    pub id: Option<u64>,
    pub result: Option<T>,
    pub error: Option<RpcErrorDetail>,
}

/// An endpoint's answer to a batch of calls: one answer for each, or one for the whole.
#[derive(Debug)]
pub enum BatchPayload {
    Batch(Vec<RpcResponse<BlockData>>),
    SingleError(Option<RpcErrorDetail>),
}

/// How an HTTP request ended.
#[derive(Debug)]
pub enum HttpReply<T> {
    /// No answer came, or none that could be read; the text says why.
    Failed(String),
    /// The answer had this status, which is no success.
    Status(String),
    /// The answer that was read.
    Body(T),
}

/// What is to be done to get a batch of blocks.
#[derive(Debug)]
pub enum BatchPlan {
    /// Nothing: these are the blocks.
    Done(HashMap<u64, BlockData>),
    /// Send these calls in one request.
    Post(Vec<RpcCall>),
}

/// A result with the texts of its error taken as character sequences.
pub open spec fn outcome<T>(res: Result<T, ExtractError>) -> Result<T, ExtractErrorView> {
    match res {
        Ok(value) => Ok(value),
        Err(e) => Err(e@),
    }
}

/// The call that asks for a block with its transactions.
pub open spec fn block_call_view(number: u64) -> RpcCallView {
    RpcCallView {
        jsonrpc: "2.0"@,
        method: "eth_getBlockByNumber"@,
        params: seq![ParamView::Text(quantity::block_tag_text(number)), ParamView::Flag(true)],
        id: number,
    }
}

/// The call that asks for the number of the latest block.
pub open spec fn height_call_view() -> RpcCallView {
    RpcCallView { jsonrpc: "2.0"@, method: "eth_blockNumber"@, params: seq![], id: 1 }
}

/// The call that asks for a block with its transactions.
pub fn block_call(number: u64) -> (res: RpcCall)
    ensures
        res@ == block_call_view(number),
        res.jsonrpc@ == "2.0"@,
        res.method@ == "eth_getBlockByNumber"@,
        res.params@.len() == 2,
        res.params@[0] matches Param::Text(tag) && quantity::quantity_outcome(tag@) == Ok::<
            u64,
            ExtractErrorView,
        >(number),
        res.params@[1] == Param::Flag(true),
        res.id == number,
{
    proof {
        quantity::law_tag_reads_back(number);
    }
    let call = RpcCall {
        jsonrpc: "2.0".to_owned(),
        method: "eth_getBlockByNumber".to_owned(),
        params: vec![Param::Text(block_tag(number)), Param::Flag(true)],
        id: number,
    };
    assert(call@.params =~= block_call_view(number).params);
    call
}

/// The call that asks for the number of the latest block.
pub fn height_call() -> (res: RpcCall)
    ensures
        res@ == height_call_view(),
        res.jsonrpc@ == "2.0"@,
        res.method@ == "eth_blockNumber"@,
        res.params@.len() == 0,
        res.id == 1,
{
    let call = RpcCall {
        jsonrpc: "2.0".to_owned(),
        method: "eth_blockNumber".to_owned(),
        params: Vec::new(),
        id: 1,
    };
    assert(call@.params =~= height_call_view().params);
    call
}

/// What is to be done to get these blocks: without any nothing, else one call for each.
pub fn plan_batch(blocks: &[u64]) -> (res: BatchPlan)
    ensures
        match res {
            BatchPlan::Done(map) => blocks@.len() == 0 && map@ == Map::<u64, BlockData>::empty(),
            BatchPlan::Post(calls) => blocks@.len() > 0 && calls@.len() == blocks@.len()
                && forall|i: int|
                0 <= i < calls@.len() ==> (#[trigger] calls@[i])@ == block_call_view(blocks@[i])
                    && calls@[i].id == blocks@[i],
        },
{
    if blocks.len() == 0 {
        return BatchPlan::Done(HashMap::new());
    }
    let mut calls: Vec<RpcCall> = Vec::new();
    let mut i: usize = 0;
    while i < blocks.len()
        invariant
            i <= blocks@.len(),
            calls@.len() == i,
            forall|j: int|
                0 <= j < calls@.len() ==> (#[trigger] calls@[j])@ == block_call_view(blocks@[j])
                    && calls@[j].id == blocks@[j],
        decreases blocks@.len() - i,
    {
        calls.push(block_call(blocks[i]));
        i = i + 1;
    }
    BatchPlan::Post(calls)
}

/// What a reply to the call for one block comes to.
pub open spec fn single_outcome(
    reply: HttpReply<RpcResponse<BlockData>>,
    block_number: u64,
) -> Result<BlockData, ExtractErrorView> {
    match reply {
        HttpReply::Failed(text) => Err(ExtractErrorView::Transport(text@)),
        HttpReply::Status(text) => Err(ExtractErrorView::HttpStatus(text@)),
        HttpReply::Body(parsed) => match (parsed.error, parsed.result) {
            (Some(err), _) => Err(ExtractErrorView::Rpc(err.message@)),
            (None, Some(block)) => Ok(block),
            (None, None) => Err(ExtractErrorView::NullResult { block: block_number }),
        },
    }
}

/// Takes the block out of the reply to the call for one block.
pub fn single_block_reply(
    reply: HttpReply<RpcResponse<BlockData>>,
    block_number: u64,
) -> (res: Result<BlockData, ExtractError>)
    ensures
        outcome(res) == single_outcome(reply, block_number),
        match res {
            Ok(block) => single_outcome(reply, block_number) == Ok::<BlockData, ExtractErrorView>(
                block,
            ),
            Err(e) => single_outcome(reply, block_number) == Err::<BlockData, ExtractErrorView>(e@),
        },
{
    match reply {
        HttpReply::Failed(text) => Err(ExtractError::Transport(text)),
        HttpReply::Status(text) => Err(ExtractError::HttpStatus(text)),
        HttpReply::Body(parsed) => {
            if let Some(err) = parsed.error {
                return Err(ExtractError::Rpc(err.message));
            }
            match parsed.result {
                Some(block) => Ok(block),
                None => Err(ExtractError::NullResult { block: block_number }),
            }
        },
    }
}

/// What is wrong with one item of a batch, if anything.
pub open spec fn item_fault(item: RpcResponse<BlockData>, blocks: Seq<u64>) -> Option<
    ExtractErrorView,
> {
    match (item.error, item.id) {
        (Some(err), _) => Some(ExtractErrorView::RpcItem(err.message@)),
        (None, None) => Some(ExtractErrorView::MissingId),
        (None, Some(id)) => if !blocks.contains(id) {
            Some(ExtractErrorView::UnexpectedId { id })
        } else if item.result is None {
            Some(ExtractErrorView::NullResult { block: id })
        } else {
            None
        },
    }
}

/// What is wrong with the first faulty item, if there is one.
pub open spec fn first_fault(items: Seq<RpcResponse<BlockData>>, blocks: Seq<u64>) -> Option<
    ExtractErrorView,
>
    decreases items.len(),
{
    if items.len() == 0 {
        None
    } else {
        match first_fault(items.drop_last(), blocks) {
            Some(e) => Some(e),
            None => item_fault(items.last(), blocks),
        }
    }
}

/// The blocks of items by their ids; of several with one id the last counts.
pub open spec fn blocks_by_id(items: Seq<RpcResponse<BlockData>>) -> Map<u64, BlockData>
    decreases items.len(),
{
    if items.len() == 0 {
        Map::empty()
    } else {
        blocks_by_id(items.drop_last()).insert(items.last().id->0, items.last().result->0)
    }
}

/// What the items of a batch come to.
pub open spec fn items_outcome(items: Seq<RpcResponse<BlockData>>, blocks: Seq<u64>) -> Result<
    Map<u64, BlockData>,
    ExtractErrorView,
> {
    match first_fault(items, blocks) {
        Some(e) => Err(e),
        None => if blocks_by_id(items).len() == blocks.len() {
            Ok(blocks_by_id(items))
        } else {
            Err(
                ExtractErrorView::IncompleteBatch {
                    got: blocks_by_id(items).len() as usize,
                    wanted: blocks.len() as usize,
                },
            )
        },
    }
}

/// What a reply to a batch of calls comes to.
pub open spec fn batch_outcome(reply: HttpReply<BatchPayload>, blocks: Seq<u64>) -> Result<
    Map<u64, BlockData>,
    ExtractErrorView,
> {
    match reply {
        HttpReply::Failed(text) => Err(ExtractErrorView::Transport(text@)),
        HttpReply::Status(text) => Err(ExtractErrorView::HttpStatus(text@)),
        HttpReply::Body(BatchPayload::SingleError(Some(err))) => Err(
            ExtractErrorView::RpcBatch(err.message@),
        ),
        HttpReply::Body(BatchPayload::SingleError(None)) => Err(
            ExtractErrorView::RpcBatch("Batch error"@),
        ),
        HttpReply::Body(BatchPayload::Batch(items)) => items_outcome(items@, blocks),
    }
}

/// Takes the blocks out of the items of a batch.
fn collect_items(items: Vec<RpcResponse<BlockData>>, blocks: &[u64]) -> (res: Result<
    HashMap<u64, BlockData>,
    ExtractError,
>)
    ensures
        match res {
            Ok(map) => items_outcome(items@, blocks@) == Ok::<
                Map<u64, BlockData>,
                ExtractErrorView,
            >(map@),
            Err(e) => items_outcome(items@, blocks@) == Err::<
                Map<u64, BlockData>,
                ExtractErrorView,
            >(e@),
        },
{
    let mut requested: HashSet<u64> = HashSet::new();
    let mut i: usize = 0;
    while i < blocks.len()
        invariant
            i <= blocks@.len(),
            forall|id: u64| #[trigger]
                requested@.contains(id) <==> blocks@.take(i as int).contains(id),
        decreases blocks@.len() - i,
    {
        let ghost seen = blocks@.take(i as int);
        let ghost more = blocks@.take(i + 1);
        assert(more =~= seen.push(blocks@[i as int]));
        let ghost before = requested@;
        requested.insert(blocks[i]);
        proof {
            assert forall|id: u64| #[trigger] requested@.contains(id) <==> more.contains(id) by {
                if before.contains(id) {
                    let k = choose|k: int| 0 <= k < seen.len() && seen[k] == id;
                    assert(more[k] == id);
                }
                if id == blocks@[i as int] {
                    assert(more[i as int] == id);
                }
                if more.contains(id) {
                    let k = choose|k: int| 0 <= k < more.len() && more[k] == id;
                    if k < i {
                        assert(seen[k] == id);
                    }
                }
            }
        }
        i = i + 1;
    }
    assert(blocks@.take(i as int) =~= blocks@);
    let mut results: HashMap<u64, BlockData> = HashMap::new();
    let ghost all = items@;
    assert(all.take(0) =~= Seq::empty());
    for item in it: items
        invariant
            it.seq() == all,
            forall|id: u64| #[trigger] requested@.contains(id) <==> blocks@.contains(id),
            first_fault(all.take(it.index()), blocks@) is None,
            results@ == blocks_by_id(all.take(it.index())),
    {
        let ghost seen = all.take(it.index());
        let ghost more = all.take(it.index() + 1);
        proof {
            assert(more.drop_last() =~= seen);
            assert(more.last() == item);
            lemma_first_fault_stays(all, it.index() + 1, blocks@);
        }
        if let Some(err) = item.error {
            return Err(ExtractError::RpcItem(err.message));
        }
        match item.id {
            None => {
                return Err(ExtractError::MissingId);
            },
            Some(id) => {
                if !requested.contains(&id) {
                    return Err(ExtractError::UnexpectedId { id });
                }
                match item.result {
                    None => {
                        return Err(ExtractError::NullResult { block: id });
                    },
                    Some(block) => {
                        results.insert(id, block);
                    },
                }
            },
        }
    }
    assert(all.take(all.len() as int) =~= all);
    if results.len() != blocks.len() {
        return Err(ExtractError::IncompleteBatch { got: results.len(), wanted: blocks.len() });
    }
    Ok(results)
}

/// The first fault of some leading items is the first fault of all.
proof fn lemma_first_fault_stays(items: Seq<RpcResponse<BlockData>>, k: int, blocks: Seq<u64>)
    requires
        0 <= k <= items.len(),
    ensures
        first_fault(items.take(k), blocks) is Some ==> first_fault(items, blocks) == first_fault(
            items.take(k),
            blocks,
        ),
    decreases items.len(),
{
    if k == items.len() {
        assert(items.take(k) =~= items);
    } else {
        lemma_first_fault_stays(items.drop_last(), k, blocks);
        assert(items.drop_last().take(k) =~= items.take(k));
    }
}

/// Takes the blocks out of the reply to a batch of calls: every block asked for, or a failure.
pub fn batch_reply(reply: HttpReply<BatchPayload>, blocks: &[u64]) -> (res: Result<
    HashMap<u64, BlockData>,
    ExtractError,
>)
    ensures
        match res {
            Ok(map) => batch_outcome(reply, blocks@) == Ok::<
                Map<u64, BlockData>,
                ExtractErrorView,
            >(map@),
            Err(e) => batch_outcome(reply, blocks@) == Err::<
                Map<u64, BlockData>,
                ExtractErrorView,
            >(e@),
        },
{
    match reply {
        HttpReply::Failed(text) => Err(ExtractError::Transport(text)),
        HttpReply::Status(text) => Err(ExtractError::HttpStatus(text)),
        HttpReply::Body(BatchPayload::SingleError(error)) => {
            let message = match error {
                Some(err) => err.message,
                None => "Batch error".to_owned(),
            };
            Err(ExtractError::RpcBatch(message))
        },
        HttpReply::Body(BatchPayload::Batch(items)) => collect_items(items, blocks),
    }
}

/// Items without a fault carry ids that were asked for.
proof fn lemma_ids_were_asked_for(items: Seq<RpcResponse<BlockData>>, blocks: Seq<u64>)
    requires
        first_fault(items, blocks) is None,
    ensures
        blocks_by_id(items).dom().finite(),
        blocks_by_id(items).dom().subset_of(blocks.to_set()),
    decreases items.len(),
{
    if items.len() > 0 {
        lemma_ids_were_asked_for(items.drop_last(), blocks);
    }
}

/// A batch succeeds only with exactly the blocks that were asked for, and only if none was
/// asked for twice.
pub proof fn law_batch_is_complete(reply: HttpReply<BatchPayload>, blocks: Seq<u64>)
    requires
        batch_outcome(reply, blocks) is Ok,
    ensures
        blocks.no_duplicates(),
        batch_outcome(reply, blocks)->Ok_0.dom() == blocks.to_set(),
{
    if let HttpReply::Body(BatchPayload::Batch(items)) = reply {
        let dom = blocks_by_id(items@).dom();
        lemma_ids_were_asked_for(items@, blocks);
        vstd::seq_lib::seq_to_set_is_finite(blocks);
        blocks.lemma_cardinality_of_set();
        vstd::set_lib::lemma_len_subset(dom, blocks.to_set());
        vstd::set_lib::lemma_subset_equality(dom, blocks.to_set());
        blocks.lemma_no_dup_set_cardinality();
    }
}

/// The call for a block asks for that block with its transactions: its first parameter is the
/// block's tag, which reads as the number, its second is true, and its id is the number.
pub proof fn law_call_asks_for_its_block(number: u64)
    ensures
        block_call_view(number).jsonrpc == "2.0"@,
        block_call_view(number).method == "eth_getBlockByNumber"@,
        block_call_view(number).params.len() == 2,
        block_call_view(number).params[0] matches ParamView::Text(tag) && tag
            == quantity::block_tag_text(number) && quantity::quantity_outcome(tag) == Ok::<
            u64,
            ExtractErrorView,
        >(number),
        block_call_view(number).params[1] == ParamView::Flag(true),
        block_call_view(number).id == number,
{
    quantity::law_tag_reads_back(number);
}

/// Calls for different blocks differ, in what they ask for and in their ids.
pub proof fn law_calls_differ(a: u64, b: u64)
    requires
        a != b,
    ensures
        block_call_view(a).params[0] != block_call_view(b).params[0],
        block_call_view(a).id != block_call_view(b).id,
{
    law_call_asks_for_its_block(a);
    law_call_asks_for_its_block(b);
}

/// The view of a call keeps its texts, its parameters in order, and its id.
pub proof fn law_call_is_kept(call: RpcCall)
    ensures
        call@.jsonrpc == call.jsonrpc@,
        call@.method == call.method@,
        call@.id == call.id,
        call@.params.len() == call.params@.len(),
        forall|i: int|
            0 <= i < call.params@.len() ==> match call.params@[i] {
                Param::Text(text) => #[trigger] call@.params[i] == ParamView::Text(text@),
                Param::Flag(flag) => call@.params[i] == ParamView::Flag(flag),
            },
{
}

/// A reply to the call for one block comes to a block if and only if it has a body that reports
/// no error and holds a block; it comes to that block.
pub proof fn law_single_reply_gives_its_block(
    reply: HttpReply<RpcResponse<BlockData>>,
    number: u64,
    block: BlockData,
)
    ensures
        single_outcome(reply, number) == Ok::<BlockData, ExtractErrorView>(block) <==> (
        reply matches HttpReply::Body(parsed) && parsed.error is None && parsed.result == Some(
            block,
        )),
{
}

/// A reply to the call for one block that holds none is refused with what the endpoint, or the
/// way to it, has told.
pub proof fn law_single_reply_tells_why(reply: HttpReply<RpcResponse<BlockData>>, number: u64)
    ensures
        single_outcome(reply, number) matches Err(e) ==> match reply {
            HttpReply::Failed(text) => e == ExtractErrorView::Transport(text@),
            HttpReply::Status(text) => e == ExtractErrorView::HttpStatus(text@),
            HttpReply::Body(parsed) => if parsed.error is Some {
                e == ExtractErrorView::Rpc(parsed.error->0.message@)
            } else {
                parsed.result is None && e == (ExtractErrorView::NullResult { block: number })
            },
        },
{
}

/// There is no fault if no item has one.
proof fn lemma_no_fault(items: Seq<RpcResponse<BlockData>>, blocks: Seq<u64>)
    ensures
        first_fault(items, blocks) is None <==> forall|i: int|
            0 <= i < items.len() ==> item_fault(#[trigger] items[i], blocks) is None,
    decreases items.len(),
{
    if items.len() > 0 {
        let shorter = items.drop_last();
        lemma_no_fault(shorter, blocks);
        if first_fault(items, blocks) is None {
            assert forall|i: int| 0 <= i < items.len() implies item_fault(
                #[trigger] items[i],
                blocks,
            ) is None by {
                if i < shorter.len() {
                    assert(items[i] == shorter[i]);
                }
            }
        }
        if forall|i: int|
            0 <= i < items.len() ==> item_fault(#[trigger] items[i], blocks) is None {
            assert forall|i: int| 0 <= i < shorter.len() implies item_fault(
                #[trigger] shorter[i],
                blocks,
            ) is None by {
                assert(items[i] == shorter[i]);
            }
            assert(item_fault(items[items.len() - 1], blocks) is None);
        }
    }
}

/// The blocks by id are those of the last items with their ids.
proof fn lemma_last_of_id(items: Seq<RpcResponse<BlockData>>, id: u64)
    requires
        forall|i: int| 0 <= i < items.len() ==> (#[trigger] items[i]).id is Some,
    ensures
        blocks_by_id(items).contains_key(id) <==> exists|i: int|
            0 <= i < items.len() && (#[trigger] items[i]).id == Some(id),
        blocks_by_id(items).contains_key(id) ==> exists|i: int|
            0 <= i < items.len() && (#[trigger] items[i]).id == Some(id) && items[i].result->0
                == blocks_by_id(items)[id] && forall|j: int|
                i < j < items.len() ==> (#[trigger] items[j]).id != Some(id),
    decreases items.len(),
{
    if items.len() > 0 {
        let shorter = items.drop_last();
        let n = items.len() - 1;
        assert forall|i: int| 0 <= i < shorter.len() implies (#[trigger] shorter[i]).id is Some by {
            assert(items[i] == shorter[i]);
        }
        lemma_last_of_id(shorter, id);
        assert(items[n].id is Some);
        if items[n].id != Some(id) {
            if blocks_by_id(items).contains_key(id) {
                let i = choose|i: int|
                    0 <= i < shorter.len() && (#[trigger] shorter[i]).id == Some(id)
                        && shorter[i].result->0 == blocks_by_id(shorter)[id] && forall|j: int|
                        i < j < shorter.len() ==> (#[trigger] shorter[j]).id != Some(id);
                assert(items[i] == shorter[i]);
                assert forall|j: int| i < j < items.len() implies (#[trigger] items[j]).id != Some(
                    id,
                ) by {
                    if j < n {
                        assert(items[j] == shorter[j]);
                    }
                }
            }
            if exists|i: int| 0 <= i < items.len() && (#[trigger] items[i]).id == Some(id) {
                let i = choose|i: int| 0 <= i < items.len() && (#[trigger] items[i]).id == Some(id);
                assert(items[i] == shorter[i]);
            }
        }
    }
}

/// A batch succeeds if and only if no item reports an error, every item carries an id that was
/// asked for and a block, every block asked for has its item, and none was asked for twice.
pub proof fn law_batch_succeeds(items: Vec<RpcResponse<BlockData>>, blocks: Seq<u64>)
    ensures
        batch_outcome(HttpReply::Body(BatchPayload::Batch(items)), blocks) is Ok
            <==> blocks.no_duplicates() && (forall|i: int|
            0 <= i < items@.len() ==> (#[trigger] items@[i]).error is None && items@[i].id is Some
                && blocks.contains(items@[i].id->0) && items@[i].result is Some) && (forall|id: u64|
            #[trigger] blocks.contains(id) ==> exists|i: int|
                0 <= i < items@.len() && (#[trigger] items@[i]).id == Some(id)),
{
    let all = items@;
    let reply = HttpReply::Body(BatchPayload::Batch(items));
    let map = blocks_by_id(all);
    lemma_no_fault(all, blocks);
    assert forall|i: int| 0 <= i < all.len() implies (item_fault(#[trigger] all[i], blocks) is None
        <==> all[i].error is None && all[i].id is Some && blocks.contains(all[i].id->0)
        && all[i].result is Some) by {}
    if batch_outcome(reply, blocks) is Ok {
        law_batch_is_complete(reply, blocks);
        assert forall|i: int| 0 <= i < all.len() implies (#[trigger] all[i]).id is Some by {
            assert(item_fault(all[i], blocks) is None);
        }
        assert forall|id: u64| #[trigger] blocks.contains(id) implies exists|i: int|
            0 <= i < all.len() && (#[trigger] all[i]).id == Some(id) by {
            lemma_last_of_id(all, id);
            assert(blocks.to_set().contains(id));
            assert(map.contains_key(id));
        }
    }
    if blocks.no_duplicates() && (forall|i: int|
        0 <= i < all.len() ==> (#[trigger] all[i]).error is None && all[i].id is Some
            && blocks.contains(all[i].id->0) && all[i].result is Some) && (forall|id: u64|
        #[trigger] blocks.contains(id) ==> exists|i: int|
            0 <= i < all.len() && (#[trigger] all[i]).id == Some(id)) {
        assert forall|i: int| 0 <= i < all.len() implies item_fault(
            #[trigger] all[i],
            blocks,
        ) is None by {
            assert(all[i].error is None);
        }
        assert forall|id: u64| map.dom().contains(id) <==> #[trigger] blocks.to_set().contains(
            id,
        ) by {
            lemma_last_of_id(all, id);
            lemma_ids_were_asked_for(all, blocks);
            if blocks.to_set().contains(id) {
                assert(blocks.contains(id));
            }
        }
        assert(map.dom() =~= blocks.to_set());
        blocks.unique_seq_to_set();
    }
}

/// A batch that succeeds holds, for every block asked for, what the last item with its id holds.
pub proof fn law_batch_holds_the_last_items(
    items: Vec<RpcResponse<BlockData>>,
    blocks: Seq<u64>,
    id: u64,
)
    requires
        blocks.contains(id),
    ensures
        batch_outcome(HttpReply::Body(BatchPayload::Batch(items)), blocks) matches Ok(map)
            ==> map.contains_key(id) && exists|i: int|
            0 <= i < items@.len() && (#[trigger] items@[i]).id == Some(id) && items@[i].result
                == Some(map[id]) && forall|j: int|
                i < j < items@.len() ==> (#[trigger] items@[j]).id != Some(id),
{
    let all = items@;
    let reply = HttpReply::Body(BatchPayload::Batch(items));
    if let Ok(map) = batch_outcome(reply, blocks) {
        law_batch_is_complete(reply, blocks);
        lemma_no_fault(all, blocks);
        assert forall|i: int| 0 <= i < all.len() implies (#[trigger] all[i]).id is Some
            && all[i].result is Some by {
            assert(item_fault(all[i], blocks) is None);
        }
        assert(blocks.to_set().contains(id));
        lemma_last_of_id(all, id);
        let i = choose|i: int|
            0 <= i < all.len() && (#[trigger] all[i]).id == Some(id) && all[i].result->0 == map[id]
                && forall|j: int| i < j < all.len() ==> (#[trigger] all[j]).id != Some(id);
        assert(all[i].result == Some(map[id]));
    }
}

/// A batch with a faulty item is refused with the fault of the first: that it reports an error,
/// carries no id, one that was not asked for, or no block.
pub proof fn law_first_faulty_item_counts(
    items: Vec<RpcResponse<BlockData>>,
    blocks: Seq<u64>,
    at: int,
)
    requires
        0 <= at < items@.len(),
        forall|i: int|
            0 <= i < at ==> (#[trigger] items@[i]).error is None && items@[i].id is Some
                && blocks.contains(items@[i].id->0) && items@[i].result is Some,
    ensures
        ({
            let outcome = batch_outcome(HttpReply::Body(BatchPayload::Batch(items)), blocks);
            let item = items@[at];
            if item.error is Some {
                outcome == Err::<Map<u64, BlockData>, ExtractErrorView>(
                    ExtractErrorView::RpcItem(item.error->0.message@),
                )
            } else if item.id is None {
                outcome == Err::<Map<u64, BlockData>, ExtractErrorView>(ExtractErrorView::MissingId)
            } else if !blocks.contains(item.id->0) {
                outcome == Err::<Map<u64, BlockData>, ExtractErrorView>(
                    ExtractErrorView::UnexpectedId { id: item.id->0 },
                )
            } else {
                item.result is None ==> outcome == Err::<Map<u64, BlockData>, ExtractErrorView>(
                    ExtractErrorView::NullResult { block: item.id->0 },
                )
            }
        }),
{
    let all = items@;
    let seen = all.take(at);
    let more = all.take(at + 1);
    assert(more.drop_last() =~= seen);
    assert(more.last() == all[at]);
    lemma_no_fault(seen, blocks);
    assert forall|i: int| 0 <= i < seen.len() implies item_fault(
        #[trigger] seen[i],
        blocks,
    ) is None by {
        assert(seen[i] == all[i]);
        assert(all[i].error is None);
    }
    lemma_first_fault_stays(all, at + 1, blocks);
}

/// A batch whose items are all in order, but that does not succeed, is refused with the number of
/// different ids in it and the number of blocks asked for.
pub proof fn law_incomplete_batch_tells_how_many(
    items: Vec<RpcResponse<BlockData>>,
    blocks: Seq<u64>,
)
    requires
        items@.len() <= usize::MAX,
        blocks.len() <= usize::MAX,
        forall|i: int|
            0 <= i < items@.len() ==> (#[trigger] items@[i]).error is None && items@[i].id is Some
                && blocks.contains(items@[i].id->0) && items@[i].result is Some,
    ensures
        batch_outcome(HttpReply::Body(BatchPayload::Batch(items)), blocks) matches Err(e) ==> (
        e matches ExtractErrorView::IncompleteBatch { got, wanted } && got == Seq::new(
            items@.len(),
            |i: int| items@[i].id->0,
        ).to_set().len() && wanted == blocks.len()),
{
    let all = items@;
    let ids = Seq::new(all.len(), |i: int| all[i].id->0);
    let map = blocks_by_id(all);
    lemma_no_fault(all, blocks);
    assert forall|i: int| 0 <= i < all.len() implies item_fault(#[trigger] all[i], blocks) is None by {
        assert(all[i].error is None);
    }
    assert forall|id: u64| map.dom().contains(id) <==> #[trigger] ids.to_set().contains(id) by {
        lemma_last_of_id(all, id);
        if map.contains_key(id) {
            let i = choose|i: int| 0 <= i < all.len() && (#[trigger] all[i]).id == Some(id);
            assert(ids[i] == id);
        }
        if ids.contains(id) {
            let i = choose|i: int| 0 <= i < ids.len() && ids[i] == id;
            assert(all[i].id == Some(id));
        }
    }
    assert(map.dom() =~= ids.to_set());
    ids.lemma_cardinality_of_set();
}

/// A reply that holds no items is refused with what the endpoint, or the way to it, has told.
pub proof fn law_refused_batch_tells_why(reply: HttpReply<BatchPayload>, blocks: Seq<u64>)
    ensures
        match reply {
            HttpReply::Failed(text) => batch_outcome(reply, blocks) == Err::<
                Map<u64, BlockData>,
                ExtractErrorView,
            >(ExtractErrorView::Transport(text@)),
            HttpReply::Status(text) => batch_outcome(reply, blocks) == Err::<
                Map<u64, BlockData>,
                ExtractErrorView,
            >(ExtractErrorView::HttpStatus(text@)),
            HttpReply::Body(BatchPayload::SingleError(error)) => batch_outcome(reply, blocks)
                == Err::<Map<u64, BlockData>, ExtractErrorView>(
                ExtractErrorView::RpcBatch(
                    if error is Some {
                        error->0.message@
                    } else {
                        "Batch error"@
                    },
                ),
            ),
            HttpReply::Body(BatchPayload::Batch(_)) => true,
        },
{
}

} // verus!
