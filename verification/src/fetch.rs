//! Fetching a batch of blocks: failover from endpoint to endpoint, retries with growing pauses,
//! and block by block in the end.
//!
//! [`BatchFetch`] says which request is to be sent next and takes its outcome; whoever drives
//! it sends the requests and keeps the pauses.

use std::collections::HashMap;

use vstd::arithmetic::power2::pow2;
use vstd::prelude::*;

use crate::address;
use crate::address::Address;
use crate::block;
use crate::block::{extract_block_addresses, BlockData};
use crate::error::{ExtractError, ExtractErrorView};
use crate::gather;
use crate::gather::{can_count, gather_blocks};

verus! {

/// How often all endpoints are asked in turn before a request is given up.
pub const MAX_RETRY_ROUNDS: usize = 12;

/// The pause after the first round, in seconds.
pub const INITIAL_RETRY_DELAY_SECS: u64 = 5;

/// The longest pause after a round, in seconds.
pub const MAX_RETRY_DELAY_SECS: u64 = 60;

/// The pause after a failed request, in milliseconds.
pub const RPC_DELAY_MS: u64 = 100;

/// The pause after a round, counted from one, in seconds: it doubles up to the fourth round.
pub open spec fn retry_delay(round: int) -> int {
    let doublings = if round - 1 < 3 {
        round - 1
    } else {
        3
    };
    let delay = INITIAL_RETRY_DELAY_SECS * pow2(doublings as nat);
    if delay < MAX_RETRY_DELAY_SECS {
        delay
    } else {
        MAX_RETRY_DELAY_SECS as int
    }
}

/// The pause after a round, counted from one, in seconds.
pub fn retry_delay_secs(round: usize) -> (res: u64)
    requires
        round >= 1,
    ensures
        res == retry_delay(round as int),
        INITIAL_RETRY_DELAY_SECS <= res <= MAX_RETRY_DELAY_SECS,
{
    proof {
        vstd::arithmetic::power2::lemma2_to64();
    }
    let multiplier: u64 = match round - 1 {
        0 => 1,
        1 => 2,
        2 => 4,
        _ => 8,
    };
    let delay: u64 = INITIAL_RETRY_DELAY_SECS * multiplier;
    if delay < MAX_RETRY_DELAY_SECS {
        delay
    } else {
        MAX_RETRY_DELAY_SECS
    }
}

/// Which request a fetch waits for. Rounds count from one, the endpoints of a round from zero.
#[derive(Debug)]
enum Stage {
    Batch { round: usize, offset: usize },
    Single { index: usize, round: usize, offset: usize },
}

/// A batch of blocks on its way.
#[derive(Debug)]
pub struct BatchFetch {
    blocks: Vec<u64>,
    rpcs: usize,
    preferred: usize,
    stage: Stage,
    addresses: Vec<Address>,
    transactions: usize,
}

/// A fetch, with the requests for the batch, and for each block alone, numbered from zero.
#[verifier::ext_equal]
pub struct FetchView {
    /// The blocks to fetch.
    pub blocks: Seq<u64>,
    /// The number of endpoints.
    pub rpcs: nat,
    /// The endpoint that is asked first.
    pub preferred: nat,
    /// The position of the block that is asked for alone; without one, all are asked for.
    pub single: Option<nat>,
    /// How many such requests have failed.
    pub attempt: nat,
    /// The addresses of the blocks that were fetched alone.
    pub addresses: Seq<Seq<u8>>,
    /// The number of their transactions.
    pub transactions: nat,
}

/// The request to send.
#[derive(Clone, Copy, Debug, PartialEq, Eq, Structural)]
pub enum Ask {
    /// All blocks of the batch, from the endpoint at that position.
    Batch { rpc: usize },
    /// One block, from the endpoint at that position.
    Single { rpc: usize, block: u64 },
}

/// What is next: another request, or the end.
#[derive(Debug)]
pub enum Step {
    Ask(BatchFetch),
    Done(Result<(Vec<Address>, usize), ExtractError>),
}

/// [`Step`] over the view of a fetch.
#[verifier::ext_equal]
pub enum StepView {
    Ask(FetchView),
    Done(Result<(Seq<Seq<u8>>, nat), ExtractErrorView>),
}

/// What came back for a request.
pub enum FetchReply {
    /// Nothing that could be used.
    Failed,
    /// The blocks of the batch by their numbers.
    Batch(Map<u64, BlockData>),
    /// One block.
    Single(BlockData),
}

/// The pauses to keep, in milliseconds and one after the other, and what is next then.
#[derive(Debug)]
pub struct Turn {
    pub pauses_ms: Vec<u64>,
    pub step: Step,
}

impl View for Step {
    type V = StepView;

    open spec fn view(&self) -> StepView {
        match *self {
            Step::Ask(fetch) => StepView::Ask(fetch@),
            Step::Done(res) => StepView::Done(block::yield_view(res)),
        }
    }
}

impl View for BatchFetch {
    type V = FetchView;

    closed spec fn view(&self) -> FetchView {
        FetchView {
            blocks: self.blocks@,
            rpcs: self.rpcs as nat,
            preferred: self.preferred as nat,
            single: match self.stage {
                Stage::Batch { .. } => None,
                Stage::Single { index, .. } => Some(index as nat),
            },
            attempt: attempt_number(self.stage, self.rpcs as nat),
            addresses: address::bytes_of(self.addresses@),
            transactions: self.transactions as nat,
        }
    }
}

/// How many requests came before in the stage.
spec fn attempt_number(stage: Stage, rpcs: nat) -> nat {
    match stage {
        Stage::Batch { round, offset } => ((round - 1) * rpcs + offset) as nat,
        Stage::Single { round, offset, .. } => ((round - 1) * rpcs + offset) as nat,
    }
}

impl FetchView {
    /// How many requests are sent for the batch, and for each block alone, before it is given up.
    pub open spec fn attempts(self) -> nat {
        (MAX_RETRY_ROUNDS * self.rpcs) as nat
    }

    /// There are endpoints, the preferred one is among them, and so is the block asked for
    /// among the blocks; nothing is gathered before blocks are asked for alone.
    pub open spec fn wf(self) -> bool {
        &&& self.preferred < self.rpcs
        &&& self.attempt < self.attempts()
        &&& match self.single {
            Some(index) => index < self.blocks.len(),
            None => self.addresses == Seq::<Seq<u8>>::empty() && self.transactions == 0,
        }
    }

    /// A fetch at its first request.
    pub open spec fn start(blocks: Seq<u64>, rpcs: nat, preferred: nat) -> FetchView {
        FetchView {
            blocks,
            rpcs,
            preferred,
            single: None,
            attempt: 0,
            addresses: Seq::empty(),
            transactions: 0,
        }
    }

    /// The position of the endpoint to ask: from the preferred one on, in turn.
    pub open spec fn endpoint(self) -> nat {
        (self.preferred + self.attempt) % self.rpcs
    }

    /// The pauses after a failure: one after every request, and a longer one after a round that
    /// is not the last.
    pub open spec fn pauses(self) -> Seq<u64> {
        let sent = self.attempt + 1;
        if sent % self.rpcs == 0 && sent < self.attempts() {
            seq![RPC_DELAY_MS, (1000 * retry_delay((sent / self.rpcs) as int)) as u64]
        } else {
            seq![RPC_DELAY_MS]
        }
    }

    /// What is next after a failure: the next endpoint; the blocks alone when the batch is given
    /// up; the end when a block is given up.
    pub open spec fn after_failure(self) -> StepView {
        if self.attempt + 1 < self.attempts() {
            StepView::Ask(FetchView { attempt: self.attempt + 1, ..self })
        } else {
            match self.single {
                None => if self.blocks.len() == 0 {
                    StepView::Done(Ok((self.addresses, self.transactions)))
                } else {
                    StepView::Ask(FetchView { single: Some(0), attempt: 0, ..self })
                },
                Some(index) => StepView::Done(
                    Err(ExtractErrorView::PermanentFailure { block: self.blocks[index as int] }),
                ),
            }
        }
    }

    /// What is next after a block fetched alone has yielded `more` addresses of `txs`
    /// transactions: the next block, or the end.
    pub open spec fn after_block(self, more: Seq<Seq<u8>>, txs: nat) -> StepView {
        let index = self.single->0;
        let addresses = self.addresses + more;
        let transactions = self.transactions + txs;
        if index + 1 < self.blocks.len() {
            StepView::Ask(
                FetchView {
                    single: Some(index + 1),
                    attempt: 0,
                    addresses,
                    transactions,
                    ..self
                },
            )
        } else {
            StepView::Done(Ok((addresses, transactions)))
        }
    }

    /// What is next after a reply: the blocks of a batch end the fetch, a block that is in order
    /// is added to the yield, and anything else that answers the request is a failure. A reply to
    /// another kind of request is none at all.
    pub open spec fn after_reply(self, reply: FetchReply) -> StepView {
        match (self.single, reply) {
            (None, FetchReply::Batch(map)) => StepView::Done(gather::gathered(self.blocks, map)),
            (Some(index), FetchReply::Single(block)) => match block::extraction(
                block,
                self.blocks[index as int],
            ) {
                Ok((more, txs)) => self.after_block(more, txs),
                Err(_) => self.after_failure(),
            },
            (_, FetchReply::Failed) => self.after_failure(),
            _ => StepView::Ask(self),
        }
    }
}

/// The outcome of a request for all blocks, as a reply.
pub open spec fn batch_reply_view(
    reply: Result<HashMap<u64, BlockData>, ExtractError>,
) -> FetchReply {
    match reply {
        Ok(map) => FetchReply::Batch(map@),
        Err(_) => FetchReply::Failed,
    }
}

/// The outcome of a request for one block, as a reply.
pub open spec fn single_reply_view(reply: Result<BlockData, ExtractError>) -> FetchReply {
    match reply {
        Ok(block) => FetchReply::Single(block),
        Err(_) => FetchReply::Failed,
    }
}

impl BatchFetch {
    /// The view is well-formed.
    #[verifier::type_invariant]
    spec fn inv(self) -> bool {
        &&& self.preferred < self.rpcs
        &&& match self.stage {
            Stage::Batch { round, offset } => 1 <= round <= MAX_RETRY_ROUNDS && offset < self.rpcs
                && self.addresses@.len() == 0 && self.transactions == 0,
            Stage::Single { index, round, offset } => 1 <= round <= MAX_RETRY_ROUNDS && offset
                < self.rpcs && index < self.blocks@.len(),
        }
    }

    /// Round, endpoint and number of a request agree.
    proof fn lemma_attempt(stage: Stage, rpcs: nat, round: int, offset: int)
        requires
            0 <= offset < rpcs,
            1 <= round <= MAX_RETRY_ROUNDS,
            stage matches Stage::Batch { round: r, offset: o } ==> r == round && o == offset,
            stage matches Stage::Single { index, round: r, offset: o } ==> r == round && o == offset,
        ensures
            attempt_number(stage, rpcs) == (round - 1) * rpcs + offset,
            attempt_number(stage, rpcs) < MAX_RETRY_ROUNDS * rpcs,
            attempt_number(stage, rpcs) + 1 < MAX_RETRY_ROUNDS * rpcs <==> !(round
                == MAX_RETRY_ROUNDS && offset == rpcs - 1),
            offset + 1 < rpcs ==> (attempt_number(stage, rpcs) + 1) % rpcs != 0,
            offset + 1 == rpcs ==> (attempt_number(stage, rpcs) + 1) % rpcs == 0 && (attempt_number(
                stage,
                rpcs,
            ) + 1) / rpcs == round && attempt_number(stage, rpcs) + 1 == round * rpcs,
    {
        let n = (round - 1) * rpcs + offset;
        assert(0 <= (round - 1) * rpcs) by (nonlinear_arith)
            requires
                1 <= round,
                0 <= rpcs,
        ;
        assert(n + 1 <= round * rpcs) by (nonlinear_arith)
            requires
                n == (round - 1) * rpcs + offset,
                offset < rpcs,
        ;
        assert(offset + 1 == rpcs ==> n + 1 == round * rpcs) by (nonlinear_arith)
            requires
                n == (round - 1) * rpcs + offset,
        ;
        assert(offset + 1 < rpcs ==> n + 1 < round * rpcs) by (nonlinear_arith)
            requires
                n == (round - 1) * rpcs + offset,
        ;
        assert(round * rpcs <= MAX_RETRY_ROUNDS * rpcs) by (nonlinear_arith)
            requires
                round <= MAX_RETRY_ROUNDS,
                0 <= rpcs,
        ;
        assert(round < MAX_RETRY_ROUNDS ==> round * rpcs < MAX_RETRY_ROUNDS * rpcs)
            by (nonlinear_arith)
            requires
                0 < rpcs,
        ;
        if offset + 1 < rpcs {
            vstd::arithmetic::div_mod::lemma_fundamental_div_mod_converse(
                n + 1,
                rpcs as int,
                round - 1,
                offset + 1,
            );
        } else {
            vstd::arithmetic::div_mod::lemma_fundamental_div_mod_converse(
                n + 1,
                rpcs as int,
                round,
                0,
            );
        }
    }

    /// What the invariant says of the view.
    proof fn lemma_view_wf(self)
        requires
            self.inv(),
        ensures
            self@.wf(),
    {
        match self.stage {
            Stage::Batch { round, offset } => {
                Self::lemma_attempt(self.stage, self.rpcs as nat, round as int, offset as int);
                assert(address::bytes_of(self.addresses@) =~= Seq::<Seq<u8>>::empty());
            },
            Stage::Single { index, round, offset } => {
                Self::lemma_attempt(self.stage, self.rpcs as nat, round as int, offset as int);
            },
        }
    }

    /// Starts to fetch `blocks` from `rpcs` endpoints, of which the preferred one, counted in
    /// turn, is asked first.
    pub fn start(rpcs: usize, blocks: Vec<u64>, preferred_rpc: usize) -> (res: Result<
        BatchFetch,
        ExtractError,
    >)
        ensures
            match res {
                Ok(fetch) => rpcs > 0 && fetch@ == FetchView::start(
                    blocks@,
                    rpcs as nat,
                    (preferred_rpc % rpcs) as nat,
                ) && fetch@.wf(),
                Err(e) => rpcs == 0 && e@ == ExtractErrorView::NoEndpoints,
            },
    {
        if rpcs == 0 {
            return Err(ExtractError::NoEndpoints);
        }
        let fetch = BatchFetch {
            blocks,
            rpcs,
            preferred: preferred_rpc % rpcs,
            stage: Stage::Batch { round: 1, offset: 0 },
            addresses: Vec::new(),
            transactions: 0,
        };
        proof {
            fetch.lemma_view_wf();
            assert(0 * rpcs == 0);
            assert(fetch@ =~= FetchView::start(
                blocks@,
                rpcs as nat,
                (preferred_rpc % rpcs) as nat,
            ));
        }
        Ok(fetch)
    }

    /// The endpoint that is `offset` positions behind the preferred one, in turn.
    fn endpoint_at(preferred: usize, offset: usize, rpcs: usize) -> (res: usize)
        requires
            preferred < rpcs,
            offset < rpcs,
        ensures
            res == (preferred + offset) % rpcs as int,
            res < rpcs,
    {
        if offset < rpcs - preferred {
            proof {
                vstd::arithmetic::div_mod::lemma_small_mod(
                    (preferred + offset) as nat,
                    rpcs as nat,
                );
            }
            preferred + offset
        } else {
            proof {
                vstd::arithmetic::div_mod::lemma_fundamental_div_mod_converse(
                    preferred + offset,
                    rpcs as int,
                    1,
                    preferred + offset - rpcs,
                );
            }
            offset - (rpcs - preferred)
        }
    }

    /// Whole rounds do not change which endpoint is asked.
    proof fn lemma_endpoint(preferred: int, round: int, offset: int, rpcs: int)
        requires
            rpcs > 0,
        ensures
            (preferred + ((round - 1) * rpcs + offset)) % rpcs == (preferred + offset) % rpcs,
    {
        assert(preferred + ((round - 1) * rpcs + offset) == rpcs * (round - 1) + (preferred
            + offset)) by (nonlinear_arith);
        vstd::arithmetic::div_mod::lemma_mod_multiples_vanish(
            round - 1,
            preferred + offset,
            rpcs,
        );
    }

    /// The request to send.
    pub fn ask(&self) -> (res: Ask)
        ensures
            self@.wf(),
            match res {
                Ask::Batch { rpc } => self@.single is None && rpc == self@.endpoint() && rpc
                    < self@.rpcs,
                Ask::Single { rpc, block } => self@.single is Some && rpc == self@.endpoint()
                    && rpc < self@.rpcs && block == self@.blocks[self@.single->0 as int],
            },
    {
        proof {
            use_type_invariant(self);
            self.lemma_view_wf();
        }
        match &self.stage {
            Stage::Batch { round, offset } => {
                proof {
                    Self::lemma_attempt(self.stage, self.rpcs as nat, *round as int, *offset as int);
                    Self::lemma_endpoint(
                        self.preferred as int,
                        *round as int,
                        *offset as int,
                        self.rpcs as int,
                    );
                }
                Ask::Batch { rpc: Self::endpoint_at(self.preferred, *offset, self.rpcs) }
            },
            Stage::Single { index, round, offset } => {
                proof {
                    Self::lemma_attempt(self.stage, self.rpcs as nat, *round as int, *offset as int);
                    Self::lemma_endpoint(
                        self.preferred as int,
                        *round as int,
                        *offset as int,
                        self.rpcs as int,
                    );
                }
                Ask::Single {
                    rpc: Self::endpoint_at(self.preferred, *offset, self.rpcs),
                    block: self.blocks[*index],
                }
            },
        }
    }

    /// The blocks to fetch.
    pub fn blocks(&self) -> (res: &Vec<u64>)
        ensures
            res@ == self@.blocks,
    {
        &self.blocks
    }

    /// Whether the transactions of these blocks can be counted.
    pub fn can_take_batch(&self, map: &HashMap<u64, BlockData>) -> (res: bool)
        ensures
            res == (gather::held_total(self@.blocks, map@) <= usize::MAX),
            res ==> gather::countable(self@.blocks, map@),
    {
        can_count(&self.blocks, map)
    }

    /// Whether the transactions of one more block can be counted.
    pub fn can_take_single(&self, block: &BlockData) -> (res: bool)
        ensures
            res == (self@.transactions + block.transactions@.len() <= usize::MAX),
    {
        block.transactions.len() <= usize::MAX - self.transactions
    }

    /// The pauses after a failed request.
    fn pauses_after(round: usize, offset: usize, rpcs: usize) -> (res: Vec<u64>)
        requires
            1 <= round <= MAX_RETRY_ROUNDS,
            offset < rpcs,
        ensures
            res@ == (if offset + 1 == rpcs && round < MAX_RETRY_ROUNDS {
                seq![RPC_DELAY_MS, (1000 * retry_delay(round as int)) as u64]
            } else {
                seq![RPC_DELAY_MS]
            }),
    {
        let mut pauses: Vec<u64> = Vec::new();
        pauses.push(RPC_DELAY_MS);
        if offset == rpcs - 1 && round < MAX_RETRY_ROUNDS {
            pauses.push(retry_delay_secs(round) * 1000);
        }
        pauses
    }

    /// The round and the endpoint that follow, if the request is not given up.
    fn place_after(round: usize, offset: usize, rpcs: usize) -> (res: Option<(usize, usize)>)
        requires
            1 <= round <= MAX_RETRY_ROUNDS,
            offset < rpcs,
        ensures
            match res {
                Some((r, o)) => 1 <= r <= MAX_RETRY_ROUNDS && o < rpcs && (r - 1) * rpcs + o == (
                round - 1) * rpcs + offset + 1,
                None => round == MAX_RETRY_ROUNDS && offset == rpcs - 1,
            },
    {
        if offset < rpcs - 1 {
            Some((round, offset + 1))
        } else if round < MAX_RETRY_ROUNDS {
            assert(round * rpcs == (round - 1) * rpcs + rpcs) by (nonlinear_arith);
            Some((round + 1, 0))
        } else {
            None
        }
    }

    /// Goes on after a failed request.
    fn fail(self) -> (res: Turn)
        ensures
            self@.wf(),
            res.pauses_ms@ == self@.pauses(),
            res.step@ == self@.after_failure(),
    {
        proof {
            use_type_invariant(&self);
            self.lemma_view_wf();
        }
        let ghost was = self@;
        let BatchFetch { blocks, rpcs, preferred, stage, addresses, transactions } = self;
        match stage {
            Stage::Batch { round, offset } => {
                proof {
                    Self::lemma_attempt(stage, rpcs as nat, round as int, offset as int);
                }
                let pauses_ms = Self::pauses_after(round, offset, rpcs);
                match Self::place_after(round, offset, rpcs) {
                    Some((r, o)) => {
                        let next = Stage::Batch { round: r, offset: o };
                        proof {
                            Self::lemma_attempt(next, rpcs as nat, r as int, o as int);
                        }
                        let fetch = BatchFetch {
                            blocks,
                            rpcs,
                            preferred,
                            stage: next,
                            addresses,
                            transactions,
                        };
                        assert(StepView::Ask(fetch@) =~= was.after_failure());
                        Turn { pauses_ms, step: Step::Ask(fetch) }
                    },
                    None => {
                        if blocks.len() == 0 {
                            return Turn {
                                pauses_ms,
                                step: Step::Done(Ok((addresses, transactions))),
                            };
                        }
                        let next = Stage::Single { index: 0, round: 1, offset: 0 };
                        proof {
                            Self::lemma_attempt(next, rpcs as nat, 1, 0);
                            assert(0 * rpcs == 0);
                        }
                        let fetch = BatchFetch {
                            blocks,
                            rpcs,
                            preferred,
                            stage: next,
                            addresses,
                            transactions,
                        };
                        assert(StepView::Ask(fetch@) =~= was.after_failure());
                        Turn { pauses_ms, step: Step::Ask(fetch) }
                    },
                }
            },
            Stage::Single { index, round, offset } => {
                proof {
                    Self::lemma_attempt(stage, rpcs as nat, round as int, offset as int);
                }
                let pauses_ms = Self::pauses_after(round, offset, rpcs);
                match Self::place_after(round, offset, rpcs) {
                    Some((r, o)) => {
                        let next = Stage::Single { index, round: r, offset: o };
                        proof {
                            Self::lemma_attempt(next, rpcs as nat, r as int, o as int);
                        }
                        let fetch = BatchFetch {
                            blocks,
                            rpcs,
                            preferred,
                            stage: next,
                            addresses,
                            transactions,
                        };
                        assert(StepView::Ask(fetch@) =~= was.after_failure());
                        Turn { pauses_ms, step: Step::Ask(fetch) }
                    },
                    None => Turn {
                        pauses_ms,
                        step: Step::Done(
                            Err(ExtractError::PermanentFailure { block: blocks[index] }),
                        ),
                    },
                }
            },
        }
    }

    /// Takes the outcome of a request for all blocks. The blocks of a successful one end the
    /// fetch, be it that one of them turns out to be faulty; after a failed one it goes on.
    pub fn on_batch(self, reply: Result<HashMap<u64, BlockData>, ExtractError>) -> (res: Turn)
        requires
            self@.single is None,
            reply matches Ok(map) ==> gather::countable(self@.blocks, map@),
        ensures
            match reply {
                Ok(map) => res.pauses_ms@ == Seq::<u64>::empty() && res.step@ == StepView::Done(
                    gather::gathered(self@.blocks, map@),
                ),
                Err(_) => res.pauses_ms@ == self@.pauses() && res.step@ == self@.after_failure(),
            },
            res.step@ == self@.after_reply(batch_reply_view(reply)),
    {
        match reply {
            Ok(map) => Turn {
                pauses_ms: Vec::new(),
                step: Step::Done(gather_blocks(&self.blocks, map)),
            },
            Err(_) => self.fail(),
        }
    }

    /// Takes the outcome of a request for one block. A block that is in order is added to the
    /// yield; after a faulty one, as after a failed request, the fetch goes on.
    pub fn on_single(self, reply: Result<BlockData, ExtractError>) -> (res: Turn)
        requires
            self@.single is Some,
            reply matches Ok(block) ==> (block::extraction(
                block,
                self@.blocks[self@.single->0 as int],
            ) matches Ok(sum) ==> self@.transactions + sum.1 <= usize::MAX),
        ensures
            match single_yield(self@, reply) {
                Some((more, txs)) => res.pauses_ms@ == Seq::<u64>::empty() && res.step@
                    == self@.after_block(more, txs),
                None => res.pauses_ms@ == self@.pauses() && res.step@ == self@.after_failure(),
            },
            res.step@ == self@.after_reply(single_reply_view(reply)),
    {
        proof {
            use_type_invariant(&self);
        }
        let number: u64 = match &self.stage {
            Stage::Single { index, .. } => self.blocks[*index],
            Stage::Batch { .. } => 0,
        };
        let block = match reply {
            Ok(block) => block,
            Err(_) => {
                return self.fail();
            },
        };
        match extract_block_addresses(block, number) {
            Ok((block_addresses, tx_count)) => self.accept(block_addresses, tx_count),
            Err(_) => self.fail(),
        }
    }

    /// Adds what a block yields, and goes on to the next.
    fn accept(self, more: Vec<Address>, txs: usize) -> (res: Turn)
        requires
            self@.single is Some,
            self@.transactions + txs <= usize::MAX,
        ensures
            res.pauses_ms@ == Seq::<u64>::empty(),
            res.step@ == self@.after_block(address::bytes_of(more@), txs as nat),
    {
        proof {
            use_type_invariant(&self);
        }
        let ghost was = self@;
        let BatchFetch { blocks, rpcs, preferred, stage, addresses, transactions } = self;
        let index: usize = match stage {
            Stage::Single { index, .. } => index,
            Stage::Batch { .. } => 0,
        };
        let ghost held = addresses@;
        let mut all = addresses;
        let mut tail = more;
        all.append(&mut tail);
        assert(address::bytes_of(all@) =~= address::bytes_of(held) + address::bytes_of(more@));
        let total: usize = transactions + txs;
        if index < blocks.len() - 1 {
            let next = Stage::Single { index: index + 1, round: 1, offset: 0 };
            proof {
                Self::lemma_attempt(next, rpcs as nat, 1, 0);
                assert(0 * rpcs == 0);
            }
            let fetch = BatchFetch {
                blocks,
                rpcs,
                preferred,
                stage: next,
                addresses: all,
                transactions: total,
            };
            assert(StepView::Ask(fetch@) =~= was.after_block(
                address::bytes_of(more@),
                txs as nat,
            ));
            Turn { pauses_ms: Vec::new(), step: Step::Ask(fetch) }
        } else {
            Turn { pauses_ms: Vec::new(), step: Step::Done(Ok((all, total))) }
        }
    }
}

/// What a reply to the request for one block yields, if it is accepted.
pub open spec fn single_yield(
    fetch: FetchView,
    reply: Result<BlockData, ExtractError>,
) -> Option<(Seq<Seq<u8>>, nat)> {
    match reply {
        Ok(block) => match block::extraction(block, fetch.blocks[fetch.single->0 as int]) {
            Ok(sum) => Some(sum),
            Err(_) => None,
        },
        Err(_) => None,
    }
}

/// The pause after a round never shrinks from one round to the next, and stays within its bounds.
pub proof fn law_delays_grow(round: int)
    requires
        round >= 1,
    ensures
        INITIAL_RETRY_DELAY_SECS <= retry_delay(round) <= retry_delay(round + 1)
            <= MAX_RETRY_DELAY_SECS,
{
    vstd::arithmetic::power2::lemma2_to64();
}

/// How many more requests a fetch can send, the current one among them.
pub open spec fn requests_left(fetch: FetchView) -> int {
    let blocks_left = match fetch.single {
        None => fetch.blocks.len() as int,
        Some(index) => fetch.blocks.len() - index - 1,
    };
    fetch.attempts() - fetch.attempt + fetch.attempts() * blocks_left
}

/// A fetch ends: whatever comes back, there are fewer requests left than before, and at the start
/// there are as many rounds for the batch and for each block alone.
pub proof fn law_fetch_ends(fetch: FetchView, more: Seq<Seq<u8>>, txs: nat)
    requires
        fetch.wf(),
    ensures
        requests_left(fetch) > 0,
        fetch.after_failure() matches StepView::Ask(next) ==> next.wf() && requests_left(next)
            < requests_left(fetch),
        fetch.single is Some ==> (fetch.after_block(more, txs) matches StepView::Ask(next)
            ==> next.wf() && requests_left(next) < requests_left(fetch)),
        requests_left(FetchView::start(fetch.blocks, fetch.rpcs, fetch.preferred))
            == MAX_RETRY_ROUNDS * fetch.rpcs * (1 + fetch.blocks.len()),
{
    let total = fetch.attempts() as int;
    let len = fetch.blocks.len() as int;
    assert(total * (1 + len) == total + total * len) by (nonlinear_arith);
    match fetch.single {
        None => {
            assert(0 <= total * len) by (nonlinear_arith)
                requires
                    0 <= total,
                    0 <= len,
            ;
            assert(total + total * (len - 1) == total * len) by (nonlinear_arith);
        },
        Some(index) => {
            let rest = len - index - 1;
            assert(0 <= total * rest) by (nonlinear_arith)
                requires
                    0 <= total,
                    0 <= rest,
            ;
            assert(total + total * (rest - 1) == total * rest) by (nonlinear_arith);
        },
    }
}

/// A failure loses nothing: what was fetched alone so far is kept, and so is what is to be
/// fetched and where.
pub proof fn law_failure_loses_nothing(fetch: FetchView)
    requires
        fetch.wf(),
    ensures
        fetch.after_failure() matches StepView::Ask(next) ==> next.addresses == fetch.addresses
            && next.transactions == fetch.transactions && next.blocks == fetch.blocks && next.rpcs
            == fetch.rpcs && next.preferred == fetch.preferred,
{
}

/// In every round each endpoint is asked, and none twice.
pub proof fn law_round_asks_every_endpoint(fetch: FetchView, round: nat, rpc: nat)
    requires
        fetch.wf(),
        rpc < fetch.rpcs,
    ensures
        exists|n: nat|
            #![trigger (FetchView { attempt: n, ..fetch }).endpoint()]
            round * fetch.rpcs <= n < (round + 1) * fetch.rpcs && (FetchView {
                attempt: n,
                ..fetch
            }).endpoint() == rpc,
        forall|n: nat, m: nat|
            #![trigger (FetchView { attempt: n, ..fetch }).endpoint(), (FetchView {
                attempt: m,
                ..fetch
            }).endpoint()]
            round * fetch.rpcs <= n < (round + 1) * fetch.rpcs && round * fetch.rpcs <= m < (round
                + 1) * fetch.rpcs && (FetchView { attempt: n, ..fetch }).endpoint() == (FetchView {
                attempt: m,
                ..fetch
            }).endpoint() ==> n == m,
{
    let rpcs = fetch.rpcs as int;
    let preferred = fetch.preferred as int;
    let first = round * rpcs;
    assert((round + 1) * rpcs == first + rpcs) by (nonlinear_arith)
        requires
            first == round * rpcs,
    ;
    assert(0 <= first) by (nonlinear_arith)
        requires
            first == round * rpcs,
            rpcs > 0,
    ;
    assert forall|offset: int| 0 <= offset < rpcs implies #[trigger] ((preferred + (first + offset))
        % rpcs) == (if preferred + offset < rpcs {
        preferred + offset
    } else {
        preferred + offset - rpcs
    }) by {
        BatchFetch::lemma_endpoint(preferred, (round + 1) as int, offset, rpcs);
        if preferred + offset < rpcs {
            vstd::arithmetic::div_mod::lemma_small_mod((preferred + offset) as nat, rpcs as nat);
        } else {
            vstd::arithmetic::div_mod::lemma_fundamental_div_mod_converse(
                preferred + offset,
                rpcs,
                1,
                preferred + offset - rpcs,
            );
        }
    }
    let offset = if rpc >= preferred {
        rpc - preferred
    } else {
        rpc - preferred + rpcs
    };
    let n = (first + offset) as nat;
    assert((preferred + (first + offset)) % rpcs == rpc);
    assert((FetchView { attempt: n, ..fetch }).endpoint() == rpc);
    assert forall|n: nat, m: nat|
        #![trigger (FetchView { attempt: n, ..fetch }).endpoint(), (FetchView {
            attempt: m,
            ..fetch
        }).endpoint()]
        round * fetch.rpcs <= n < (round + 1) * fetch.rpcs && round * fetch.rpcs <= m < (round + 1)
            * fetch.rpcs && (FetchView { attempt: n, ..fetch }).endpoint() == (FetchView {
            attempt: m,
            ..fetch
        }).endpoint() implies n == m by {
        let a = n - first;
        let b = m - first;
        assert((preferred + (first + a)) % rpcs == (FetchView { attempt: n, ..fetch }).endpoint());
        assert((preferred + (first + b)) % rpcs == (FetchView { attempt: m, ..fetch }).endpoint());
    }
}

/// Where a fetch stands after that many failures in a row.
pub open spec fn after_failures(fetch: FetchView, failures: nat) -> StepView
    decreases failures,
{
    if failures == 0 {
        StepView::Ask(fetch)
    } else {
        match after_failures(fetch, (failures - 1) as nat) {
            StepView::Ask(next) => next.after_failure(),
            StepView::Done(res) => StepView::Done(res),
        }
    }
}

/// While a stage has requests left, failures only count them.
proof fn lemma_failures_count(fetch: FetchView, failures: nat)
    requires
        fetch.wf(),
        fetch.attempt + failures < fetch.attempts(),
    ensures
        after_failures(fetch, failures) == StepView::Ask(
            FetchView { attempt: fetch.attempt + failures, ..fetch },
        ),
    decreases failures,
{
    if failures > 0 {
        lemma_failures_count(fetch, (failures - 1) as nat);
    }
}

/// Failures add up.
proof fn lemma_failures_add(fetch: FetchView, a: nat, b: nat, middle: FetchView)
    requires
        after_failures(fetch, a) == StepView::Ask(middle),
    ensures
        after_failures(fetch, a + b) == after_failures(middle, b),
    decreases b,
{
    if b > 0 {
        lemma_failures_add(fetch, a, (b - 1) as nat, middle);
    }
}

/// Endpoints that never answer: the batch is asked for in every round, then its first block
/// alone in as many rounds, and then the fetch fails with that block.
pub proof fn law_fetch_without_answers(
    blocks: Seq<u64>,
    rpcs: nat,
    preferred: nat,
    failures: nat,
)
    requires
        preferred < rpcs,
        blocks.len() > 0,
    ensures
        ({
            let fetch = FetchView::start(blocks, rpcs, preferred);
            let attempts = MAX_RETRY_ROUNDS * rpcs;
            if failures < attempts {
                after_failures(fetch, failures) == StepView::Ask(
                    FetchView { attempt: failures, ..fetch },
                )
            } else if failures < 2 * attempts {
                after_failures(fetch, failures) == StepView::Ask(
                    FetchView { single: Some(0), attempt: (failures - attempts) as nat, ..fetch },
                )
            } else {
                after_failures(fetch, failures) == StepView::Done(
                    Err(ExtractErrorView::PermanentFailure { block: blocks[0] }),
                )
            }
        }),
    decreases failures,
{
    let fetch = FetchView::start(blocks, rpcs, preferred);
    let attempts = (MAX_RETRY_ROUNDS * rpcs) as nat;
    let alone = FetchView { single: Some(0), attempt: 0, ..fetch };
    if failures < attempts {
        lemma_failures_count(fetch, failures);
    } else {
        lemma_failures_count(fetch, (attempts - 1) as nat);
        assert(after_failures(fetch, attempts) == StepView::Ask(alone));
        if failures < 2 * attempts {
            lemma_failures_add(fetch, attempts, (failures - attempts) as nat, alone);
            lemma_failures_count(alone, (failures - attempts) as nat);
        } else if failures == 2 * attempts {
            lemma_failures_add(fetch, attempts, (attempts - 1) as nat, alone);
            lemma_failures_count(alone, (attempts - 1) as nat);
        } else {
            law_fetch_without_answers(blocks, rpcs, preferred, (failures - 1) as nat);
        }
    }
}

/// Where a fetch that asks for blocks alone ends if every request is answered from `map`.
pub open spec fn answered_from(fetch: FetchView, map: Map<u64, BlockData>) -> StepView
    decreases fetch.blocks.len() - fetch.single->0,
    when fetch.single is Some && fetch.single->0 < fetch.blocks.len()
{
    let index = fetch.single->0;
    let number = fetch.blocks[index as int];
    match block::extraction(map[number], number) {
        Ok((more, txs)) => match fetch.after_block(more, txs) {
            StepView::Ask(next) => answered_from(next, map),
            StepView::Done(res) => StepView::Done(res),
        },
        Err(_) => fetch.after_failure(),
    }
}

/// Fetched alone, blocks that are in order yield what they would have yielded as a batch.
pub proof fn law_blocks_alone_yield_the_batch(
    fetch: FetchView,
    map: Map<u64, BlockData>,
)
    requires
        fetch.wf(),
        fetch.single is Some,
        gather::gathered(fetch.blocks, map) is Ok,
        gather::gathered(fetch.blocks.take(fetch.single->0 as int), map) == Ok::<
            (Seq<Seq<u8>>, nat),
            ExtractErrorView,
        >((fetch.addresses, fetch.transactions)),
    ensures
        answered_from(fetch, map) == StepView::Done(gather::gathered(fetch.blocks, map)),
    decreases fetch.blocks.len() - fetch.single->0,
{
    let index = fetch.single->0 as int;
    let blocks = fetch.blocks;
    let more = blocks.take(index + 1);
    assert(more.drop_last() =~= blocks.take(index));
    assert(more.last() == blocks[index]);
    gather::lemma_gathered_fault_stays(blocks, index + 1, map);
    if index + 1 == blocks.len() {
        assert(more =~= blocks);
    } else {
        let sum = block::extraction(map[blocks[index]], blocks[index])->Ok_0;
        if let StepView::Ask(next) = fetch.after_block(sum.0, sum.1) {
            law_fetch_ends(fetch, sum.0, sum.1);
            law_blocks_alone_yield_the_batch(next, map);
        }
    }
}

/// The first pause is five seconds; each of the next three is twice the one before it, and then
/// they stay the same.
pub proof fn law_delays_double(round: int)
    requires
        round >= 1,
    ensures
        retry_delay(1) == 5,
        round < 4 ==> retry_delay(round + 1) == 2 * retry_delay(round),
        round >= 4 ==> retry_delay(round + 1) == retry_delay(round),
{
    vstd::arithmetic::power2::lemma2_to64();
}

/// A fetch starts with a request for all its blocks, with nothing failed and nothing gathered.
pub proof fn law_fetch_starts_anew(blocks: Seq<u64>, rpcs: nat, preferred: nat)
    requires
        preferred < rpcs,
    ensures
        ({
            let fetch = FetchView::start(blocks, rpcs, preferred);
            &&& fetch.wf()
            &&& fetch.blocks == blocks
            &&& fetch.rpcs == rpcs
            &&& fetch.preferred == preferred
            &&& fetch.single is None
            &&& fetch.attempt == 0
            &&& fetch.addresses.len() == 0
            &&& fetch.transactions == 0
            &&& fetch.endpoint() == preferred
        }),
{
    vstd::arithmetic::div_mod::lemma_small_mod(preferred, rpcs);
}

/// The first request of a stage goes to the preferred endpoint, and every other to the endpoint
/// behind the one asked before, the first following the last.
pub proof fn law_endpoints_in_turn(fetch: FetchView)
    requires
        fetch.wf(),
    ensures
        fetch.attempt == 0 ==> fetch.endpoint() == fetch.preferred,
        fetch.endpoint() < fetch.rpcs,
        (FetchView { attempt: fetch.attempt + 1, ..fetch }).endpoint() == (if fetch.endpoint() + 1
            < fetch.rpcs {
            fetch.endpoint() + 1
        } else {
            0
        }),
{
    let rpcs = fetch.rpcs as int;
    let sum = (fetch.preferred + fetch.attempt) as int;
    vstd::arithmetic::div_mod::lemma_small_mod(fetch.preferred, fetch.rpcs);
    vstd::arithmetic::div_mod::lemma_fundamental_div_mod(sum, rpcs);
    vstd::arithmetic::div_mod::lemma_mod_bound(sum, rpcs);
    let q = sum / rpcs;
    let r = sum % rpcs;
    assert(rpcs * q == q * rpcs && (q + 1) * rpcs == q * rpcs + rpcs) by (nonlinear_arith);
    if r + 1 < rpcs {
        vstd::arithmetic::div_mod::lemma_fundamental_div_mod_converse(sum + 1, rpcs, q, r + 1);
    } else {
        vstd::arithmetic::div_mod::lemma_fundamental_div_mod_converse(sum + 1, rpcs, q + 1, 0);
    }
}

/// After a failure the endpoint behind the one that failed is asked for the same, the first
/// following the last; where something else is asked for, the preferred endpoint comes first.
pub proof fn law_failover(fetch: FetchView)
    requires
        fetch.wf(),
    ensures
        fetch.after_failure() matches StepView::Ask(next) ==> next.wf() && if next.single
            == fetch.single {
            next.endpoint() == (if fetch.endpoint() + 1 < fetch.rpcs {
                fetch.endpoint() + 1
            } else {
                0
            })
        } else {
            fetch.single is None && next.single == Some(0nat) && next.endpoint() == fetch.preferred
        },
{
    law_endpoints_in_turn(fetch);
    law_fetch_ends(fetch, Seq::empty(), 0);
    if let StepView::Ask(next) = fetch.after_failure() {
        law_endpoints_in_turn(next);
        law_failure_loses_nothing(fetch);
    }
}

/// A request is given up after it has failed twelve times on every endpoint, and not before: the
/// batch for its blocks alone, or for nothing if it has none; a block for good.
pub proof fn law_requests_are_given_up(fetch: FetchView)
    requires
        fetch.wf(),
    ensures
        fetch.attempt + 1 < 12 * fetch.rpcs ==> (fetch.after_failure() matches StepView::Ask(next)
            && next.single == fetch.single && next.attempt == fetch.attempt + 1),
        fetch.attempt + 1 >= 12 * fetch.rpcs ==> match fetch.single {
            Some(index) => fetch.after_failure() == StepView::Done(
                Err(ExtractErrorView::PermanentFailure { block: fetch.blocks[index as int] }),
            ),
            None => if fetch.blocks.len() > 0 {
                fetch.after_failure() matches StepView::Ask(next) && next.single == Some(0nat)
                    && next.attempt == 0
            } else {
                fetch.after_failure() matches StepView::Done(Ok(sum)) && sum.0.len() == 0 && sum.1
                    == 0
            },
        },
{
}

/// After every failure there is a pause of a tenth of a second; after the last endpoint of a
/// round, unless it is the twelfth, another follows that grows with the rounds.
pub proof fn law_pauses_by_round(fetch: FetchView, round: int, offset: int)
    requires
        fetch.wf(),
        1 <= round <= 12,
        0 <= offset < fetch.rpcs,
        fetch.attempt == (round - 1) * fetch.rpcs + offset,
    ensures
        fetch.pauses() == (if offset + 1 == fetch.rpcs && round < 12 {
            seq![
                100u64,
                if round == 1 {
                    5000u64
                } else if round == 2 {
                    10000u64
                } else if round == 3 {
                    20000u64
                } else {
                    40000u64
                },
            ]
        } else {
            seq![100u64]
        }),
{
    let rpcs = fetch.rpcs as int;
    let sent = fetch.attempt + 1;
    vstd::arithmetic::power2::lemma2_to64();
    if offset + 1 < rpcs {
        vstd::arithmetic::div_mod::lemma_fundamental_div_mod_converse(
            sent as int,
            rpcs,
            round - 1,
            offset + 1,
        );
    } else {
        assert((round - 1) * rpcs + rpcs == round * rpcs) by (nonlinear_arith);
        vstd::arithmetic::div_mod::lemma_fundamental_div_mod_converse(sent as int, rpcs, round, 0);
        assert(round < 12 ==> round * rpcs < 12 * rpcs) by (nonlinear_arith)
            requires
                rpcs > 0,
        ;
    }
}

/// A block fetched alone that carries its number is added to the yield: its addresses behind
/// those before, its transactions to the count. The next block is then asked for in the same way,
/// and behind the last the fetch ends well.
pub proof fn law_accepted_block_adds_its_yield(fetch: FetchView, block: BlockData)
    requires
        fetch.wf(),
        fetch.single is Some,
        block.number matches Some(s) && crate::quantity::quantity_outcome(s@) == Ok::<
            u64,
            ExtractErrorView,
        >(fetch.blocks[fetch.single->0 as int]),
    ensures
        single_yield(fetch, Ok(block)) == Some(
            (block::all_addresses(block.transactions@), block.transactions@.len()),
        ),
        match fetch.after_reply(FetchReply::Single(block)) {
            StepView::Ask(next) => {
                &&& fetch.single->0 + 1 < fetch.blocks.len()
                &&& next.single == Some(fetch.single->0 + 1)
                &&& next.attempt == 0
                &&& next.endpoint() == fetch.preferred
                &&& next.blocks == fetch.blocks
                &&& next.rpcs == fetch.rpcs
                &&& next.preferred == fetch.preferred
                &&& next.addresses == fetch.addresses + block::all_addresses(block.transactions@)
                &&& next.transactions == fetch.transactions + block.transactions@.len()
            },
            StepView::Done(Ok(sum)) => {
                &&& fetch.single->0 + 1 == fetch.blocks.len()
                &&& sum.0 == fetch.addresses + block::all_addresses(block.transactions@)
                &&& sum.1 == fetch.transactions + block.transactions@.len()
            },
            StepView::Done(Err(_)) => false,
        },
{
    vstd::arithmetic::div_mod::lemma_small_mod(fetch.preferred, fetch.rpcs);
}

/// A block fetched alone that does not carry its number is as good as none.
pub proof fn law_faulty_block_is_a_failure(fetch: FetchView, block: BlockData)
    requires
        fetch.wf(),
        fetch.single is Some,
        !(block.number matches Some(s) && crate::quantity::quantity_outcome(s@) == Ok::<
            u64,
            ExtractErrorView,
        >(fetch.blocks[fetch.single->0 as int])),
    ensures
        single_yield(fetch, Ok(block)) is None,
        fetch.after_reply(FetchReply::Single(block)) == fetch.after_reply(FetchReply::Failed),
        fetch.after_reply(FetchReply::Failed) == fetch.after_failure(),
{
}

/// The blocks of a batch end the fetch with what they yield together.
pub proof fn law_batch_ends_the_fetch(fetch: FetchView, map: Map<u64, BlockData>)
    requires
        fetch.wf(),
        fetch.single is None,
    ensures
        fetch.after_reply(FetchReply::Batch(map)) == StepView::Done(
            gather::gathered(fetch.blocks, map),
        ),
        fetch.after_reply(FetchReply::Failed) == fetch.after_failure(),
{
}

/// A reply is a failure if and only if the request failed, and else what was received.
pub proof fn law_replies_are_kept(
    batch: Result<HashMap<u64, BlockData>, ExtractError>,
    single: Result<BlockData, ExtractError>,
)
    ensures
        match batch {
            Ok(map) => batch_reply_view(batch) == FetchReply::Batch(map@),
            Err(_) => batch_reply_view(batch) == FetchReply::Failed,
        },
        match single {
            Ok(block) => single_reply_view(single) == FetchReply::Single(block),
            Err(_) => single_reply_view(single) == FetchReply::Failed,
        },
        single is Err ==> forall|fetch: FetchView| #[trigger] single_yield(fetch, single) is None,
{
}

} // verus!
