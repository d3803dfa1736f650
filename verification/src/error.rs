//! What can go wrong while extracting addresses, and how it is told.

use vstd::prelude::*;
use vstd::string::StringExecFns;

use crate::text;
use crate::text::decimal;

verus! {

/// Why a text is no unsigned 64-bit number in hexadecimal notation.
#[derive(Clone, Copy, Debug, PartialEq, Eq, Structural)]
pub enum HexFault {
    /// There is nothing to read.
    Empty,
    /// A character is no hexadecimal digit, or a sign stands alone.
    InvalidDigit,
    /// The number is too large.
    Overflow,
}

impl HexFault {
    /// The fault in words.
    pub open spec fn spec_text(self) -> Seq<char> {
        match self {
            HexFault::Empty => "cannot parse integer from empty string"@,
            HexFault::InvalidDigit => "invalid digit found in string"@,
            HexFault::Overflow => "number too large to fit in target type"@,
        }
    }

    /// The fault in words.
    pub fn text(&self) -> (res: &'static str)
        ensures
            res@ == self.spec_text(),
    {
        match self {
            HexFault::Empty => "cannot parse integer from empty string",
            HexFault::InvalidDigit => "invalid digit found in string",
            HexFault::Overflow => "number too large to fit in target type",
        }
    }
}

/// Every failure of an extraction.
#[derive(Debug)]
pub enum ExtractError {
    /// A quantity is not in hexadecimal notation.
    InvalidHex { value: String, fault: HexFault },
    /// A block came without its number.
    MissingNumber { expected: u64 },
    /// A block came under another number than the one asked for.
    BlockMismatch { requested: u64, received: u64 },
    /// The endpoint could not be reached, or its answer could not be read.
    Transport(String),
    /// The endpoint answered with an HTTP status that is no success.
    HttpStatus(String),
    /// The endpoint reported an error.
    Rpc(String),
    /// The endpoint has no such block.
    NullResult { block: u64 },
    /// The endpoint refused a batch as a whole.
    RpcBatch(String),
    /// The endpoint reported an error for one item of a batch.
    RpcItem(String),
    /// An item of a batch came without an id.
    MissingId,
    /// An item of a batch came under an id that was not asked for.
    UnexpectedId { id: u64 },
    /// A batch came back with another number of blocks than was asked for.
    IncompleteBatch { got: usize, wanted: usize },
    /// There is no endpoint to ask.
    NoEndpoints,
    /// A block of the batch is not among the blocks received.
    MissingBlock { block: u64 },
    /// No endpoint ever delivered the block.
    PermanentFailure { block: u64 },
    /// The first block lies behind the last.
    StartAfterEnd,
    /// The batch size or the concurrency is zero.
    ZeroBatchOrConcurrency,
    /// The last block lies behind the latest block of the chain.
    EndBeyondLatest { end: u64, latest: u64 },
    /// A file could not be uploaded.
    UploadFailed { file: String },
}

/// [`ExtractError`] with its texts taken as character sequences.
pub enum ExtractErrorView {
    InvalidHex { value: Seq<char>, fault: HexFault },
    MissingNumber { expected: u64 },
    BlockMismatch { requested: u64, received: u64 },
    Transport(Seq<char>),
    HttpStatus(Seq<char>),
    Rpc(Seq<char>),
    NullResult { block: u64 },
    RpcBatch(Seq<char>),
    RpcItem(Seq<char>),
    MissingId,
    UnexpectedId { id: u64 },
    IncompleteBatch { got: usize, wanted: usize },
    NoEndpoints,
    MissingBlock { block: u64 },
    PermanentFailure { block: u64 },
    StartAfterEnd,
    ZeroBatchOrConcurrency,
    EndBeyondLatest { end: u64, latest: u64 },
    UploadFailed { file: Seq<char> },
}

impl View for ExtractError {
    type V = ExtractErrorView;

    open spec fn view(&self) -> ExtractErrorView {
        match *self {
            ExtractError::InvalidHex { value, fault } => ExtractErrorView::InvalidHex {
                value: value@,
                fault,
            },
            ExtractError::MissingNumber { expected } => ExtractErrorView::MissingNumber {
                expected,
            },
            ExtractError::BlockMismatch { requested, received } => ExtractErrorView::BlockMismatch {
                requested,
                received,
            },
            ExtractError::Transport(text) => ExtractErrorView::Transport(text@),
            ExtractError::HttpStatus(text) => ExtractErrorView::HttpStatus(text@),
            ExtractError::Rpc(text) => ExtractErrorView::Rpc(text@),
            ExtractError::NullResult { block } => ExtractErrorView::NullResult { block },
            ExtractError::RpcBatch(text) => ExtractErrorView::RpcBatch(text@),
            ExtractError::RpcItem(text) => ExtractErrorView::RpcItem(text@),
            ExtractError::MissingId => ExtractErrorView::MissingId,
            ExtractError::UnexpectedId { id } => ExtractErrorView::UnexpectedId { id },
            ExtractError::IncompleteBatch { got, wanted } => ExtractErrorView::IncompleteBatch {
                got,
                wanted,
            },
            ExtractError::NoEndpoints => ExtractErrorView::NoEndpoints,
            ExtractError::MissingBlock { block } => ExtractErrorView::MissingBlock { block },
            ExtractError::PermanentFailure { block } => ExtractErrorView::PermanentFailure {
                block,
            },
            ExtractError::StartAfterEnd => ExtractErrorView::StartAfterEnd,
            ExtractError::ZeroBatchOrConcurrency => ExtractErrorView::ZeroBatchOrConcurrency,
            ExtractError::EndBeyondLatest { end, latest } => ExtractErrorView::EndBeyondLatest {
                end,
                latest,
            },
            ExtractError::UploadFailed { file } => ExtractErrorView::UploadFailed { file: file@ },
        }
    }
}

impl ExtractErrorView {
    /// The failure in words.
    pub open spec fn message(self) -> Seq<char> {
        match self {
            ExtractErrorView::InvalidHex { value, fault } => "Invalid hex '"@ + value + "': "@
                + fault.spec_text(),
            ExtractErrorView::MissingNumber { expected } => "Block "@ + text::decimal_text(
                expected as nat,
            ) + " missing number"@,
            ExtractErrorView::BlockMismatch { requested, received } =>
                "Block mismatch: requested "@ + text::decimal_text(requested as nat) + ", received "@
                    + text::decimal_text(received as nat),
            ExtractErrorView::Transport(text) => text,
            ExtractErrorView::HttpStatus(text) => "HTTP status "@ + text,
            ExtractErrorView::Rpc(text) => "RPC error: "@ + text,
            ExtractErrorView::NullResult { block } => "Block "@ + text::decimal_text(block as nat)
                + " returned null result"@,
            ExtractErrorView::RpcBatch(text) => "RPC batch error: "@ + text,
            ExtractErrorView::RpcItem(text) => "RPC item error: "@ + text,
            ExtractErrorView::MissingId => "Missing numeric id"@,
            ExtractErrorView::UnexpectedId { id } => "Unexpected block id "@ + text::decimal_text(
                id as nat,
            ),
            ExtractErrorView::IncompleteBatch { got, wanted } => "Incomplete batch: "@
                + text::decimal_text(got as nat) + " / "@ + text::decimal_text(wanted as nat),
            ExtractErrorView::NoEndpoints => "RPC list is empty"@,
            ExtractErrorView::MissingBlock { block } => "Missing block "@ + text::decimal_text(
                block as nat,
            ) + " in result map"@,
            ExtractErrorView::PermanentFailure { block } => "Block "@ + text::decimal_text(block as nat)
                + " permanently failed on all RPCs"@,
            ExtractErrorView::StartAfterEnd => "start-block cannot be greater than end-block"@,
            ExtractErrorView::ZeroBatchOrConcurrency =>
                "batch-size and concurrency must be > 0"@,
            ExtractErrorView::EndBeyondLatest { end, latest } => "Requested end block "@
                + text::decimal_text(end as nat) + " > chain latest block "@ + text::decimal_text(
                latest as nat,
            ),
            ExtractErrorView::UploadFailed { file } => "Failed uploading "@ + file
                + " to release"@,
        }
    }
}

/// `head` followed by `tail`.
fn glue(head: &str, tail: &str) -> (res: String)
    ensures
        res@ == head@ + tail@,
{
    let mut out = head.to_owned();
    out.append(tail);
    out
}

/// `head`, `middle` and `tail` in a row.
fn glue3(head: &str, middle: &str, tail: &str) -> (res: String)
    ensures
        res@ == head@ + middle@ + tail@,
{
    let mut out = glue(head, middle);
    out.append(tail);
    out
}

impl ExtractError {
    /// The failure in words.
    pub fn message(&self) -> (res: String)
        ensures
            res@ == self@.message(),
    {
        match self {
            ExtractError::InvalidHex { value, fault } => {
                let mut out = glue3("Invalid hex '", value.as_str(), "': ");
                out.append(fault.text());
                out
            },
            ExtractError::MissingNumber { expected } => {
                glue3("Block ", decimal(*expected).as_str(), " missing number")
            },
            ExtractError::BlockMismatch { requested, received } => {
                let mut out = glue3(
                    "Block mismatch: requested ",
                    decimal(*requested).as_str(),
                    ", received ",
                );
                out.append(decimal(*received).as_str());
                out
            },
            ExtractError::Transport(text) => text.clone(),
            ExtractError::HttpStatus(text) => glue("HTTP status ", text.as_str()),
            ExtractError::Rpc(text) => glue("RPC error: ", text.as_str()),
            ExtractError::NullResult { block } => {
                glue3("Block ", decimal(*block).as_str(), " returned null result")
            },
            ExtractError::RpcBatch(text) => glue("RPC batch error: ", text.as_str()),
            ExtractError::RpcItem(text) => glue("RPC item error: ", text.as_str()),
            ExtractError::MissingId => "Missing numeric id".to_owned(),
            ExtractError::UnexpectedId { id } => {
                glue("Unexpected block id ", decimal(*id).as_str())
            },
            ExtractError::IncompleteBatch { got, wanted } => {
                let mut out = glue3(
                    "Incomplete batch: ",
                    decimal(*got as u64).as_str(),
                    " / ",
                );
                out.append(decimal(*wanted as u64).as_str());
                out
            },
            ExtractError::NoEndpoints => "RPC list is empty".to_owned(),
            ExtractError::MissingBlock { block } => {
                glue3("Missing block ", decimal(*block).as_str(), " in result map")
            },
            ExtractError::PermanentFailure { block } => {
                glue3("Block ", decimal(*block).as_str(), " permanently failed on all RPCs")
            },
            ExtractError::StartAfterEnd => {
                "start-block cannot be greater than end-block".to_owned()
            },
            ExtractError::ZeroBatchOrConcurrency => {
                "batch-size and concurrency must be > 0".to_owned()
            },
            ExtractError::EndBeyondLatest { end, latest } => {
                let mut out = glue3(
                    "Requested end block ",
                    decimal(*end).as_str(),
                    " > chain latest block ",
                );
                out.append(decimal(*latest).as_str());
                out
            },
            ExtractError::UploadFailed { file } => {
                glue3("Failed uploading ", file.as_str(), " to release")
            },
        }
    }
}

/// In front of the failure of a batch: which blocks it was to fetch.
pub fn batch_context(first: u64, last: u64) -> (res: String)
    ensures
        res@ == "Permanent error on batch "@ + text::decimal_text(first as nat) + "-"@
            + text::decimal_text(last as nat),
{
    let mut out = glue3("Permanent error on batch ", decimal(first).as_str(), "-");
    out.append(decimal(last).as_str());
    out
}

/// What cannot be read is told with the reason.
pub proof fn law_message_of_unread_text(value: Seq<char>)
    ensures
        (ExtractErrorView::InvalidHex { value, fault: HexFault::Empty }).message() == "Invalid hex '"@
            + value + "': "@ + "cannot parse integer from empty string"@,
        (ExtractErrorView::InvalidHex { value, fault: HexFault::InvalidDigit }).message()
            == "Invalid hex '"@ + value + "': "@ + "invalid digit found in string"@,
        (ExtractErrorView::InvalidHex { value, fault: HexFault::Overflow }).message()
            == "Invalid hex '"@ + value + "': "@ + "number too large to fit in target type"@,
{
}

/// What an endpoint, or the way to it, has told is told on; a file is told by its name.
pub proof fn law_message_tells_on(told: Seq<char>)
    ensures
        ExtractErrorView::Transport(told).message() == told,
        ExtractErrorView::HttpStatus(told).message() == "HTTP status "@ + told,
        ExtractErrorView::Rpc(told).message() == "RPC error: "@ + told,
        ExtractErrorView::RpcBatch(told).message() == "RPC batch error: "@ + told,
        ExtractErrorView::RpcItem(told).message() == "RPC item error: "@ + told,
        (ExtractErrorView::UploadFailed { file: told }).message() == "Failed uploading "@ + told
            + " to release"@,
{
}

/// A block that something is wrong with is told by its number, in decimal notation.
pub proof fn law_message_tells_the_block(block: u64)
    ensures
        (ExtractErrorView::MissingNumber { expected: block }).message() == "Block "@
            + text::decimal_text(block as nat) + " missing number"@,
        (ExtractErrorView::NullResult { block }).message() == "Block "@ + text::decimal_text(
            block as nat,
        ) + " returned null result"@,
        (ExtractErrorView::UnexpectedId { id: block }).message() == "Unexpected block id "@
            + text::decimal_text(block as nat),
        (ExtractErrorView::MissingBlock { block }).message() == "Missing block "@
            + text::decimal_text(block as nat) + " in result map"@,
        (ExtractErrorView::PermanentFailure { block }).message() == "Block "@ + text::decimal_text(
            block as nat,
        ) + " permanently failed on all RPCs"@,
{
}

/// Of two numbers that do not go together, each is told in its place.
pub proof fn law_message_tells_both_numbers(a: u64, b: u64, got: usize, wanted: usize)
    ensures
        (ExtractErrorView::BlockMismatch { requested: a, received: b }).message()
            == "Block mismatch: requested "@ + text::decimal_text(a as nat) + ", received "@
            + text::decimal_text(b as nat),
        (ExtractErrorView::EndBeyondLatest { end: a, latest: b }).message()
            == "Requested end block "@ + text::decimal_text(a as nat) + " > chain latest block "@
            + text::decimal_text(b as nat),
        (ExtractErrorView::IncompleteBatch { got, wanted }).message() == "Incomplete batch: "@
            + text::decimal_text(got as nat) + " / "@ + text::decimal_text(wanted as nat),
{
}

/// The view of a failure keeps what it holds.
pub proof fn law_failure_is_kept(e: ExtractError)
    ensures
        match e {
            ExtractError::InvalidHex { value, fault } => e@ == (ExtractErrorView::InvalidHex {
                value: value@,
                fault,
            }),
            ExtractError::MissingNumber { expected } => e@ == (ExtractErrorView::MissingNumber {
                expected,
            }),
            ExtractError::BlockMismatch { requested, received } => e@ == (
            ExtractErrorView::BlockMismatch { requested, received }),
            ExtractError::Transport(told) => e@ == ExtractErrorView::Transport(told@),
            ExtractError::HttpStatus(told) => e@ == ExtractErrorView::HttpStatus(told@),
            ExtractError::Rpc(told) => e@ == ExtractErrorView::Rpc(told@),
            ExtractError::NullResult { block } => e@ == (ExtractErrorView::NullResult { block }),
            ExtractError::RpcBatch(told) => e@ == ExtractErrorView::RpcBatch(told@),
            ExtractError::RpcItem(told) => e@ == ExtractErrorView::RpcItem(told@),
            ExtractError::MissingId => e@ == ExtractErrorView::MissingId,
            ExtractError::UnexpectedId { id } => e@ == (ExtractErrorView::UnexpectedId { id }),
            ExtractError::IncompleteBatch { got, wanted } => e@ == (
            ExtractErrorView::IncompleteBatch { got, wanted }),
            ExtractError::NoEndpoints => e@ == ExtractErrorView::NoEndpoints,
            ExtractError::MissingBlock { block } => e@ == (ExtractErrorView::MissingBlock {
                block,
            }),
            ExtractError::PermanentFailure { block } => e@ == (ExtractErrorView::PermanentFailure {
                block,
            }),
            ExtractError::StartAfterEnd => e@ == ExtractErrorView::StartAfterEnd,
            ExtractError::ZeroBatchOrConcurrency => e@ == ExtractErrorView::ZeroBatchOrConcurrency,
            ExtractError::EndBeyondLatest { end, latest } => e@ == (
            ExtractErrorView::EndBeyondLatest { end, latest }),
            ExtractError::UploadFailed { file } => e@ == (ExtractErrorView::UploadFailed {
                file: file@,
            }),
        },
{
}

/// Failures that hold nothing are told in words of their own.
pub proof fn law_messages_of_plain_failures()
    ensures
        ExtractErrorView::MissingId.message() == "Missing numeric id"@,
        ExtractErrorView::NoEndpoints.message() == "RPC list is empty"@,
        ExtractErrorView::StartAfterEnd.message()
            == "start-block cannot be greater than end-block"@,
        ExtractErrorView::ZeroBatchOrConcurrency.message()
            == "batch-size and concurrency must be > 0"@,
{
}

} // verus!
