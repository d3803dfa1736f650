//! What a run is asked to do, and whether it can be done.

use vstd::prelude::*;

use crate::error::{ExtractError, ExtractErrorView};

verus! {

/// What a run is asked to do.
#[derive(Debug)]
pub struct Settings {
    /// The name of the chain.
    pub chain: String,
    /// The first block.
    pub start_block: u64,
    /// The last block.
    pub end_block: u64,
    /// The number of blocks of a request.
    pub batch_size: u64,
    /// The number of requests under way at a time.
    pub concurrency: usize,
    /// The release that the files are uploaded to, if any.
    pub release_tag: Option<String>,
}

/// What is wrong with the settings, if anything.
pub open spec fn settings_fault(settings: Settings) -> Option<ExtractErrorView> {
    if settings.start_block > settings.end_block {
        Some(ExtractErrorView::StartAfterEnd)
    } else if settings.batch_size == 0 || settings.concurrency == 0 {
        Some(ExtractErrorView::ZeroBatchOrConcurrency)
    } else {
        None
    }
}

/// Accepts settings whose blocks are in order and whose sizes are positive.
pub fn check_settings(settings: &Settings) -> (res: Result<(), ExtractError>)
    ensures
        match res {
            Ok(_) => settings_fault(*settings) is None,
            Err(e) => settings_fault(*settings) == Some(e@),
        },
{
    if settings.start_block > settings.end_block {
        return Err(ExtractError::StartAfterEnd);
    }
    if settings.batch_size == 0 || settings.concurrency == 0 {
        return Err(ExtractError::ZeroBatchOrConcurrency);
    }
    Ok(())
}

/// Accepts a last block that the chain has reached.
pub fn check_end_block(end_block: u64, latest_block: u64) -> (res: Result<(), ExtractError>)
    ensures
        match res {
            Ok(_) => end_block <= latest_block,
            Err(e) => end_block > latest_block && e@ == (ExtractErrorView::EndBeyondLatest {
                end: end_block,
                latest: latest_block,
            }),
        },
{
    if end_block > latest_block {
        return Err(ExtractError::EndBeyondLatest { end: end_block, latest: latest_block });
    }
    Ok(())
}

/// Settings are accepted if and only if the first block does not lie behind the last and both
/// sizes are positive; blocks in the wrong order are told first.
pub proof fn law_settings_are_in_order(settings: Settings)
    ensures
        settings_fault(settings) is None <==> settings.start_block <= settings.end_block
            && settings.batch_size > 0 && settings.concurrency > 0,
        settings_fault(settings) == Some(ExtractErrorView::StartAfterEnd) <==> settings.start_block
            > settings.end_block,
        settings_fault(settings) == Some(ExtractErrorView::ZeroBatchOrConcurrency)
            <==> settings.start_block <= settings.end_block && (settings.batch_size == 0
            || settings.concurrency == 0),
{
}

} // verus!
