//! Uploading a file: the command, and how often it is tried.

use vstd::prelude::*;

use crate::text;

verus! {

/// How often an upload is tried.
pub const UPLOAD_RETRIES: usize = 5;

/// The pause between two tries, in seconds.
pub const UPLOAD_WAIT_SECS: u64 = 5;

/// What follows a try. Tries count from one.
#[derive(Clone, Copy, Debug, PartialEq, Eq, Structural)]
pub enum UploadStep {
    /// The file is uploaded.
    Uploaded,
    /// It is tried again after a pause.
    Retry { attempt: usize, pause_secs: u64 },
    /// It is given up.
    GaveUp,
}

/// What follows a try.
pub open spec fn step_after(attempt: int, success: bool) -> UploadStep {
    if success {
        UploadStep::Uploaded
    } else if attempt < UPLOAD_RETRIES {
        UploadStep::Retry { attempt: (attempt + 1) as usize, pause_secs: UPLOAD_WAIT_SECS }
    } else {
        UploadStep::GaveUp
    }
}

/// What follows a try that was a success or not.
pub fn upload_step(attempt: usize, success: bool) -> (res: UploadStep)
    ensures
        res == step_after(attempt as int, success),
{
    if success {
        UploadStep::Uploaded
    } else if attempt < UPLOAD_RETRIES {
        UploadStep::Retry { attempt: attempt + 1, pause_secs: UPLOAD_WAIT_SECS }
    } else {
        UploadStep::GaveUp
    }
}

/// The arguments with which the release tool uploads a file, in place of one of that name.
pub fn upload_args(tag: &str, file_name: &str) -> (res: Vec<String>)
    ensures
        text::texts(res@) == seq!["release"@, "upload"@, tag@, file_name@, "--clobber"@],
        res@.len() == 5,
        res@[0]@ == "release"@,
        res@[1]@ == "upload"@,
        res@[2]@ == tag@,
        res@[3]@ == file_name@,
        res@[4]@ == "--clobber"@,
{
    let args: Vec<String> = vec![
        "release".to_owned(),
        "upload".to_owned(),
        tag.to_owned(),
        file_name.to_owned(),
        "--clobber".to_owned(),
    ];
    assert(text::texts(args@) =~= seq![
        "release"@,
        "upload"@,
        tag@,
        file_name@,
        "--clobber"@,
    ]);
    args
}

/// Whether the file is uploaded in the end, from that try on, if the tries end as `successes`
/// says.
pub open spec fn uploaded(attempt: int, successes: spec_fn(int) -> bool) -> bool
    decreases UPLOAD_RETRIES - attempt,
{
    match step_after(attempt, successes(attempt)) {
        UploadStep::Uploaded => true,
        UploadStep::Retry { .. } => uploaded(attempt + 1, successes),
        UploadStep::GaveUp => false,
    }
}

/// A file is uploaded if and only if one of the tries is a success.
pub proof fn law_upload_needs_one_success(attempt: int, successes: spec_fn(int) -> bool)
    requires
        1 <= attempt <= UPLOAD_RETRIES,
    ensures
        uploaded(attempt, successes) <==> exists|n: int|
            attempt <= n <= UPLOAD_RETRIES && #[trigger] successes(n),
    decreases UPLOAD_RETRIES - attempt,
{
    if !successes(attempt) && attempt < UPLOAD_RETRIES {
        law_upload_needs_one_success(attempt + 1, successes);
    }
}

/// A success ends the upload. A failed try is followed by the next one, up to the fifth, after a
/// pause of five seconds; after the fifth the upload is given up.
pub proof fn law_five_tries(attempt: int, success: bool)
    requires
        1 <= attempt <= 5,
    ensures
        match step_after(attempt, success) {
            UploadStep::Uploaded => success,
            UploadStep::Retry { attempt: next, pause_secs } => !success && attempt < 5 && next
                == attempt + 1 && pause_secs == 5,
            UploadStep::GaveUp => !success && attempt == 5,
        },
{
}

} // verus!
