use vstd::prelude::*;

verus! {

/// Request to verify and commit a finished upload, named by its path.
#[derive(Clone, Debug)]
pub struct Args {
    pub file_path: String,
}

/// On success, the deterministic URL under which the committed file is served.
#[derive(Clone, Debug, PartialEq)]
pub struct FinalizeUploadResp {
    pub url: String,
}

pub type Response = Result<FinalizeUploadResp, FinalizeUploadError>;

#[derive(Clone, Copy, Debug, PartialEq, Eq, Structural)]
pub enum FinalizeUploadError {
    UploadNotStarted,
    UploadAlreadyFinalized,
    IncompleteUpload,
    FileSizeMismatch,
    FileHashMismatch,
}

} // verus!
