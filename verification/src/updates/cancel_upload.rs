use vstd::prelude::*;

verus! {

/// Request to abandon an upload in progress, named by its path.
#[derive(Clone, Debug)]
pub struct Args {
    pub file_path: String,
}

#[derive(Clone, Debug, PartialEq)]
pub struct CancelUploadResp {}

pub type Response = Result<CancelUploadResp, CancelUploadError>;

#[derive(Clone, Copy, Debug, PartialEq, Eq, Structural)]
pub enum CancelUploadError {
    UploadNotInitialized,
}

} // verus!
