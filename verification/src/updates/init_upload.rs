use vstd::prelude::*;

verus! {

/// Request to open a new upload: the target path, the hex-encoded SHA-256
/// digest the client claims for the final content, the total byte length,
/// and an optional chunk size.
#[derive(Clone, Debug)]
pub struct Args {
    pub file_path: String,
    pub file_hash: String,
    pub file_size: u64,
    pub chunk_size: Option<u64>,
}

#[derive(Clone, Debug, PartialEq)]
pub struct InitUploadResp {}

pub type Response = Result<InitUploadResp, InitUploadError>;

#[derive(Clone, Copy, Debug, PartialEq, Eq, Structural)]
pub enum InitUploadError {
    FileAlreadyExists,
    NotEnoughStorage,
    InvalidChunkSize,
}

} // verus!
