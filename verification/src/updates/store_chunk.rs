use vstd::prelude::*;

verus! {

/// One chunk of a file being uploaded: the target path, the position of the
/// chunk in the file, and its bytes.
#[derive(Clone, Debug)]
pub struct Args {
    pub file_path: String,
    pub chunk_id: u64,
    pub chunk_data: Vec<u8>,
}

#[derive(Clone, Debug, PartialEq)]
pub struct StoreChunkResp {}

pub type Response = Result<StoreChunkResp, StoreChunkError>;

#[derive(Clone, Copy, Debug, PartialEq, Eq, Structural)]
pub enum StoreChunkError {
    UploadNotInitialized,
    UploadAlreadyFinalized,
    InvalidChunkId,
    InvalidChunkData,
    InvalidFilePath,
    InvalidFileSize,
    InvalidFileHash,
    InvalidFileFormat,
}

} // verus!
