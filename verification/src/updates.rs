//! Request, response, and error types of the four upload operations.

pub mod cancel_upload;
pub mod finalize_upload;
pub mod init_upload;
pub mod store_chunk;
