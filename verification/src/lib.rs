pub(crate) mod blob_store;
pub mod laws;
pub mod hashing;
pub mod model;
pub mod storage;
pub mod updates;

use vstd::prelude::*;

verus! {

/// The default and maximum size, in bytes, of one upload chunk (1 MiB).
pub const DEFAULT_CHUNK_SIZE: u64 = 1048576;

/// The cache ceiling, in bytes: the most the fast-serving layer may hold at
/// once (20 MiB).
pub const MAX_HEAP_SIZE: u64 = 20971520;

} // verus!
