use vstd::prelude::*;

verus! {

use crate::DEFAULT_CHUNK_SIZE;
use crate::MAX_HEAP_SIZE;
use crate::hashing::content_hash_of;
use crate::storage::UploadState;
use crate::updates::cancel_upload::CancelUploadError;
use crate::updates::finalize_upload::FinalizeUploadError;
use crate::updates::init_upload::InitUploadError;
use crate::updates::store_chunk::StoreChunkError;

/// Mathematical shadow of one upload record.
#[verifier::ext_equal]
pub ghost struct MetadataView {
    pub file_path: Seq<char>,
    pub file_hash: Seq<char>,
    pub file_size: u64,
    pub received_size: u64,
    pub chunks_size: u64,
    pub chunks: Seq<Seq<u8>>,
    pub state: UploadState,
}

/// Mathematical shadow of the whole storage engine: the upload registry, the
/// committed blobs, the cache order (oldest first), and the storage ceiling.
#[verifier::ext_equal]
pub ghost struct StorageView {
    pub records: Map<Seq<char>, MetadataView>,
    pub blobs: Map<Seq<char>, Seq<u8>>,
    pub cached: Seq<Seq<char>>,
    pub max_storage: u128,
}

/// A path as the registry keys it: one leading separator, if present, is
/// stripped.
pub open spec fn norm_path(path: Seq<char>) -> Seq<char> {
    if path.len() > 0 && path[0] == '/' {
        path.skip(1)
    } else {
        path
    }
}

/// Storage budget still available under the ceiling, given the host-reported
/// current usage.
pub open spec fn spec_free_storage(max_storage: u128, current_usage: u128) -> u128 {
    if current_usage >= max_storage {
        0
    } else {
        (max_storage - current_usage) as u128
    }
}

/// Number of chunk slots for a file: its size divided by the chunk size,
/// rounded up.
pub open spec fn num_chunks_of(file_size: u64, chunks_size: u64) -> int {
    file_size as int / chunks_size as int + if file_size as int % chunks_size as int == 0 {
        0int
    } else {
        1int
    }
}

/// The record a successful init creates: all chunk slots empty, nothing
/// received yet.
pub open spec fn fresh_metadata(
    path: Seq<char>,
    hash: Seq<char>,
    file_size: u64,
    chunks_size: u64,
) -> MetadataView {
    MetadataView {
        file_path: path,
        file_hash: hash,
        file_size: file_size,
        received_size: 0,
        chunks_size: chunks_size,
        chunks: Seq::new(num_chunks_of(file_size, chunks_size) as nat, |i: int| Seq::<u8>::empty()),
        state: UploadState::Init,
    }
}

/// What init_upload does: reject an existing path, a file over the remaining
/// budget, or a bad chunk size; otherwise register a fresh record.
pub open spec fn spec_init_upload(
    v: StorageView,
    path: Seq<char>,
    hash: Seq<char>,
    file_size: u64,
    chunk_size: Option<u64>,
    current_usage: u128,
) -> (StorageView, Result<(), InitUploadError>) {
    let p = norm_path(path);
    if v.records.contains_key(p) {
        (v, Err(InitUploadError::FileAlreadyExists))
    } else if spec_free_storage(v.max_storage, current_usage) < file_size as u128 {
        (v, Err(InitUploadError::NotEnoughStorage))
    } else {
        let cs = match chunk_size {
            Some(c) => c,
            None => DEFAULT_CHUNK_SIZE,
        };
        if cs > DEFAULT_CHUNK_SIZE || cs < 1 {
            (v, Err(InitUploadError::InvalidChunkSize))
        } else {
            (
                StorageView { records: v.records.insert(p, fresh_metadata(p, hash, file_size, cs)), ..v },
                Ok(()),
            )
        }
    }
}

/// What store_chunk does. The first store on a record moves it to InProgress,
/// and that move sticks even when the same call later rejects the chunk.
pub open spec fn spec_store_chunk(
    v: StorageView,
    path: Seq<char>,
    chunk_id: u64,
    data: Seq<u8>,
) -> (StorageView, Result<(), StoreChunkError>) {
    let p = norm_path(path);
    if !v.records.contains_key(p) {
        (v, Err(StoreChunkError::UploadNotInitialized))
    } else {
        let m = v.records[p];
        if m.state is Finalized {
            (v, Err(StoreChunkError::UploadAlreadyFinalized))
        } else {
            let started = MetadataView { state: UploadState::InProgress, ..m };
            let vs = StorageView { records: v.records.insert(p, started), ..v };
            if m.received_size + data.len() > m.file_size {
                (vs, Err(StoreChunkError::InvalidChunkData))
            } else if chunk_id >= m.chunks.len() {
                (vs, Err(StoreChunkError::InvalidChunkId))
            } else if m.chunks[chunk_id as int].len() != 0 {
                (vs, Err(StoreChunkError::InvalidChunkData))
            } else {
                let stored = MetadataView {
                    state: UploadState::InProgress,
                    chunks: m.chunks.update(chunk_id as int, data),
                    received_size: (m.received_size + data.len()) as u64,
                    ..m
                };
                (StorageView { records: v.records.insert(p, stored), ..v }, Ok(()))
            }
        }
    }
}

/// Concatenation of the first `i` chunk slots, in index order.
pub open spec fn concat_chunks_prefix(chunks: Seq<Seq<u8>>, i: int) -> Seq<u8>
    decreases i,
{
    if i <= 0 {
        Seq::empty()
    } else {
        concat_chunks_prefix(chunks, i - 1) + chunks[i - 1]
    }
}

/// Concatenation of all chunk slots, in index order.
pub open spec fn concat_chunks(chunks: Seq<Seq<u8>>) -> Seq<u8> {
    concat_chunks_prefix(chunks, chunks.len() as int)
}

/// Filling one empty slot grows the concatenation of the first `j` slots by
/// the slot's bytes once the slot is covered.
pub proof fn lemma_concat_prefix_update_len(chunks: Seq<Seq<u8>>, i: int, data: Seq<u8>, j: int)
    requires
        0 <= i < chunks.len(),
        chunks[i].len() == 0,
        0 <= j <= chunks.len(),
    ensures
        concat_chunks_prefix(chunks.update(i, data), j).len() == concat_chunks_prefix(chunks, j).len()
            + if j > i {
            data.len() as int
        } else {
            0int
        },
    decreases j,
{
    if j > 0 {
        lemma_concat_prefix_update_len(chunks, i, data, j - 1);
    }
}

/// Filling one empty slot grows the concatenation of all slots by the
/// slot's bytes.
pub proof fn lemma_concat_update_len(chunks: Seq<Seq<u8>>, i: int, data: Seq<u8>)
    requires
        0 <= i < chunks.len(),
        chunks[i].len() == 0,
    ensures
        concat_chunks(chunks.update(i, data)).len() == concat_chunks(chunks).len() + data.len(),
{
    lemma_concat_prefix_update_len(chunks, i, data, chunks.len() as int);
}

/// Concatenating empty slots yields nothing.
pub proof fn lemma_concat_prefix_empty(chunks: Seq<Seq<u8>>, i: int)
    requires
        forall|j: int| 0 <= j < i ==> (#[trigger] chunks[j]).len() == 0,
    ensures
        concat_chunks_prefix(chunks, i).len() == 0,
    decreases i,
{
    if i > 0 {
        lemma_concat_prefix_empty(chunks, i - 1);
    }
}

/// The deterministic access URL of a committed file.
pub open spec fn url_of(canister_id: Seq<char>, path: Seq<char>) -> Seq<char> {
    "https://"@ + canister_id + ".raw.icp0.io/"@ + path
}

/// What finalize_upload does: verify completeness, length, and digest, then
/// commit the concatenated bytes, free the chunk slots, and answer the URL.
pub open spec fn spec_finalize_upload(
    v: StorageView,
    path: Seq<char>,
    canister_id: Seq<char>,
) -> (StorageView, Result<Seq<char>, FinalizeUploadError>) {
    let p = norm_path(path);
    if !v.records.contains_key(p) {
        (v, Err(FinalizeUploadError::UploadNotStarted))
    } else {
        let m = v.records[p];
        if m.state is Init {
            (v, Err(FinalizeUploadError::UploadNotStarted))
        } else if m.state is Finalized {
            (v, Err(FinalizeUploadError::UploadAlreadyFinalized))
        } else if m.received_size != m.file_size {
            (v, Err(FinalizeUploadError::IncompleteUpload))
        } else {
            let content = concat_chunks(m.chunks);
            if content.len() != m.file_size {
                (v, Err(FinalizeUploadError::FileSizeMismatch))
            } else if content_hash_of(content) != m.file_hash {
                (v, Err(FinalizeUploadError::FileHashMismatch))
            } else {
                let done = MetadataView {
                    chunks: Seq::empty(),
                    state: UploadState::Finalized,
                    ..m
                };
                (
                    StorageView {
                        records: v.records.insert(p, done),
                        blobs: v.blobs.insert(p, content),
                        ..v
                    },
                    Ok(url_of(canister_id, p)),
                )
            }
        }
    }
}

/// What cancel_upload does on its admissible inputs: drop the record.
/// Cancelling a finalized record is excluded by contract and traps.
pub open spec fn spec_cancel_upload(v: StorageView, path: Seq<char>) -> (StorageView, Result<
    (),
    CancelUploadError,
>) {
    let p = norm_path(path);
    if !v.records.contains_key(p) {
        (v, Err(CancelUploadError::UploadNotInitialized))
    } else {
        (StorageView { records: v.records.remove(p), ..v }, Ok(()))
    }
}

/// Bytes a cached path contributes to the cache budget: its declared size
/// when its record exists and is finalized, nothing otherwise.
pub open spec fn cached_size_of(records: Map<Seq<char>, MetadataView>, p: Seq<char>) -> int {
    if records.contains_key(p) && records[p].state is Finalized {
        records[p].file_size as int
    } else {
        0
    }
}

/// Total bytes held by the cache, summed over the cache order.
pub open spec fn cached_bytes(records: Map<Seq<char>, MetadataView>, cached: Seq<Seq<char>>) -> int
    decreases cached.len(),
{
    if cached.len() == 0 {
        0
    } else {
        cached_bytes(records, cached.drop_last()) + cached_size_of(records, cached.last())
    }
}

/// The cache never accounts a negative total, and no more than one maximal
/// file size per cached entry.
pub proof fn lemma_cached_bytes_bound(
    records: Map<Seq<char>, MetadataView>,
    cached: Seq<Seq<char>>,
)
    ensures
        0 <= cached_bytes(records, cached) <= cached.len() * (u64::MAX as int),
    decreases cached.len(),
{
    if cached.len() == 0 {
    } else {
        lemma_cached_bytes_bound(records, cached.drop_last());
        assert((cached.len() - 1) * (u64::MAX as int) + (u64::MAX as int) == cached.len() * (
        u64::MAX as int)) by (nonlinear_arith);
    }
}

/// Cache budget still available under the cache ceiling.
pub open spec fn spec_free_heap(v: StorageView) -> u64 {
    let used = cached_bytes(v.records, v.cached);
    if used >= MAX_HEAP_SIZE {
        0
    } else {
        (MAX_HEAP_SIZE - used) as u64
    }
}

/// How many entries an eviction pass removes from the front of the cache
/// order: oldest first, until the requested bytes are freed or the cache is
/// exhausted.
pub open spec fn evict_count(
    records: Map<Seq<char>, MetadataView>,
    cached: Seq<Seq<char>>,
    requested: int,
) -> int
    decreases cached.len(),
{
    if requested <= 0 || cached.len() == 0 {
        0
    } else {
        1 + evict_count(
            records,
            cached.drop_first(),
            requested - cached_size_of(records, cached.first()),
        )
    }
}

/// An eviction pass never removes more entries than the cache holds.
pub proof fn lemma_evict_count_bound(
    records: Map<Seq<char>, MetadataView>,
    cached: Seq<Seq<char>>,
    requested: int,
)
    ensures
        0 <= evict_count(records, cached, requested) <= cached.len(),
    decreases cached.len(),
{
    if requested <= 0 || cached.len() == 0 {
    } else {
        lemma_evict_count_bound(
            records,
            cached.drop_first(),
            requested - cached_size_of(records, cached.first()),
        );
    }
}

/// What cache_miss does: reject an unknown or uncommitted path; otherwise
/// evict oldest-first until the file fits, append the path to the cache
/// order, and answer the committed bytes together with the evicted paths.
pub open spec fn spec_cache_miss(v: StorageView, path: Seq<char>) -> (StorageView, Result<
    (Seq<u8>, Seq<Seq<char>>),
    Seq<char>,
>) {
    let p = norm_path(path);
    if !v.records.contains_key(p) {
        (v, Err("Upload not initialized"@))
    } else if !(v.records[p].state is Finalized) {
        (v, Err("Upload not finalized"@))
    } else {
        let file_size = v.records[p].file_size;
        let free_heap = spec_free_heap(v);
        let k = if free_heap < file_size {
            evict_count(v.records, v.cached, file_size - free_heap)
        } else {
            0
        };
        (
            StorageView { cached: v.cached.skip(k).push(p), ..v },
            Ok((v.blobs[p], v.cached.take(k))),
        )
    }
}

/// Registering or replacing a not-yet-finalized record keeps the engine
/// well-formed, provided the path did not hold a finalized record before.
pub proof fn lemma_wf_insert_active(v: StorageView, p: Seq<char>, m: MetadataView)
    requires
        wf(v),
        m.file_path == p,
        wf_metadata(m),
        !(m.state is Finalized),
        v.records.contains_key(p) ==> !(v.records[p].state is Finalized),
    ensures
        wf(StorageView { records: v.records.insert(p, m), ..v }),
{
    let v2 = StorageView { records: v.records.insert(p, m), ..v };
    assert forall|i: int| 0 <= i < v2.cached.len() implies v2.records.contains_key(
        #[trigger] v2.cached[i],
    ) && v2.records[v2.cached[i]].state is Finalized by {
        assert(v.records.contains_key(v.cached[i]));
        assert(v.cached[i] != p);
    }
}

/// Committing a complete, verified upload keeps the engine well-formed: the
/// record goes to Finalized with its slots released, and the blob store
/// gains the content under the record's path.
pub proof fn lemma_wf_finalize(v: StorageView, p: Seq<char>, content: Seq<u8>)
    requires
        wf(v),
        v.records.contains_key(p),
        v.records[p].state is InProgress,
        v.records[p].received_size == v.records[p].file_size,
        content.len() == v.records[p].file_size,
        content_hash_of(content) == v.records[p].file_hash,
    ensures
        wf(
            StorageView {
                records: v.records.insert(
                    p,
                    MetadataView {
                        chunks: Seq::empty(),
                        state: UploadState::Finalized,
                        ..v.records[p]
                    },
                ),
                blobs: v.blobs.insert(p, content),
                ..v
            },
        ),
{
    let done = MetadataView { chunks: Seq::empty(), state: UploadState::Finalized, ..v.records[p] };
    let v2 = StorageView {
        records: v.records.insert(p, done),
        blobs: v.blobs.insert(p, content),
        ..v
    };
    assert(wf_metadata(done));
    assert forall|i: int| 0 <= i < v2.cached.len() implies v2.records.contains_key(
        #[trigger] v2.cached[i],
    ) && v2.records[v2.cached[i]].state is Finalized by {
        assert(v.records.contains_key(v.cached[i]));
        assert(v.cached[i] != p);
    }
}

/// Well-formedness of one record: received bytes never exceed the declared
/// size, the chunk size is in range, an active record has the right number of
/// slots holding exactly the received bytes, and a finalized record has
/// released its slots after receiving everything.
pub open spec fn wf_metadata(m: MetadataView) -> bool {
    &&& m.received_size <= m.file_size
    &&& 1 <= m.chunks_size <= DEFAULT_CHUNK_SIZE
    &&& (m.state is Finalized ==> m.chunks.len() == 0 && m.received_size == m.file_size)
    &&& (!(m.state is Finalized) ==> m.chunks.len() == num_chunks_of(m.file_size, m.chunks_size)
        && concat_chunks(m.chunks).len() == m.received_size)
}

/// Well-formedness of the whole engine: every record is keyed by its own
/// path and well-formed; every finalized record has its blob committed, of
/// the declared size and digest; the cache order lists finalized paths, each
/// at most once.
pub open spec fn wf(v: StorageView) -> bool {
    &&& forall|p: Seq<char>| #[trigger]
        v.records.contains_key(p) ==> v.records[p].file_path == p && wf_metadata(v.records[p])
    &&& forall|p: Seq<char>| #[trigger]
        v.records.contains_key(p) && v.records[p].state is Finalized ==> v.blobs.contains_key(p)
            && v.blobs[p].len() == v.records[p].file_size && content_hash_of(v.blobs[p])
            == v.records[p].file_hash
    &&& forall|i: int| 0 <= i < v.cached.len() ==> v.records.contains_key(#[trigger] v.cached[i])
        && v.records[v.cached[i]].state is Finalized
    &&& forall|i: int, j: int| 0 <= i < j < v.cached.len() ==> #[trigger] v.cached[i]
        != #[trigger] v.cached[j]
}

} // verus!
