use vstd::prelude::*;

verus! {

use crate::DEFAULT_CHUNK_SIZE;
use crate::blob_store::{BlobStore, blob_map};
use crate::hashing::{hex_encode, sha256};
use crate::MAX_HEAP_SIZE;
use crate::model::{
    MetadataView, StorageView, cached_bytes, concat_chunks, concat_chunks_prefix, evict_count,
    fresh_metadata, lemma_cached_bytes_bound, lemma_concat_prefix_empty,
    lemma_concat_update_len, lemma_evict_count_bound, lemma_wf_finalize,
    lemma_wf_insert_active, norm_path, num_chunks_of, spec_cache_miss, spec_cancel_upload,
    spec_finalize_upload, spec_free_heap, spec_free_storage, spec_init_upload,
    spec_store_chunk, url_of, wf, wf_metadata,
};
use crate::updates::cancel_upload;
use crate::updates::finalize_upload;
use crate::updates::init_upload;
use crate::updates::store_chunk;
use vstd::string::StringExecFns;

/// Lifecycle of one upload: created, receiving chunks, committed.
#[derive(Clone, Copy, Debug, PartialEq, Eq, Structural)]
pub enum UploadState {
    Init,
    InProgress,
    Finalized,
}

/// Book-keeping for one in-flight or committed upload: the normalized target
/// path, the digest and total size the client declared, how many bytes have
/// arrived, the chunk size, the chunk slots, and the lifecycle state.
#[derive(Clone, Debug)]
pub struct InternalRawStorageMetadata {
    pub file_path: String,
    pub file_hash: String,
    pub file_size: u64,
    pub received_size: u64,
    pub chunks_size: u64,
    pub chunks: Vec<Vec<u8>>,
    pub state: UploadState,
}

impl View for InternalRawStorageMetadata {
    type V = MetadataView;

    open spec fn view(&self) -> MetadataView {
        MetadataView {
            file_path: self.file_path@,
            file_hash: self.file_hash@,
            file_size: self.file_size,
            received_size: self.received_size,
            chunks_size: self.chunks_size,
            chunks: self.chunks.deep_view(),
            state: self.state,
        }
    }
}

impl DeepView for InternalRawStorageMetadata {
    type V = MetadataView;

    open spec fn deep_view(&self) -> MetadataView {
        self.view()
    }
}

/// No two records claim the same path.
pub open spec fn distinct_paths(rs: Seq<MetadataView>) -> bool {
    forall|i: int, j: int|
        0 <= i < j < rs.len() ==> (#[trigger] rs[i].file_path) != (#[trigger] rs[j].file_path)
}

/// The registry sequence read as a map from path to record.
pub open spec fn rec_map(rs: Seq<MetadataView>) -> Map<Seq<char>, MetadataView>
    decreases rs.len(),
{
    if rs.len() == 0 {
        Map::empty()
    } else {
        rec_map(rs.drop_last()).insert(rs.last().file_path, rs.last())
    }
}

/// Every registry entry is in the map under its own path.
pub proof fn lemma_rec_map_index(rs: Seq<MetadataView>, i: int)
    requires
        distinct_paths(rs),
        0 <= i < rs.len(),
    ensures
        rec_map(rs).contains_key(rs[i].file_path),
        rec_map(rs)[rs[i].file_path] == rs[i],
    decreases rs.len(),
{
    if i < rs.len() - 1 {
        assert(distinct_paths(rs.drop_last()));
        lemma_rec_map_index(rs.drop_last(), i);
        assert(rs.drop_last()[i] == rs[i]);
    }
}

/// A path no registry entry claims is not in the map.
pub proof fn lemma_rec_map_absent(rs: Seq<MetadataView>, p: Seq<char>)
    requires
        forall|i: int| 0 <= i < rs.len() ==> (#[trigger] rs[i].file_path) != p,
    ensures
        !rec_map(rs).contains_key(p),
    decreases rs.len(),
{
    if rs.len() > 0 {
        assert(forall|i: int|
            0 <= i < rs.drop_last().len() ==> (#[trigger] rs.drop_last()[i].file_path) != p);
        lemma_rec_map_absent(rs.drop_last(), p);
    }
}

/// Appending a record adds exactly its entry to the map.
pub proof fn lemma_rec_map_push(rs: Seq<MetadataView>, m: MetadataView)
    ensures
        rec_map(rs.push(m)) == rec_map(rs).insert(m.file_path, m),
{
    assert(rs.push(m).drop_last() =~= rs);
    assert(rs.push(m).last() == m);
}

/// Replacing the record at one index, keeping its path, updates exactly its
/// entry in the map.
pub proof fn lemma_rec_map_update(rs: Seq<MetadataView>, i: int, m: MetadataView)
    requires
        distinct_paths(rs),
        0 <= i < rs.len(),
        m.file_path == rs[i].file_path,
    ensures
        rec_map(rs.update(i, m)) == rec_map(rs).insert(m.file_path, m),
    decreases rs.len(),
{
    let upd = rs.update(i, m);
    if i == rs.len() - 1 {
        assert(upd.drop_last() =~= rs.drop_last());
        assert(upd.last() == m);
        assert(rec_map(rs.drop_last()).insert(rs.last().file_path, rs.last()).insert(
            m.file_path,
            m,
        ) =~= rec_map(rs.drop_last()).insert(m.file_path, m));
    } else {
        assert(distinct_paths(rs.drop_last()));
        lemma_rec_map_update(rs.drop_last(), i, m);
        assert(upd.drop_last() =~= rs.drop_last().update(i, m));
        assert(upd.last() == rs.last());
        assert(rs.drop_last()[i] == rs[i]);
        assert(m.file_path != rs.last().file_path);
        assert(rec_map(rs.drop_last()).insert(m.file_path, m).insert(
            rs.last().file_path,
            rs.last(),
        ) =~= rec_map(rs.drop_last()).insert(rs.last().file_path, rs.last()).insert(
            m.file_path,
            m,
        ));
    }
}

/// Every path in the map is claimed by some registry entry.
pub proof fn lemma_rec_map_surjective(rs: Seq<MetadataView>, p: Seq<char>)
    requires
        rec_map(rs).contains_key(p),
    ensures
        exists|i: int| 0 <= i < rs.len() && (#[trigger] rs[i]).file_path == p,
    decreases rs.len(),
{
    if rs.len() > 0 {
        if rs.last().file_path == p {
            assert(rs[rs.len() - 1].file_path == p);
        } else {
            lemma_rec_map_surjective(rs.drop_last(), p);
            let dl = rs.drop_last();
            let i = choose|i: int| 0 <= i < dl.len() && (#[trigger] dl[i]).file_path == p;
            assert(rs[i].file_path == p);
        }
    }
}

/// Removing the record at one index removes exactly its entry from the map.
pub proof fn lemma_rec_map_remove(rs: Seq<MetadataView>, i: int)
    requires
        distinct_paths(rs),
        0 <= i < rs.len(),
    ensures
        rec_map(rs.remove(i)) == rec_map(rs).remove(rs[i].file_path),
    decreases rs.len(),
{
    if i == rs.len() - 1 {
        assert(rs.remove(i) =~= rs.drop_last());
        assert(forall|j: int|
            0 <= j < rs.drop_last().len() ==> (#[trigger] rs.drop_last()[j].file_path)
                != rs[i].file_path);
        lemma_rec_map_absent(rs.drop_last(), rs[i].file_path);
        assert(rec_map(rs.drop_last()).insert(rs[i].file_path, rs[i]).remove(rs[i].file_path)
            =~= rec_map(rs.drop_last()));
    } else {
        assert(distinct_paths(rs.drop_last()));
        lemma_rec_map_remove(rs.drop_last(), i);
        assert(rs.remove(i).drop_last() =~= rs.drop_last().remove(i));
        assert(rs.remove(i).last() == rs.last());
        assert(rs.drop_last()[i] == rs[i]);
        assert(rs[i].file_path != rs.last().file_path);
        assert(rec_map(rs.drop_last()).remove(rs[i].file_path).insert(
            rs.last().file_path,
            rs.last(),
        ) =~= rec_map(rs.drop_last()).insert(rs.last().file_path, rs.last()).remove(
            rs[i].file_path,
        ));
    }
}

/// The storage engine: the upload registry, the durable blob store, the
/// cache order (oldest first), and the storage ceiling.
pub struct StorageData {
    storage_raw: BlobStore,
    storage_raw_internal_metadata: Vec<InternalRawStorageMetadata>,
    certified_assets: Vec<String>,
    max_storage_size_wasm32: u128,
}

impl View for StorageData {
    type V = StorageView;

    closed spec fn view(&self) -> StorageView {
        StorageView {
            records: rec_map(self.storage_raw_internal_metadata.deep_view()),
            blobs: blob_map(self.storage_raw),
            cached: self.certified_assets.deep_view(),
            max_storage: self.max_storage_size_wasm32,
        }
    }
}

impl StorageData {
    /// The engine's internal consistency: distinct registry paths, and a
    /// well-formed view.
    pub closed spec fn inv(&self) -> bool {
        &&& distinct_paths(self.storage_raw_internal_metadata.deep_view())
        &&& wf(self@)
    }

    /// A fresh engine under the given storage ceiling: no records, no blobs,
    /// nothing cached.
    pub fn new(max_storage_size_wasm32: u128) -> (r: StorageData)
        ensures
            r.inv(),
            r@.records == Map::<Seq<char>, MetadataView>::empty(),
            r@.blobs == Map::<Seq<char>, Seq<u8>>::empty(),
            r@.cached == Seq::<Seq<char>>::empty(),
            r@.max_storage == max_storage_size_wasm32,
    {
        let r = StorageData {
            storage_raw: BlobStore::new(),
            storage_raw_internal_metadata: Vec::new(),
            certified_assets: Vec::new(),
            max_storage_size_wasm32,
        };
        proof {
            assert(r.storage_raw_internal_metadata.deep_view() =~= Seq::<MetadataView>::empty());
            assert(r.certified_assets.deep_view() =~= Seq::<Seq<char>>::empty());
        }
        r
    }

    /// Storage budget still available under the ceiling, given the
    /// host-reported current usage.
    pub fn get_free_storage_size_bytes(&self, current_usage: u128) -> (r: u128)
        ensures
            r == spec_free_storage(self@.max_storage, current_usage),
    {
        if current_usage >= self.max_storage_size_wasm32 {
            0
        } else {
            self.max_storage_size_wasm32 - current_usage
        }
    }

    /// Index of the record registered under an already-normalized path.
    fn find_record(&self, path: &String) -> (r: Option<usize>)
        requires
            distinct_paths(self.storage_raw_internal_metadata.deep_view()),
        ensures
            match r {
                Some(i) => {
                    &&& i < self.storage_raw_internal_metadata@.len()
                    &&& self.storage_raw_internal_metadata.deep_view()[i as int].file_path
                        == path@
                    &&& self@.records.contains_key(path@)
                    &&& self@.records[path@]
                        == self.storage_raw_internal_metadata.deep_view()[i as int]
                },
                None => !self@.records.contains_key(path@),
            },
    {
        let ghost rs = self.storage_raw_internal_metadata.deep_view();
        let n = self.storage_raw_internal_metadata.len();
        let mut i: usize = 0;
        while i < n
            invariant
                distinct_paths(rs),
                n == self.storage_raw_internal_metadata@.len(),
                rs == self.storage_raw_internal_metadata.deep_view(),
                i <= n,
                forall|j: int| 0 <= j < i ==> (#[trigger] rs[j].file_path) != path@,
            decreases n - i,
        {
            if self.storage_raw_internal_metadata[i].file_path == *path {
                proof {
                    lemma_rec_map_index(rs, i as int);
                }
                return Some(i);
            }
            i += 1;
        }
        proof {
            lemma_rec_map_absent(rs, path@);
        }
        None
    }
}

impl StorageData {
    /// Open an upload: register a record for the path unless the path is
    /// taken, the declared size exceeds the remaining budget, or the chunk
    /// size is out of range.
    pub fn init_upload(&mut self, data: init_upload::Args, current_usage: u128) -> (result:
        Result<init_upload::InitUploadResp, init_upload::InitUploadError>)
        requires
            old(self).inv(),
        ensures
            final(self).inv(),
            ({
                let (v2, r) = spec_init_upload(
                    old(self)@,
                    data.file_path@,
                    data.file_hash@,
                    data.file_size,
                    data.chunk_size,
                    current_usage,
                );
                &&& final(self)@ == v2
                &&& (match result {
                    Ok(_) => r is Ok,
                    Err(e) => r == Err::<(), init_upload::InitUploadError>(e),
                })
            }),
    {
        let path = normalize_path(data.file_path);
        match self.find_record(&path) {
            Some(_) => {
                return Err(init_upload::InitUploadError::FileAlreadyExists);
            },
            None => {},
        }
        let free = self.get_free_storage_size_bytes(current_usage);
        if free < data.file_size as u128 {
            return Err(init_upload::InitUploadError::NotEnoughStorage);
        }
        let chunk_size = match data.chunk_size {
            Some(c) => c,
            None => DEFAULT_CHUNK_SIZE,
        };
        if chunk_size > DEFAULT_CHUNK_SIZE || chunk_size < 1 {
            return Err(init_upload::InitUploadError::InvalidChunkSize);
        }
        let q = data.file_size / chunk_size;
        let rem = data.file_size % chunk_size;
        let num_chunks: u64 = if rem == 0 {
            q
        } else {
            proof {
                let fs = data.file_size as int;
                let cs = chunk_size as int;
                if fs == 0 {
                    vstd::arithmetic::div_mod::lemma_small_mod(0nat, cs as nat);
                }
                vstd::arithmetic::div_mod::lemma_div_decreases(fs, cs);
            }
            q + 1
        };
        let mut chunks: Vec<Vec<u8>> = Vec::new();
        let mut i: u64 = 0;
        while i < num_chunks
            invariant
                i <= num_chunks,
                chunks@.len() == i,
                forall|j: int| 0 <= j < i ==> (#[trigger] chunks@[j])@.len() == 0,
            decreases num_chunks - i,
        {
            let slot: Vec<u8> = Vec::new();
            chunks.push(slot);
            i += 1;
        }
        let ghost old_rs = self.storage_raw_internal_metadata.deep_view();
        let ghost fresh = fresh_metadata(path@, data.file_hash@, data.file_size, chunk_size);
        let metadata = InternalRawStorageMetadata {
            file_path: path,
            file_hash: data.file_hash,
            file_size: data.file_size,
            received_size: 0,
            chunks_size: chunk_size,
            chunks,
            state: UploadState::Init,
        };
        proof {
            assert(num_chunks as int == num_chunks_of(data.file_size, chunk_size));
            assert forall|j: int| 0 <= j < metadata.chunks@.len() implies (
            #[trigger] metadata.chunks.deep_view()[j]) =~= fresh.chunks[j] by {
                assert(metadata.chunks@[j]@.len() == 0);
                assert(metadata.chunks.deep_view()[j] =~= metadata.chunks@[j]@);
            }
            assert(metadata@.chunks =~= fresh.chunks);
            assert(metadata@ =~= fresh);
        }
        self.storage_raw_internal_metadata.push(metadata);
        proof {
            let rs2 = self.storage_raw_internal_metadata.deep_view();
            assert(rs2 =~= old_rs.push(fresh));
            lemma_rec_map_push(old_rs, fresh);
            assert forall|j: int| 0 <= j < old_rs.len() implies (#[trigger] old_rs[j].file_path)
                != fresh.file_path by {
                if old_rs[j].file_path == fresh.file_path {
                    lemma_rec_map_index(old_rs, j);
                }
            }
            assert(distinct_paths(rs2));
            assert(self@ =~= (StorageView {
                records: rec_map(old_rs).insert(fresh.file_path, fresh),
                ..old(self)@
            }));
            lemma_concat_prefix_empty(fresh.chunks, fresh.chunks.len() as int);
            assert(wf_metadata(fresh));
            assert forall|q: Seq<char>| #[trigger] self@.records.contains_key(q)
                implies self@.records[q].file_path == q && wf_metadata(self@.records[q]) by {
                if q != fresh.file_path {
                    assert(old(self)@.records.contains_key(q));
                }
            }
            assert forall|k: int| 0 <= k < self@.cached.len() implies self@.records.contains_key(
                #[trigger] self@.cached[k],
            ) && self@.records[self@.cached[k]].state is Finalized by {
                assert(old(self)@.records.contains_key(old(self)@.cached[k]));
                assert(self@.cached[k] != fresh.file_path);
            }
            assert(wf(self@));
        }
        Ok(init_upload::InitUploadResp {})
    }

    /// Store one chunk: the record must exist and not be finalized, the
    /// chunk must keep the running total within the declared size, its index
    /// must be in range, and its slot must still be empty.
    pub fn store_chunk(&mut self, data: store_chunk::Args) -> (result: Result<
        store_chunk::StoreChunkResp,
        store_chunk::StoreChunkError,
    >)
        requires
            old(self).inv(),
        ensures
            final(self).inv(),
            ({
                let (v2, r) = spec_store_chunk(
                    old(self)@,
                    data.file_path@,
                    data.chunk_id,
                    data.chunk_data@,
                );
                &&& final(self)@ == v2
                &&& (match result {
                    Ok(_) => r is Ok,
                    Err(e) => r == Err::<(), store_chunk::StoreChunkError>(e),
                })
            }),
    {
        let ghost v0 = self@;
        let path = normalize_path(data.file_path);
        let idx = match self.find_record(&path) {
            None => {
                return Err(store_chunk::StoreChunkError::UploadNotInitialized);
            },
            Some(i) => i,
        };
        let ghost old_rs = self.storage_raw_internal_metadata.deep_view();
        let ghost m0 = old_rs[idx as int];
        let mut m = self.storage_raw_internal_metadata.remove(idx);
        proof {
            assert(m@ =~= m0);
        }
        match m.state {
            UploadState::Finalized => {
                self.storage_raw_internal_metadata.insert(idx, m);
                proof {
                    assert(self.storage_raw_internal_metadata.deep_view() =~= old_rs);
                    assert(self@ =~= v0);
                }
                return Err(store_chunk::StoreChunkError::UploadAlreadyFinalized);
            },
            _ => {},
        }
        m.state = UploadState::InProgress;
        let clen = data.chunk_data.len();
        let fits = (m.received_size as u128) + (clen as u128) <= (m.file_size as u128);
        let result: Result<store_chunk::StoreChunkResp, store_chunk::StoreChunkError>;
        if !fits {
            result = Err(store_chunk::StoreChunkError::InvalidChunkData);
        } else if data.chunk_id >= m.chunks.len() as u64 {
            result = Err(store_chunk::StoreChunkError::InvalidChunkId);
        } else {
            let ci = data.chunk_id as usize;
            if m.chunks[ci].len() > 0 {
                result = Err(store_chunk::StoreChunkError::InvalidChunkData);
            } else {
                proof {
                    assert(m0.chunks[ci as int] =~= m.chunks@[ci as int]@);
                    assert(m0.chunks[ci as int].len() == 0);
                }
                m.chunks[ci] = data.chunk_data;
                m.received_size = m.received_size + clen as u64;
                result = Ok(store_chunk::StoreChunkResp {});
            }
        }
        let ghost mv = m@;
        self.storage_raw_internal_metadata.insert(idx, m);
        proof {
            let p = path@;
            let started = MetadataView { state: UploadState::InProgress, ..m0 };
            assert(self.storage_raw_internal_metadata.deep_view() =~= old_rs.update(
                idx as int,
                mv,
            ));
            lemma_rec_map_update(old_rs, idx as int, mv);
            assert(distinct_paths(old_rs.update(idx as int, mv)));
            assert(self@ =~= (StorageView {
                records: rec_map(old_rs).insert(p, mv),
                ..v0
            }));
            if result is Ok {
                let ci = data.chunk_id as int;
                assert(mv.chunks =~~= m0.chunks.update(ci, data.chunk_data@));
                lemma_concat_update_len(m0.chunks, ci, data.chunk_data@);
                assert(mv =~= (MetadataView {
                    state: UploadState::InProgress,
                    chunks: m0.chunks.update(ci, data.chunk_data@),
                    received_size: (m0.received_size + data.chunk_data@.len()) as u64,
                    ..m0
                }));
            } else {
                assert(mv =~= started);
            }
            assert(wf_metadata(mv));
            lemma_wf_insert_active(v0, p, mv);
        }
        result
    }

    /// Commit a finished upload: every byte must have arrived and the
    /// concatenated content must match the declared size and digest. On
    /// success the chunk slots are released, the content is written to the
    /// blob store, and the deterministic access URL is returned.
    pub fn finalize_upload(&mut self, data: finalize_upload::Args, canister_id: &str) -> (result:
        Result<finalize_upload::FinalizeUploadResp, finalize_upload::FinalizeUploadError>)
        requires
            old(self).inv(),
        ensures
            final(self).inv(),
            ({
                let (v2, r) = spec_finalize_upload(old(self)@, data.file_path@, canister_id@);
                &&& final(self)@ == v2
                &&& (match result {
                    Ok(resp) => r == Ok::<Seq<char>, finalize_upload::FinalizeUploadError>(
                        resp.url@,
                    ),
                    Err(e) => r == Err::<Seq<char>, finalize_upload::FinalizeUploadError>(e),
                })
            }),
    {
        let ghost v0 = self@;
        let path = normalize_path(data.file_path);
        let idx = match self.find_record(&path) {
            None => {
                return Err(finalize_upload::FinalizeUploadError::UploadNotStarted);
            },
            Some(i) => i,
        };
        let ghost old_rs = self.storage_raw_internal_metadata.deep_view();
        let ghost m0 = old_rs[idx as int];
        match self.storage_raw_internal_metadata[idx].state {
            UploadState::Init => {
                return Err(finalize_upload::FinalizeUploadError::UploadNotStarted);
            },
            UploadState::Finalized => {
                return Err(finalize_upload::FinalizeUploadError::UploadAlreadyFinalized);
            },
            UploadState::InProgress => {},
        }
        if self.storage_raw_internal_metadata[idx].received_size
            != self.storage_raw_internal_metadata[idx].file_size {
            return Err(finalize_upload::FinalizeUploadError::IncompleteUpload);
        }
        let m = self.storage_raw_internal_metadata.remove(idx);
        proof {
            assert(m@ =~= m0);
        }
        let mut file_data: Vec<u8> = Vec::new();
        let n = m.chunks.len();
        let mut i: usize = 0;
        while i < n
            invariant
                n == m.chunks@.len(),
                i <= n,
                file_data@ =~= concat_chunks_prefix(m@.chunks, i as int),
            decreases n - i,
        {
            let chunk_len = m.chunks[i].len();
            let mut j: usize = 0;
            while j < chunk_len
                invariant
                    i < n,
                    n == m.chunks@.len(),
                    chunk_len == m.chunks@[i as int]@.len(),
                    j <= chunk_len,
                    file_data@ =~= concat_chunks_prefix(m@.chunks, i as int)
                        + m@.chunks[i as int].take(j as int),
                decreases chunk_len - j,
            {
                let b = m.chunks[i][j];
                file_data.push(b);
                proof {
                    assert(m@.chunks[i as int].take(j + 1int) =~= m@.chunks[i as int].take(
                        j as int,
                    ).push(m@.chunks[i as int][j as int]));
                }
                j += 1;
            }
            proof {
                assert(m@.chunks[i as int].take(chunk_len as int) =~= m@.chunks[i as int]);
            }
            i += 1;
        }
        proof {
            assert(file_data@ == concat_chunks(m0.chunks));
        }
        if file_data.len() as u64 != m.file_size {
            self.storage_raw_internal_metadata.insert(idx, m);
            proof {
                assert(self.storage_raw_internal_metadata.deep_view() =~= old_rs);
                assert(self@ =~= v0);
            }
            return Err(finalize_upload::FinalizeUploadError::FileSizeMismatch);
        }
        let digest = sha256(&file_data);
        let calculated_hash = hex_encode(&digest);
        if !(calculated_hash == m.file_hash) {
            self.storage_raw_internal_metadata.insert(idx, m);
            proof {
                assert(self.storage_raw_internal_metadata.deep_view() =~= old_rs);
                assert(self@ =~= v0);
            }
            return Err(finalize_upload::FinalizeUploadError::FileHashMismatch);
        }
        let mut m = m;
        m.chunks = Vec::new();
        m.state = UploadState::Finalized;
        let ghost mv = m@;
        self.storage_raw_internal_metadata.insert(idx, m);
        let url = String::from_str("https://").concat(canister_id).concat(".raw.icp0.io/")
            .concat(path.as_str());
        self.storage_raw.insert(path, file_data);
        proof {
            let p = m0.file_path;
            assert(mv.chunks =~= Seq::<Seq<u8>>::empty());
            assert(mv =~= (MetadataView {
                chunks: Seq::empty(),
                state: UploadState::Finalized,
                ..m0
            }));
            assert(self.storage_raw_internal_metadata.deep_view() =~= old_rs.update(
                idx as int,
                mv,
            ));
            lemma_rec_map_update(old_rs, idx as int, mv);
            assert(distinct_paths(old_rs.update(idx as int, mv)));
            lemma_wf_finalize(v0, p, concat_chunks(m0.chunks));
            assert(self@ =~= (StorageView {
                records: rec_map(old_rs).insert(p, mv),
                blobs: v0.blobs.insert(p, concat_chunks(m0.chunks)),
                ..v0
            }));
            assert(url@ =~= url_of(canister_id@, p));
        }
        Ok(finalize_upload::FinalizeUploadResp { url })
    }

    /// Abandon an upload in progress and free its path. Cancelling a
    /// committed upload is an invariant violation, excluded by contract: on
    /// such a call the process traps instead of returning.
    pub fn cancel_upload(&mut self, file_path: String) -> (result: Result<
        cancel_upload::CancelUploadResp,
        cancel_upload::CancelUploadError,
    >)
        requires
            old(self).inv(),
            old(self)@.records.contains_key(norm_path(file_path@)) ==> !(old(
                self,
            )@.records[norm_path(file_path@)].state is Finalized),
        ensures
            final(self).inv(),
            ({
                let (v2, r) = spec_cancel_upload(old(self)@, file_path@);
                &&& final(self)@ == v2
                &&& (match result {
                    Ok(_) => r is Ok,
                    Err(e) => r == Err::<(), cancel_upload::CancelUploadError>(e),
                })
            }),
    {
        let ghost v0 = self@;
        let path = normalize_path(file_path);
        let idx = match self.find_record(&path) {
            None => {
                return Err(cancel_upload::CancelUploadError::UploadNotInitialized);
            },
            Some(i) => i,
        };
        match self.storage_raw_internal_metadata[idx].state {
            UploadState::Finalized => {
                proof {
                    assert(false);
                }
                return vstd::pervasive::unreached();
            },
            _ => {},
        }
        let ghost old_rs = self.storage_raw_internal_metadata.deep_view();
        let ghost m0 = old_rs[idx as int];
        let m = self.storage_raw_internal_metadata.remove(idx);
        proof {
            let p = path@;
            assert(self.storage_raw_internal_metadata.deep_view() =~= old_rs.remove(idx as int));
            lemma_rec_map_remove(old_rs, idx as int);
            assert forall|a: int, b: int|
                0 <= a < b < old_rs.remove(idx as int).len() implies (#[trigger] old_rs.remove(
                idx as int,
            )[a].file_path) != (#[trigger] old_rs.remove(idx as int)[b].file_path) by {
                assert(old_rs.remove(idx as int)[a] == if a < idx as int {
                    old_rs[a]
                } else {
                    old_rs[a + 1]
                });
                assert(old_rs.remove(idx as int)[b] == if b < idx as int {
                    old_rs[b]
                } else {
                    old_rs[b + 1]
                });
            }
            assert(self@ =~= (StorageView { records: v0.records.remove(p), ..v0 }));
            let v2 = StorageView { records: v0.records.remove(p), ..v0 };
            assert forall|k: int| 0 <= k < v2.cached.len() implies v2.records.contains_key(
                #[trigger] v2.cached[k],
            ) && v2.records[v2.cached[k]].state is Finalized by {
                assert(v0.records.contains_key(v0.cached[k]));
                assert(v0.cached[k] != p);
            }
            assert(wf(self@));
        }
        Ok(cancel_upload::CancelUploadResp {})
    }

    /// Cache budget still available under the cache ceiling: the ceiling
    /// minus the declared sizes of everything currently cached.
    pub fn get_free_heap_size_bytes(&self) -> (r: u64)
        requires
            self.inv(),
        ensures
            r == spec_free_heap(self@),
    {
        let ghost cached0 = self.certified_assets.deep_view();
        let n = self.certified_assets.len();
        let mut used: u128 = 0;
        let mut i: usize = 0;
        while i < n
            invariant
                self.inv(),
                n == self.certified_assets@.len(),
                cached0 == self.certified_assets.deep_view(),
                i <= n,
                used == cached_bytes(self@.records, cached0.take(i as int)),
            decreases n - i,
        {
            proof {
                lemma_cached_bytes_bound(self@.records, cached0.take(i as int));
                vstd::arithmetic::mul::lemma_mul_inequality(
                    cached0.take(i as int).len() as int,
                    cached0.len() as int,
                    u64::MAX as int,
                );
            }
            let key = &self.certified_assets[i];
            match self.find_record(key) {
                Some(ridx) => {
                    let rec = &self.storage_raw_internal_metadata[ridx];
                    match rec.state {
                        UploadState::Finalized => {
                            used = used + rec.file_size as u128;
                        },
                        _ => {},
                    }
                },
                None => {},
            }
            proof {
                assert(cached0.take(i + 1int).drop_last() =~= cached0.take(i as int));
                assert(cached0.take(i + 1int).last() == cached0[i as int]);
                assert(key@ == cached0[i as int]);
            }
            i += 1;
        }
        proof {
            assert(cached0.take(n as int) =~= cached0);
        }
        if used >= MAX_HEAP_SIZE as u128 {
            0
        } else {
            (MAX_HEAP_SIZE as u128 - used) as u64
        }
    }

    /// Evict cached entries, oldest first, until the requested number of
    /// bytes has been freed or nothing is cached any more. Returns the
    /// evicted paths, in eviction order, so their certification can be
    /// withdrawn.
    fn free_http_cache(&mut self, requested_size: u64) -> (evicted: Vec<String>)
        requires
            old(self).inv(),
        ensures
            final(self).inv(),
            ({
                let k = evict_count(old(self)@.records, old(self)@.cached, requested_size as int);
                &&& final(self)@ == (StorageView { cached: old(self)@.cached.skip(k), ..old(
                    self,
                )@ })
                &&& evicted.deep_view() == old(self)@.cached.take(k)
            }),
    {
        let ghost v0 = self@;
        let ghost cached0 = self.certified_assets.deep_view();
        let mut evicted: Vec<String> = Vec::new();
        let mut freed: u128 = 0;
        proof {
            assert(cached0.skip(0) =~= cached0);
            assert(cached0.take(0) =~= Seq::<Seq<char>>::empty());
            assert(evicted.deep_view() =~= Seq::<Seq<char>>::empty());
        }
        while freed < requested_size as u128 && self.certified_assets.len() > 0
            invariant
                distinct_paths(self.storage_raw_internal_metadata.deep_view()),
                self@.records == v0.records,
                self@.blobs == v0.blobs,
                self@.max_storage == v0.max_storage,
                evicted@.len() <= cached0.len(),
                evicted.deep_view() == cached0.take(evicted@.len() as int),
                self.certified_assets.deep_view() == cached0.skip(evicted@.len() as int),
                freed == cached_bytes(v0.records, cached0.take(evicted@.len() as int)),
                evict_count(v0.records, cached0, requested_size as int) == evicted@.len() as int
                    + evict_count(
                    v0.records,
                    cached0.skip(evicted@.len() as int),
                    requested_size as int - freed as int,
                ),
            decreases cached0.len() - evicted@.len(),
        {
            let ghost t = evicted@.len() as int;
            proof {
                lemma_cached_bytes_bound(v0.records, cached0.take(t));
                vstd::arithmetic::mul::lemma_mul_inequality(
                    cached0.take(t).len() as int,
                    cached0.len() as int,
                    u64::MAX as int,
                );
            }
            let key = self.certified_assets.remove(0);
            let size: u64 = match self.find_record(&key) {
                Some(ridx) => {
                    let rec = &self.storage_raw_internal_metadata[ridx];
                    match rec.state {
                        UploadState::Finalized => rec.file_size,
                        _ => 0,
                    }
                },
                None => 0,
            };
            freed = freed + size as u128;
            evicted.push(key);
            proof {
                assert(cached0.skip(t)[0] == cached0[t]);
                assert(cached0.skip(t).drop_first() =~= cached0.skip(t + 1));
                assert(evicted.deep_view() =~= cached0.take(t + 1));
                assert(self.certified_assets.deep_view() =~= cached0.skip(t + 1));
                assert(cached0.take(t + 1).drop_last() =~= cached0.take(t));
                assert(cached0.take(t + 1).last() == cached0[t]);
            }
        }
        proof {
            let t = evicted@.len() as int;
            if freed >= requested_size as u128 {
                assert(evict_count(
                    v0.records,
                    cached0.skip(t),
                    requested_size as int - freed as int,
                ) == 0);
            } else {
                assert(cached0.skip(t).len() == 0);
            }
            assert(evict_count(v0.records, cached0, requested_size as int) == t);
            assert(self@ =~= (StorageView { cached: cached0.skip(t), ..v0 }));
            assert forall|a: int| 0 <= a < self@.cached.len() implies self@.records.contains_key(
                #[trigger] self@.cached[a],
            ) && self@.records[self@.cached[a]].state is Finalized by {
                assert(self@.cached[a] == v0.cached[t + a]);
            }
            assert forall|a: int, b: int| 0 <= a < b < self@.cached.len() implies (
            #[trigger] self@.cached[a]) != (#[trigger] self@.cached[b]) by {
                assert(self@.cached[a] == v0.cached[t + a]);
                assert(self@.cached[b] == v0.cached[t + b]);
            }
            assert(wf(self@));
        }
        evicted
    }
}

/// What one cache fill reports back: the bytes to serve and certify, and the
/// paths whose certification must be withdrawn because they were evicted.
#[derive(Debug)]
pub struct CacheMissResp {
    pub file_data: Vec<u8>,
    pub evicted_assets: Vec<String>,
}

impl StorageData {
    /// Fill the cache for a path that is not yet cached: the path must name
    /// a committed upload. Evicts oldest entries first until the file fits
    /// under the cache ceiling, appends the path to the cache order, and
    /// returns the committed bytes together with the evicted paths.
    pub fn cache_miss(&mut self, path: String) -> (result: Result<CacheMissResp, String>)
        requires
            old(self).inv(),
            !old(self)@.cached.contains(norm_path(path@)),
        ensures
            final(self).inv(),
            ({
                let (v2, r) = spec_cache_miss(old(self)@, path@);
                &&& final(self)@ == v2
                &&& (match result {
                    Ok(resp) => r is Ok && resp.file_data@ == r->Ok_0.0
                        && resp.evicted_assets.deep_view() == r->Ok_0.1,
                    Err(e) => r is Err && e@ == r->Err_0,
                })
            }),
    {
        let ghost v0 = self@;
        let path = normalize_path(path);
        let idx = match self.find_record(&path) {
            None => {
                return Err(String::from_str("Upload not initialized"));
            },
            Some(i) => i,
        };
        match self.storage_raw_internal_metadata[idx].state {
            UploadState::Finalized => {},
            _ => {
                return Err(String::from_str("Upload not finalized"));
            },
        }
        let file_size = self.storage_raw_internal_metadata[idx].file_size;
        let file_data = match self.storage_raw.get(&path) {
            Some(d) => d,
            None => {
                proof {
                    assert(false);
                }
                return vstd::pervasive::unreached();
            },
        };
        let free_heap = self.get_free_heap_size_bytes();
        let ghost k = if free_heap < file_size {
            evict_count(v0.records, v0.cached, file_size - free_heap)
        } else {
            0int
        };
        proof {
            lemma_evict_count_bound(v0.records, v0.cached, file_size - free_heap);
        }
        let evicted = if free_heap < file_size {
            self.free_http_cache(file_size - free_heap)
        } else {
            Vec::new()
        };
        proof {
            assert(evicted.deep_view() =~= v0.cached.take(k));
        }
        let ghost mid_cached = self.certified_assets.deep_view();
        self.certified_assets.push(path);
        proof {
            let p = v0.records[path@].file_path;
            assert(self.certified_assets.deep_view() =~= mid_cached.push(path@));
            assert(self@ =~= (StorageView { cached: v0.cached.skip(k).push(path@), ..v0 }));
            let v2 = StorageView { cached: v0.cached.skip(k).push(path@), ..v0 };
            assert forall|a: int| 0 <= a < v2.cached.len() implies v2.records.contains_key(
                #[trigger] v2.cached[a],
            ) && v2.records[v2.cached[a]].state is Finalized by {
                if a < v2.cached.len() - 1 {
                    assert(v2.cached[a] == v0.cached[k + a]);
                }
            }
            assert forall|a: int, b: int| 0 <= a < b < v2.cached.len() implies (
            #[trigger] v2.cached[a]) != (#[trigger] v2.cached[b]) by {
                assert(v2.cached[a] == v0.cached[k + a]);
                if b < v2.cached.len() - 1 {
                    assert(v2.cached[b] == v0.cached[k + b]);
                } else {
                    assert(v2.cached[b] == path@);
                    assert(!v0.cached.contains(path@));
                    assert(v0.cached[k + a] == v2.cached[a]);
                }
            }
            assert(wf(self@));
        }
        Ok(CacheMissResp { file_data, evicted_assets: evicted })
    }

    /// Whether the path names a committed upload.
    pub fn is_finalized(&self, file_path: &String) -> (r: bool)
        requires
            self.inv(),
        ensures
            r == (self@.records.contains_key(norm_path(file_path@))
                && self@.records[norm_path(file_path@)].state is Finalized),
    {
        let path = normalize_path(file_path.clone());
        match self.find_record(&path) {
            Some(i) => match self.storage_raw_internal_metadata[i].state {
                UploadState::Finalized => true,
                _ => false,
            },
            None => false,
        }
    }

    /// Whether a path (as the registry keys it) is currently cached.
    pub fn is_cached(&self, path: &String) -> (r: bool)
        ensures
            r == self@.cached.contains(path@),
    {
        let ghost cached0 = self.certified_assets.deep_view();
        let n = self.certified_assets.len();
        let mut i: usize = 0;
        while i < n
            invariant
                n == self.certified_assets@.len(),
                cached0 == self.certified_assets.deep_view(),
                i <= n,
                forall|j: int| 0 <= j < i ==> (#[trigger] cached0[j]) != path@,
            decreases n - i,
        {
            proof {
                assert(cached0[i as int] == self.certified_assets@[i as int]@);
            }
            if self.certified_assets[i] == *path {
                proof {
                    assert(cached0[i as int] == path@);
                }
                return true;
            }
            i += 1;
        }
        proof {
            assert(forall|j: int| 0 <= j < cached0.len() ==> (#[trigger] cached0[j]) != path@);
        }
        false
    }

    /// Every committed file with its metadata and its stored bytes: each
    /// returned pair is a finalized record together with its blob, and every
    /// finalized record appears.
    pub fn get_all_files(&self) -> (result: Vec<(InternalRawStorageMetadata, Vec<u8>)>)
        requires
            self.inv(),
        ensures
            ({
                let out = result.deep_view();
                &&& (forall|k: int|
                    0 <= k < out.len() ==> {
                        let m = (#[trigger] out[k]).0;
                        &&& self@.records.contains_key(m.file_path)
                        &&& m == self@.records[m.file_path]
                        &&& m.state is Finalized
                        &&& self@.blobs.contains_key(m.file_path)
                        &&& out[k].1 == self@.blobs[m.file_path]
                    })
                &&& (forall|p: Seq<char>|
                    #[trigger] self@.records.contains_key(p)
                        && self@.records[p].state is Finalized ==> exists|k: int|
                        0 <= k < out.len() && (#[trigger] out[k]).0.file_path == p)
            }),
    {
        let ghost rs = self.storage_raw_internal_metadata.deep_view();
        let mut result: Vec<(InternalRawStorageMetadata, Vec<u8>)> = Vec::new();
        let n = self.storage_raw_internal_metadata.len();
        let mut i: usize = 0;
        while i < n
            invariant
                self.inv(),
                n == self.storage_raw_internal_metadata@.len(),
                rs == self.storage_raw_internal_metadata.deep_view(),
                i <= n,
                forall|k: int|
                    0 <= k < result.deep_view().len() ==> {
                        let m = (#[trigger] result.deep_view()[k]).0;
                        &&& self@.records.contains_key(m.file_path)
                        &&& m == self@.records[m.file_path]
                        &&& m.state is Finalized
                        &&& self@.blobs.contains_key(m.file_path)
                        &&& result.deep_view()[k].1 == self@.blobs[m.file_path]
                    },
                forall|j: int|
                    0 <= j < i && (#[trigger] rs[j]).state is Finalized ==> exists|k: int|
                        0 <= k < result.deep_view().len()
                            && (#[trigger] result.deep_view()[k]).0.file_path == rs[j].file_path,
            decreases n - i,
        {
            let ghost out0 = result.deep_view();
            let m = &self.storage_raw_internal_metadata[i];
            match m.state {
                UploadState::Finalized => {
                    let copy = InternalRawStorageMetadata {
                        file_path: m.file_path.clone(),
                        file_hash: m.file_hash.clone(),
                        file_size: m.file_size,
                        received_size: m.received_size,
                        chunks_size: m.chunks_size,
                        chunks: m.chunks.clone(),
                        state: m.state,
                    };
                    proof {
                        lemma_rec_map_index(rs, i as int);
                        assert(rs[i as int].chunks.len() == 0);
                        assert(copy@.chunks =~= rs[i as int].chunks);
                        assert(copy@ =~= rs[i as int]);
                    }
                    let data = match self.storage_raw.get(&m.file_path) {
                        Some(d) => d,
                        None => {
                            proof {
                                assert(false);
                            }
                            vstd::pervasive::unreached()
                        },
                    };
                    result.push((copy, data));
                    proof {
                        assert(result.deep_view() =~~= out0.push((rs[i as int], data@)));
                        assert forall|j: int|
                            0 <= j < i + 1 && (#[trigger] rs[j]).state is Finalized implies exists|k: int|
                            0 <= k < result.deep_view().len()
                                && (#[trigger] result.deep_view()[k]).0.file_path
                                == rs[j].file_path by {
                            if j == i {
                                assert(result.deep_view()[out0.len() as int].0.file_path
                                    == rs[j].file_path);
                            } else {
                                let k0 = choose|k: int|
                                    0 <= k < out0.len()
                                        && (#[trigger] out0[k]).0.file_path == rs[j].file_path;
                                assert(result.deep_view()[k0].0.file_path == rs[j].file_path);
                            }
                        }
                    }
                },
                _ => {},
            }
            i += 1;
        }
        proof {
            assert forall|p: Seq<char>|
                #[trigger] self@.records.contains_key(p)
                    && self@.records[p].state is Finalized implies exists|k: int|
                0 <= k < result.deep_view().len()
                    && (#[trigger] result.deep_view()[k]).0.file_path == p by {
                lemma_rec_map_surjective(rs, p);
                let j = choose|j: int| 0 <= j < rs.len() && (#[trigger] rs[j]).file_path == p;
                lemma_rec_map_index(rs, j);
                assert(rs[j].state is Finalized);
            }
        }
        result
    }
}

/// A path as the registry keys it: one leading separator, if present,
/// stripped.
fn normalize_path(path: String) -> (r: String)
    ensures
        r@ == norm_path(path@),
{
    let len = path.as_str().unicode_len();
    if len > 0 && path.as_str().get_char(0) == '/' {
        let sub = path.as_str().substring_char(1, len);
        proof {
            assert(sub@ =~= path@.skip(1));
        }
        sub.to_owned()
    } else {
        path
    }
}

} // verus!
