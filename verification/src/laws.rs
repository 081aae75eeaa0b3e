use vstd::prelude::*;

verus! {

use crate::DEFAULT_CHUNK_SIZE;
use crate::hashing::content_hash_of;
use crate::model::{
    MetadataView, StorageView, cached_bytes, cached_size_of, concat_chunks,
    concat_chunks_prefix, evict_count, fresh_metadata, lemma_evict_count_bound, norm_path,
    num_chunks_of, spec_cache_miss, spec_finalize_upload, spec_free_heap, spec_free_storage,
    spec_init_upload, spec_store_chunk, url_of, wf,
};
use crate::storage::UploadState;
use crate::updates::finalize_upload::FinalizeUploadError;
use crate::updates::init_upload::InitUploadError;
use crate::updates::store_chunk::StoreChunkError;

/// Law: a declared size that exceeds the remaining storage budget is
/// rejected at init time with NotEnoughStorage, and no record is created.
pub proof fn lemma_init_rejects_over_quota(
    v: StorageView,
    path: Seq<char>,
    hash: Seq<char>,
    file_size: u64,
    chunk_size: Option<u64>,
    current_usage: u128,
)
    requires
        !v.records.contains_key(norm_path(path)),
        spec_free_storage(v.max_storage, current_usage) < file_size as u128,
    ensures
        spec_init_upload(v, path, hash, file_size, chunk_size, current_usage) == (
            v,
            Err::<(), InitUploadError>(InitUploadError::NotEnoughStorage),
        ),
{
}

/// Law: finalize before every byte has arrived fails with IncompleteUpload
/// and leaves the whole engine, the record's state included, unchanged.
pub proof fn lemma_finalize_incomplete(v: StorageView, path: Seq<char>, canister_id: Seq<char>)
    requires
        v.records.contains_key(norm_path(path)),
        v.records[norm_path(path)].state is InProgress,
        v.records[norm_path(path)].received_size < v.records[norm_path(path)].file_size,
    ensures
        spec_finalize_upload(v, path, canister_id) == (
            v,
            Err::<Seq<char>, FinalizeUploadError>(FinalizeUploadError::IncompleteUpload),
        ),
{
}

/// Law: finalize of a complete upload whose content digest does not match
/// the declared hash fails with FileHashMismatch and leaves the engine
/// unchanged: the record stays InProgress and keeps its chunks.
pub proof fn lemma_finalize_hash_mismatch(v: StorageView, path: Seq<char>, canister_id: Seq<char>)
    requires
        wf(v),
        v.records.contains_key(norm_path(path)),
        v.records[norm_path(path)].state is InProgress,
        v.records[norm_path(path)].received_size == v.records[norm_path(path)].file_size,
        content_hash_of(concat_chunks(v.records[norm_path(path)].chunks)) != v.records[norm_path(
            path,
        )].file_hash,
    ensures
        spec_finalize_upload(v, path, canister_id) == (
            v,
            Err::<Seq<char>, FinalizeUploadError>(FinalizeUploadError::FileHashMismatch),
        ),
{
    let p = norm_path(path);
    assert(concat_chunks(v.records[p].chunks).len() == v.records[p].file_size);
}

/// Law: once a chunk index has been stored with at least one byte, storing
/// the same index again fails with the duplicate-chunk error, whatever the
/// second chunk holds, and changes nothing. (A first chunk of zero bytes
/// leaves its slot empty, so only nonempty first chunks are covered.)
pub proof fn lemma_store_chunk_duplicate(
    v: StorageView,
    path: Seq<char>,
    chunk_id: u64,
    data1: Seq<u8>,
    data2: Seq<u8>,
)
    requires
        spec_store_chunk(v, path, chunk_id, data1).1 is Ok,
        data1.len() > 0,
    ensures
        ({
            let (v1, r1) = spec_store_chunk(v, path, chunk_id, data1);
            let (v2, r2) = spec_store_chunk(v1, path, chunk_id, data2);
            &&& r2 == Err::<(), StoreChunkError>(StoreChunkError::InvalidChunkData)
            &&& v2 == v1
        }),
{
    let p = norm_path(path);
    let (v1, r1) = spec_store_chunk(v, path, chunk_id, data1);
    let m1 = v1.records[p];
    assert(m1.state is InProgress);
    assert(m1.chunks[chunk_id as int] == data1);
    let started = MetadataView { state: UploadState::InProgress, ..m1 };
    assert(started =~= m1);
    assert(v1.records.insert(p, started) =~= v1.records);
    assert((StorageView { records: v1.records.insert(p, started), ..v1 }) =~= v1);
}

/// The smaller of two integers.
pub open spec fn min_of(a: int, b: int) -> int {
    if a <= b {
        a
    } else {
        b
    }
}

/// The i-th piece of the content when cut into chunks: a full piece, or the
/// shorter final one.
pub open spec fn chunk_of(bytes: Seq<u8>, chunks_size: u64, i: int) -> Seq<u8> {
    bytes.subrange(i * (chunks_size as int), min_of(bytes.len() as int, (i + 1) * (
    chunks_size as int)))
}

/// The record as it stands after the first `i` chunks of the content have
/// been stored in order.
pub open spec fn partial_metadata(
    path: Seq<char>,
    hash: Seq<char>,
    bytes: Seq<u8>,
    chunks_size: u64,
    i: int,
) -> MetadataView {
    MetadataView {
        file_path: path,
        file_hash: hash,
        file_size: bytes.len() as u64,
        received_size: min_of(bytes.len() as int, i * (chunks_size as int)) as u64,
        chunks_size: chunks_size,
        chunks: Seq::new(
            num_chunks_of(bytes.len() as u64, chunks_size) as nat,
            |j: int|
                if j < i {
                    chunk_of(bytes, chunks_size, j)
                } else {
                    Seq::<u8>::empty()
                },
        ),
        state: if i == 0 {
            UploadState::Init
        } else {
            UploadState::InProgress
        },
    }
}

/// Storing chunks `i` to `n` of the content, in index order.
pub open spec fn spec_store_all_from(
    v: StorageView,
    path: Seq<char>,
    bytes: Seq<u8>,
    chunks_size: u64,
    i: int,
    n: int,
) -> (StorageView, bool)
    decreases n - i,
{
    if i >= n {
        (v, true)
    } else {
        let (v1, r1) = spec_store_chunk(v, path, i as u64, chunk_of(bytes, chunks_size, i));
        let (v2, ok) = spec_store_all_from(v1, path, bytes, chunks_size, i + 1, n);
        (v2, (r1 is Ok) && ok)
    }
}

/// The chunk count brackets the content length: one chunk fewer is too few,
/// and the count never exceeds the length itself.
proof fn lemma_chunk_count_bounds(len: int, cs: int)
    requires
        1 <= cs,
        1 <= len,
    ensures
        ({
            let n = len / cs + if len % cs == 0 {
                0int
            } else {
                1int
            };
            &&& 1 <= n <= len
            &&& (n - 1) * cs < len
            &&& len <= n * cs
        }),
{
    let q = len / cs;
    let r = len % cs;
    vstd::arithmetic::div_mod::lemma_fundamental_div_mod(len, cs);
    vstd::arithmetic::div_mod::lemma_remainder_lower(len, cs);
    vstd::arithmetic::div_mod::lemma_remainder_upper(len, cs);
    vstd::arithmetic::div_mod::lemma_div_nonincreasing(len, cs);
    assert(len == q * cs + r) by (nonlinear_arith)
        requires
            len == cs * q + r,
    ;
    if q < 0 {
        assert(q * cs <= q) by (nonlinear_arith)
            requires
                q < 0 && cs >= 1,
        ;
        assert(false);
    }
    let n = q + if r == 0 {
        0int
    } else {
        1int
    };
    if r == 0 {
        if q < 1 {
            assert(q * cs <= 0) by (nonlinear_arith)
                requires
                    q <= 0 && cs >= 1,
            ;
            assert(false);
        }
        assert((n - 1) * cs == q * cs - cs) by (nonlinear_arith)
            requires
                n == q,
        ;
        assert(n * cs == q * cs) by (nonlinear_arith)
            requires
                n == q,
        ;
        assert(n <= q * cs) by (nonlinear_arith)
            requires
                0 <= n == q && cs >= 1,
        ;
    } else {
        assert((n - 1) * cs == q * cs) by (nonlinear_arith)
            requires
                n == q + 1,
        ;
        assert(n * cs == q * cs + cs) by (nonlinear_arith)
            requires
                n == q + 1,
        ;
        assert(n <= q * cs + r) by (nonlinear_arith)
            requires
                n == q + 1 && 0 <= q && cs >= 1 && r >= 1,
        ;
    }
}

/// Storing chunks `i` onward of the content, starting from a registry whose
/// record has exactly the first `i` chunks, succeeds and fills the record.
proof fn lemma_store_all_partial(
    v: StorageView,
    path: Seq<char>,
    hash: Seq<char>,
    bytes: Seq<u8>,
    cs: u64,
    i: int,
)
    requires
        1 <= cs,
        1 <= bytes.len() <= u64::MAX,
        0 <= i <= num_chunks_of(bytes.len() as u64, cs),
        v.records.contains_key(norm_path(path)),
        v.records[norm_path(path)] == partial_metadata(norm_path(path), hash, bytes, cs, i),
    ensures
        ({
            let p = norm_path(path);
            let n = num_chunks_of(bytes.len() as u64, cs);
            let (v2, ok) = spec_store_all_from(v, path, bytes, cs, i, n);
            &&& ok
            &&& v2 == (StorageView {
                records: v.records.insert(p, partial_metadata(p, hash, bytes, cs, n)),
                ..v
            })
        }),
    decreases num_chunks_of(bytes.len() as u64, cs) - i,
{
    let p = norm_path(path);
    let len = bytes.len() as int;
    let csi = cs as int;
    let n = num_chunks_of(bytes.len() as u64, cs);
    lemma_chunk_count_bounds(len, csi);
    if i >= n {
        assert(v.records.insert(p, v.records[p]) =~= v.records);
        assert((StorageView { records: v.records.insert(p, v.records[p]), ..v }) =~= v);
    } else {
        let m_i = partial_metadata(p, hash, bytes, cs, i);
        vstd::arithmetic::mul::lemma_mul_inequality(i, n - 1, csi);
        vstd::arithmetic::mul::lemma_mul_inequality(i + 1, n, csi);
        assert(i * csi <= (n - 1) * csi < len);
        assert((i + 1) * csi == i * csi + csi) by (nonlinear_arith);
        let piece = chunk_of(bytes, cs, i);
        assert(piece.len() == min_of(len, (i + 1) * csi) - i * csi);
        assert(m_i.received_size == i * csi);
        let (v1, r1) = spec_store_chunk(v, path, i as u64, piece);
        assert(r1 is Ok);
        let stored = MetadataView {
            state: UploadState::InProgress,
            chunks: m_i.chunks.update(i, piece),
            received_size: (m_i.received_size + piece.len()) as u64,
            ..m_i
        };
        let m_i1 = partial_metadata(p, hash, bytes, cs, i + 1);
        assert(stored.chunks =~= m_i1.chunks);
        assert(stored =~= m_i1);
        assert(v1 == (StorageView { records: v.records.insert(p, m_i1), ..v }));
        lemma_store_all_partial(v1, path, hash, bytes, cs, i + 1);
        let (v2, ok) = spec_store_all_from(v1, path, bytes, cs, i + 1, n);
        assert(v.records.insert(p, m_i1).insert(p, partial_metadata(p, hash, bytes, cs, n))
            =~= v.records.insert(p, partial_metadata(p, hash, bytes, cs, n)));
        assert(v2 =~= (StorageView {
            records: v.records.insert(p, partial_metadata(p, hash, bytes, cs, n)),
            ..v
        }));
    }
}

/// Concatenating the first `j` pieces of the cut content restores the first
/// `min(len, j * chunk_size)` bytes of the content.
proof fn lemma_concat_chunk_pieces(bytes: Seq<u8>, cs: u64, j: int)
    requires
        1 <= cs,
        1 <= bytes.len() <= u64::MAX,
        0 <= j <= num_chunks_of(bytes.len() as u64, cs),
    ensures
        concat_chunks_prefix(
            partial_metadata(Seq::empty(), Seq::empty(), bytes, cs, num_chunks_of(
                bytes.len() as u64,
                cs,
            )).chunks,
            j,
        ) == bytes.take(min_of(bytes.len() as int, j * (cs as int))),
    decreases j,
{
    let len = bytes.len() as int;
    let csi = cs as int;
    let n = num_chunks_of(bytes.len() as u64, cs);
    let full = partial_metadata(Seq::empty(), Seq::empty(), bytes, cs, n).chunks;
    lemma_chunk_count_bounds(len, csi);
    if j == 0 {
        assert(bytes.take(0) =~= Seq::<u8>::empty());
    } else {
        lemma_concat_chunk_pieces(bytes, cs, j - 1);
        vstd::arithmetic::mul::lemma_mul_inequality(j - 1, n - 1, csi);
        assert((j - 1) * csi <= (n - 1) * csi < len);
        assert(j * csi == (j - 1) * csi + csi) by (nonlinear_arith);
        assert(full[j - 1] == chunk_of(bytes, cs, j - 1));
        assert(bytes.take(min_of(len, (j - 1) * csi)) + chunk_of(bytes, cs, j - 1) =~= bytes.take(
            min_of(len, j * csi),
        ));
    }
}

/// Law: a complete upload round trip succeeds. For content whose declared
/// hash is its digest and whose size fits the remaining budget: init, then
/// storing every chunk in index order, then finalize all succeed; finalize
/// answers the deterministic URL; the blob store then holds exactly the
/// content under the normalized path; and a following request for that path
/// serves exactly the content. (Only nonempty content: with no bytes no
/// chunk is ever stored, and finalize reports UploadNotStarted.)
pub proof fn lemma_upload_round_trip(
    v: StorageView,
    path: Seq<char>,
    bytes: Seq<u8>,
    chunk_size: u64,
    current_usage: u128,
    canister_id: Seq<char>,
)
    requires
        wf(v),
        !v.records.contains_key(norm_path(path)),
        1 <= chunk_size <= DEFAULT_CHUNK_SIZE,
        1 <= bytes.len() <= u64::MAX,
        spec_free_storage(v.max_storage, current_usage) >= bytes.len() as u128,
    ensures
        ({
            let p = norm_path(path);
            let n = num_chunks_of(bytes.len() as u64, chunk_size);
            let (v1, r1) = spec_init_upload(
                v,
                path,
                content_hash_of(bytes),
                bytes.len() as u64,
                Some(chunk_size),
                current_usage,
            );
            let (v2, all_ok) = spec_store_all_from(v1, path, bytes, chunk_size, 0, n);
            let (v3, r3) = spec_finalize_upload(v2, path, canister_id);
            let (v4, r4) = spec_cache_miss(v3, seq!['/'] + p);
            &&& r1 is Ok
            &&& all_ok
            &&& r3 == Ok::<Seq<char>, FinalizeUploadError>(url_of(canister_id, p))
            &&& v3.blobs[p] == bytes
            &&& v3.records[p].state is Finalized
            &&& r4 is Ok
            &&& r4->Ok_0.0 == bytes
        }),
{
    let p = norm_path(path);
    let len = bytes.len() as int;
    let csi = chunk_size as int;
    let n = num_chunks_of(bytes.len() as u64, chunk_size);
    let hash = content_hash_of(bytes);
    lemma_chunk_count_bounds(len, csi);
    let (v1, r1) = spec_init_upload(
        v,
        path,
        hash,
        bytes.len() as u64,
        Some(chunk_size),
        current_usage,
    );
    assert(r1 is Ok);
    assert(fresh_metadata(p, hash, bytes.len() as u64, chunk_size) =~= partial_metadata(
        p,
        hash,
        bytes,
        chunk_size,
        0,
    ));
    lemma_store_all_partial(v1, path, hash, bytes, chunk_size, 0);
    let (v2, all_ok) = spec_store_all_from(v1, path, bytes, chunk_size, 0, n);
    let m_n = partial_metadata(p, hash, bytes, chunk_size, n);
    assert(v2.records[p] == m_n);
    assert(m_n.received_size == bytes.len());
    let full = m_n.chunks;
    assert(full =~= partial_metadata(Seq::empty(), Seq::empty(), bytes, chunk_size, n).chunks);
    lemma_concat_chunk_pieces(bytes, chunk_size, n);
    assert(bytes.take(min_of(len, n * csi)) =~= bytes);
    assert(concat_chunks(full) == bytes);
    let (v3, r3) = spec_finalize_upload(v2, path, canister_id);
    assert(r3 == Ok::<Seq<char>, FinalizeUploadError>(url_of(canister_id, p)));
    assert(v3.blobs[p] == bytes);
    reveal_strlit("/");
    assert((seq!['/'] + p).len() > 0 && (seq!['/'] + p)[0] == '/');
    assert(norm_path(seq!['/'] + p) =~= p);
    assert forall|a: int| 0 <= a < v3.cached.len() implies v3.cached[a] != p by {
        assert(v.records.contains_key(v.cached[a]));
    }
    assert(!v3.cached.contains(p));
    let (v4, r4) = spec_cache_miss(v3, seq!['/'] + p);
    assert(r4 is Ok && r4->Ok_0.0 == bytes);
}

/// The cache total can be peeled off at the front as well as at the back.
proof fn lemma_cached_bytes_first(records: Map<Seq<char>, MetadataView>, s: Seq<Seq<char>>)
    requires
        s.len() > 0,
    ensures
        cached_bytes(records, s) == cached_size_of(records, s.first()) + cached_bytes(
            records,
            s.drop_first(),
        ),
    decreases s.len(),
{
    if s.len() == 1 {
        assert(s.drop_first() =~= s.drop_last());
    } else {
        lemma_cached_bytes_first(records, s.drop_last());
        assert(s.drop_last().first() == s.first());
        assert(s.drop_last().drop_first() =~= s.drop_first().drop_last());
        assert(s.drop_first().last() == s.last());
    }
}

/// An eviction pass removes the minimal number of oldest entries: every
/// strictly shorter prefix frees too little, and when the pass stops before
/// the end the removed prefix frees enough.
pub proof fn lemma_evict_count_minimal(
    records: Map<Seq<char>, MetadataView>,
    cached: Seq<Seq<char>>,
    requested: int,
)
    ensures
        ({
            let k = evict_count(records, cached, requested);
            &&& (forall|j: int| 0 <= j < k ==> cached_bytes(records, cached.take(j)) < requested)
            &&& (k < cached.len() ==> cached_bytes(records, cached.take(k)) >= requested)
        }),
    decreases cached.len(),
{
    let k = evict_count(records, cached, requested);
    if requested <= 0 || cached.len() == 0 {
        assert(cached.take(0) =~= Seq::<Seq<char>>::empty());
    } else {
        let s0 = cached_size_of(records, cached.first());
        lemma_evict_count_bound(records, cached.drop_first(), requested - s0);
        lemma_evict_count_minimal(records, cached.drop_first(), requested - s0);
        let k1 = evict_count(records, cached.drop_first(), requested - s0);
        assert(k == 1 + k1);
        assert forall|j: int| 0 <= j < k implies cached_bytes(records, cached.take(j))
            < requested by {
            if j == 0 {
                assert(cached.take(0) =~= Seq::<Seq<char>>::empty());
            } else {
                assert(cached.take(j).first() == cached.first());
                assert(cached.take(j).drop_first() =~= cached.drop_first().take(j - 1));
                lemma_cached_bytes_first(records, cached.take(j));
                assert(cached_bytes(records, cached.drop_first().take(j - 1)) < requested - s0);
            }
        }
        if k < cached.len() {
            assert(cached.take(k).first() == cached.first());
            assert(cached.take(k).drop_first() =~= cached.drop_first().take(k1));
            lemma_cached_bytes_first(records, cached.take(k));
        }
    }
}

/// Law: cache eviction is strict first-in-first-out. A fill for a new,
/// committed path succeeds and serves the committed bytes; it evicts exactly
/// the minimal number of oldest entries needed to make room (none when the
/// file already fits), keeps every younger entry in its order, and appends
/// the new path at the back of the cache order.
pub proof fn lemma_cache_miss_fifo(v: StorageView, path: Seq<char>)
    requires
        wf(v),
        !v.cached.contains(norm_path(path)),
        v.records.contains_key(norm_path(path)),
        v.records[norm_path(path)].state is Finalized,
    ensures
        ({
            let p = norm_path(path);
            let size = v.records[p].file_size;
            let requested = size - spec_free_heap(v);
            let k = if spec_free_heap(v) < size {
                evict_count(v.records, v.cached, requested as int)
            } else {
                0int
            };
            let (v2, r) = spec_cache_miss(v, path);
            &&& r is Ok
            &&& r->Ok_0.0 == v.blobs[p]
            &&& r->Ok_0.1 == v.cached.take(k)
            &&& v2 == (StorageView { cached: v.cached.skip(k).push(p), ..v })
            &&& (spec_free_heap(v) >= size ==> k == 0 && v2.cached == v.cached.push(p))
            &&& (forall|j: int|
                0 <= j < k ==> cached_bytes(v.records, v.cached.take(j)) < requested as int)
            &&& (k < v.cached.len() ==> cached_bytes(v.records, v.cached.take(k)) >= requested
                as int)
        }),
{
    let p = norm_path(path);
    let size = v.records[p].file_size;
    if spec_free_heap(v) < size {
        lemma_evict_count_minimal(v.records, v.cached, (size - spec_free_heap(v)) as int);
    } else {
        assert(v.cached.skip(0) =~= v.cached);
        assert(v.cached.take(0) =~= Seq::<Seq<char>>::empty());
    }
}

} // verus!
