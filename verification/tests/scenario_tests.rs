use sha2::Digest;
use storage_canister::storage::StorageData;
use storage_canister::updates::cancel_upload::CancelUploadError;
use storage_canister::updates::finalize_upload;
use storage_canister::updates::init_upload;
use storage_canister::updates::store_chunk;
use storage_canister::DEFAULT_CHUNK_SIZE;

const SELF_ID: &str = "aaaaa-aa";

fn digest_hex(bytes: &[u8]) -> String {
    hex::encode(sha2::Sha256::digest(bytes))
}

fn init_args(path: &str, hash: String, size: u64, chunk_size: Option<u64>) -> init_upload::Args {
    init_upload::Args {
        file_path: path.to_string(),
        file_hash: hash,
        file_size: size,
        chunk_size,
    }
}

fn chunk_args(path: &str, chunk_id: u64, data: Vec<u8>) -> store_chunk::Args {
    store_chunk::Args {
        file_path: path.to_string(),
        chunk_id,
        chunk_data: data,
    }
}

fn finalize_args(path: &str) -> finalize_upload::Args {
    finalize_upload::Args {
        file_path: path.to_string(),
    }
}

/// Chunk size 1 MiB, file size 2.5 MiB: three chunk slots. Finalize after
/// two chunks reports IncompleteUpload; after the ragged last chunk it
/// succeeds and the URL ends in the uploaded path.
#[test]
fn test_ragged_last_chunk_round_trip() {
    let mut storage = StorageData::new(1 << 40);
    let len: usize = 2 * 1024 * 1024 + 512 * 1024;
    let buffer: Vec<u8> = (0..len).map(|i| (i % 251) as u8).collect();
    let chunk: usize = 1024 * 1024;

    storage
        .init_upload(
            init_args("/test.png", digest_hex(&buffer), len as u64, None),
            0,
        )
        .expect("init failed");

    storage
        .store_chunk(chunk_args("/test.png", 0, buffer[0..chunk].to_vec()))
        .expect("chunk 0 failed");
    storage
        .store_chunk(chunk_args("/test.png", 1, buffer[chunk..2 * chunk].to_vec()))
        .expect("chunk 1 failed");

    let early = storage.finalize_upload(finalize_args("/test.png"), SELF_ID);
    assert_eq!(
        early.unwrap_err(),
        finalize_upload::FinalizeUploadError::IncompleteUpload
    );

    storage
        .store_chunk(chunk_args("/test.png", 2, buffer[2 * chunk..].to_vec()))
        .expect("chunk 2 failed");

    let resp = storage
        .finalize_upload(finalize_args("/test.png"), SELF_ID)
        .expect("finalize failed");
    assert!(resp.url.ends_with("/test.png"));
    assert_eq!(resp.url, format!("https://{}.raw.icp0.io/test.png", SELF_ID));
}

/// Declaring the hash of "x" and storing "y" fails finalize with
/// FileHashMismatch.
#[test]
fn test_declared_hash_of_other_content() {
    let mut storage = StorageData::new(1 << 40);

    storage
        .init_upload(init_args("/a.bin", digest_hex(b"x"), 1, None), 0)
        .expect("init failed");
    storage
        .store_chunk(chunk_args("/a.bin", 0, b"y".to_vec()))
        .expect("store failed");

    let resp = storage.finalize_upload(finalize_args("/a.bin"), SELF_ID);
    assert_eq!(
        resp.unwrap_err(),
        finalize_upload::FinalizeUploadError::FileHashMismatch
    );

    // The record keeps its chunk, so a matching declared hash is still
    // verifiable after a cancel and re-init.
    storage
        .cancel_upload("/a.bin".to_string())
        .expect("cancel failed");
    storage
        .init_upload(init_args("/a.bin", digest_hex(b"y"), 1, None), 0)
        .expect("re-init failed");
    storage
        .store_chunk(chunk_args("/a.bin", 0, b"y".to_vec()))
        .expect("re-store failed");
    storage
        .finalize_upload(finalize_args("/a.bin"), SELF_ID)
        .expect("re-finalize failed");
}

#[test]
fn test_invalid_chunk_size_rejected() {
    let mut storage = StorageData::new(1 << 40);

    let zero = storage.init_upload(init_args("/z.bin", digest_hex(b"z"), 1, Some(0)), 0);
    assert_eq!(
        zero.unwrap_err(),
        init_upload::InitUploadError::InvalidChunkSize
    );

    let too_big = storage.init_upload(
        init_args("/z.bin", digest_hex(b"z"), 1, Some(DEFAULT_CHUNK_SIZE + 1)),
        0,
    );
    assert_eq!(
        too_big.unwrap_err(),
        init_upload::InitUploadError::InvalidChunkSize
    );

    // The rejected inits created no record.
    storage
        .init_upload(
            init_args("/z.bin", digest_hex(b"z"), 1, Some(DEFAULT_CHUNK_SIZE)),
            0,
        )
        .expect("valid chunk size rejected");
}

#[test]
fn test_not_enough_storage_exact_boundary() {
    let mut storage = StorageData::new(1000);

    // 401 declared bytes against 1000 - 600 = 400 free: rejected.
    let over = storage.init_upload(init_args("/b.bin", digest_hex(b"b"), 401, None), 600);
    assert_eq!(
        over.unwrap_err(),
        init_upload::InitUploadError::NotEnoughStorage
    );

    // Exactly 400 declared bytes fit.
    storage
        .init_upload(init_args("/b.bin", digest_hex(b"b"), 400, None), 600)
        .expect("declared size equal to the free budget rejected");
}

#[test]
fn test_chunk_errors() {
    let mut storage = StorageData::new(1 << 40);

    let unknown = storage.store_chunk(chunk_args("/nope.bin", 0, vec![1]));
    assert_eq!(
        unknown.unwrap_err(),
        store_chunk::StoreChunkError::UploadNotInitialized
    );

    storage
        .init_upload(init_args("/c.bin", digest_hex(&[1, 2, 3]), 3, None), 0)
        .expect("init failed");

    // One file of three bytes has a single chunk slot.
    let out_of_range = storage.store_chunk(chunk_args("/c.bin", 1, vec![1]));
    assert_eq!(
        out_of_range.unwrap_err(),
        store_chunk::StoreChunkError::InvalidChunkId
    );

    // A chunk that pushes past the declared size is rejected first.
    let too_long = storage.store_chunk(chunk_args("/c.bin", 0, vec![1, 2, 3, 4]));
    assert_eq!(
        too_long.unwrap_err(),
        store_chunk::StoreChunkError::InvalidChunkData
    );

    storage
        .store_chunk(chunk_args("/c.bin", 0, vec![1, 2, 3]))
        .expect("store failed");
    storage
        .finalize_upload(finalize_args("/c.bin"), SELF_ID)
        .expect("finalize failed");

    // After finalize the record refuses further chunks.
    let after = storage.store_chunk(chunk_args("/c.bin", 0, vec![9]));
    assert_eq!(
        after.unwrap_err(),
        store_chunk::StoreChunkError::UploadAlreadyFinalized
    );
}

#[test]
fn test_finalize_sequencing_errors() {
    let mut storage = StorageData::new(1 << 40);

    let missing = storage.finalize_upload(finalize_args("/d.bin"), SELF_ID);
    assert_eq!(
        missing.unwrap_err(),
        finalize_upload::FinalizeUploadError::UploadNotStarted
    );

    storage
        .init_upload(init_args("/d.bin", digest_hex(&[5]), 1, None), 0)
        .expect("init failed");

    // No chunk stored yet: the record is left intact.
    let not_started = storage.finalize_upload(finalize_args("/d.bin"), SELF_ID);
    assert_eq!(
        not_started.unwrap_err(),
        finalize_upload::FinalizeUploadError::UploadNotStarted
    );

    storage
        .store_chunk(chunk_args("/d.bin", 0, vec![5]))
        .expect("store failed");
    storage
        .finalize_upload(finalize_args("/d.bin"), SELF_ID)
        .expect("finalize failed");

    let again = storage.finalize_upload(finalize_args("/d.bin"), SELF_ID);
    assert_eq!(
        again.unwrap_err(),
        finalize_upload::FinalizeUploadError::UploadAlreadyFinalized
    );

    // A finalized path can never be re-initialized.
    let reinit = storage.init_upload(init_args("/d.bin", digest_hex(&[5]), 1, None), 0);
    assert_eq!(
        reinit.unwrap_err(),
        init_upload::InitUploadError::FileAlreadyExists
    );
}

#[test]
fn test_cancel_unknown_path() {
    let mut storage = StorageData::new(1 << 40);
    let resp = storage.cancel_upload("/ghost.bin".to_string());
    assert_eq!(resp.unwrap_err(), CancelUploadError::UploadNotInitialized);
}

#[test]
fn test_cache_miss_errors() {
    let mut storage = StorageData::new(1 << 40);

    let unknown = storage.cache_miss("/nope.bin".to_string());
    assert_eq!(unknown.unwrap_err(), "Upload not initialized");

    storage
        .init_upload(init_args("/e.bin", digest_hex(&[7]), 1, None), 0)
        .expect("init failed");

    let not_finalized = storage.cache_miss("/e.bin".to_string());
    assert_eq!(not_finalized.unwrap_err(), "Upload not finalized");
}

#[test]
fn test_free_storage_accounting() {
    let storage = StorageData::new(1000);
    assert_eq!(storage.get_free_storage_size_bytes(0), 1000);
    assert_eq!(storage.get_free_storage_size_bytes(400), 600);
    assert_eq!(storage.get_free_storage_size_bytes(1000), 0);
    assert_eq!(storage.get_free_storage_size_bytes(2000), 0);
}

#[test]
fn test_free_heap_accounting() {
    let mut storage = StorageData::new(1 << 40);
    assert_eq!(storage.get_free_heap_size_bytes(), 20 * 1024 * 1024);

    let data = vec![42u8; 1000];
    storage
        .init_upload(init_args("/f.bin", digest_hex(&data), 1000, None), 0)
        .expect("init failed");
    storage
        .store_chunk(chunk_args("/f.bin", 0, data.clone()))
        .expect("store failed");
    storage
        .finalize_upload(finalize_args("/f.bin"), SELF_ID)
        .expect("finalize failed");

    // Committing alone does not occupy the cache.
    assert_eq!(storage.get_free_heap_size_bytes(), 20 * 1024 * 1024);

    let served = storage
        .cache_miss("/f.bin".to_string())
        .expect("cache fill failed");
    assert_eq!(served.file_data, data);
    assert_eq!(storage.get_free_heap_size_bytes(), 20 * 1024 * 1024 - 1000);
}

#[test]
fn test_get_all_files_lists_only_finalized() {
    let mut storage = StorageData::new(1 << 40);

    let data = vec![9u8; 10];
    storage
        .init_upload(init_args("/done.bin", digest_hex(&data), 10, None), 0)
        .expect("init failed");
    storage
        .store_chunk(chunk_args("/done.bin", 0, data.clone()))
        .expect("store failed");
    storage
        .finalize_upload(finalize_args("/done.bin"), SELF_ID)
        .expect("finalize failed");

    storage
        .init_upload(init_args("/pending.bin", digest_hex(&data), 10, None), 0)
        .expect("init failed");

    let files = storage.get_all_files();
    assert_eq!(files.len(), 1);
    assert_eq!(files[0].0.file_path, "done.bin");
    assert_eq!(files[0].0.file_size, 10);
    assert_eq!(files[0].1, data);
}

/// Paths are keyed with one leading separator stripped: the same path with
/// and without it names the same upload.
#[test]
fn test_path_normalization() {
    let mut storage = StorageData::new(1 << 40);

    storage
        .init_upload(init_args("/g.bin", digest_hex(&[1]), 1, None), 0)
        .expect("init failed");

    let dup = storage.init_upload(init_args("g.bin", digest_hex(&[1]), 1, None), 0);
    assert_eq!(
        dup.unwrap_err(),
        init_upload::InitUploadError::FileAlreadyExists
    );

    storage
        .store_chunk(chunk_args("g.bin", 0, vec![1]))
        .expect("store through the bare path failed");
    let resp = storage
        .finalize_upload(finalize_args("/g.bin"), SELF_ID)
        .expect("finalize failed");
    assert_eq!(resp.url, format!("https://{}.raw.icp0.io/g.bin", SELF_ID));
}

/// A chunk of zero bytes leaves its slot empty: the slot counts as not yet
/// written, so it can be stored again, with bytes or without.
#[test]
fn test_empty_chunk_leaves_slot_open() {
    let mut storage = StorageData::new(1 << 40);

    storage
        .init_upload(init_args("/h.bin", digest_hex(&[8]), 1, None), 0)
        .expect("init failed");

    storage
        .store_chunk(chunk_args("/h.bin", 0, Vec::new()))
        .expect("empty chunk rejected");
    storage
        .store_chunk(chunk_args("/h.bin", 0, Vec::new()))
        .expect("second empty chunk rejected");
    storage
        .store_chunk(chunk_args("/h.bin", 0, vec![8]))
        .expect("real chunk rejected after empty ones");
    storage
        .finalize_upload(finalize_args("/h.bin"), SELF_ID)
        .expect("finalize failed");
}

/// A declared size of zero makes zero chunk slots. Finalize right after init
/// still reports UploadNotStarted (no chunk was ever stored); only a store
/// call, even a failing one, starts the upload, after which the empty
/// content can be committed against the digest of no bytes.
#[test]
fn test_empty_file_upload() {
    let mut storage = StorageData::new(1 << 40);

    storage
        .init_upload(init_args("/empty.bin", digest_hex(b""), 0, None), 0)
        .expect("init failed");

    let early = storage.finalize_upload(finalize_args("/empty.bin"), SELF_ID);
    assert_eq!(
        early.unwrap_err(),
        finalize_upload::FinalizeUploadError::UploadNotStarted
    );

    let no_slot = storage.store_chunk(chunk_args("/empty.bin", 0, Vec::new()));
    assert_eq!(
        no_slot.unwrap_err(),
        store_chunk::StoreChunkError::InvalidChunkId
    );

    storage
        .finalize_upload(finalize_args("/empty.bin"), SELF_ID)
        .expect("finalize of an empty upload failed");
}
