use sha2::Digest;
use storage_canister::storage::StorageData;
use storage_canister::updates::finalize_upload;
use storage_canister::updates::init_upload;
use storage_canister::updates::store_chunk;

const CANISTER_ID: &str = "auamu-4x777-77775-aaaaa-cai";
const CHUNK: usize = 1024 * 1024;

fn test_bytes(len: usize, seed: u8) -> Vec<u8> {
    let mut v = Vec::with_capacity(len);
    let mut x: u8 = seed;
    for _ in 0..len {
        x = x.wrapping_mul(31).wrapping_add(7);
        v.push(x);
    }
    v
}

fn sha256_hex(bytes: &[u8]) -> String {
    hex::encode(sha2::Sha256::digest(bytes))
}

fn upload_bytes(
    storage: &mut StorageData,
    usage: u128,
    upload_path: &str,
    buffer: &[u8],
) -> Result<String, String> {
    storage
        .init_upload(
            init_upload::Args {
                file_path: upload_path.to_string(),
                file_hash: sha256_hex(buffer),
                file_size: buffer.len() as u64,
                chunk_size: None,
            },
            usage,
        )
        .map_err(|e| format!("init_upload error: {:?}", e))?;

    let mut offset = 0;
    let mut chunk_index: u64 = 0;
    while offset < buffer.len() {
        let end = (offset + CHUNK).min(buffer.len());
        storage
            .store_chunk(store_chunk::Args {
                file_path: upload_path.to_string(),
                chunk_id: chunk_index,
                chunk_data: buffer[offset..end].to_vec(),
            })
            .map_err(|e| format!("store_chunk error: {:?}", e))?;
        offset += CHUNK;
        chunk_index += 1;
    }

    let resp = storage
        .finalize_upload(
            finalize_upload::Args {
                file_path: upload_path.to_string(),
            },
            CANISTER_ID,
        )
        .map_err(|e| format!("finalize_upload error: {:?}", e))?;
    Ok(resp.url)
}

#[test]
fn test_storage_simple() {
    let mut storage = StorageData::new(1 << 40);
    let buffer = test_bytes(6_205_837, 1);

    let url = upload_bytes(&mut storage, 0, "/test.png", &buffer).expect("Upload failed");
    assert_eq!(url, format!("https://{}.raw.icp0.io/test.png", CANISTER_ID));

    let served = storage
        .cache_miss("/test.png".to_string())
        .expect("serving a committed file must succeed");
    assert_eq!(served.file_data, buffer);
    assert!(served.evicted_assets.is_empty());
    assert!(storage.is_cached(&"test.png".to_string()));
}

#[test]
fn test_duplicate_upload() {
    let mut storage = StorageData::new(1 << 40);
    let buffer = test_bytes(6_205_837, 2);

    upload_bytes(&mut storage, 0, "/test.png", &buffer).expect("First upload failed");

    let init_upload_resp = storage.init_upload(
        init_upload::Args {
            file_path: "/test.png".to_string(),
            file_hash: "dummy_hash".to_string(),
            file_size: 1024,
            chunk_size: None,
        },
        buffer.len() as u128,
    );

    match init_upload_resp {
        Ok(_) => panic!("Duplicate upload should not be allowed"),
        Err(e) => {
            assert!(matches!(e, init_upload::InitUploadError::FileAlreadyExists));
        }
    }
}

#[test]
fn test_duplicate_chunk_upload() {
    let mut storage = StorageData::new(1 << 40);
    let buffer = test_bytes(6_205_837, 3);

    storage
        .init_upload(
            init_upload::Args {
                file_path: "/test.png".to_string(),
                file_hash: sha256_hex(&buffer),
                file_size: buffer.len() as u64,
                chunk_size: None,
            },
            0,
        )
        .expect("Failed to initialize upload");

    let mut offset = 0;
    let mut chunk_index: u64 = 0;
    while offset < buffer.len() {
        let end = (offset + CHUNK).min(buffer.len());
        let chunk = buffer[offset..end].to_vec();

        storage
            .store_chunk(store_chunk::Args {
                file_path: "/test.png".to_string(),
                chunk_id: chunk_index,
                chunk_data: chunk.clone(),
            })
            .expect("Failed to store chunk");

        let duplicate_chunk_resp = storage.store_chunk(store_chunk::Args {
            file_path: "/test.png".to_string(),
            chunk_id: chunk_index,
            chunk_data: chunk,
        });

        match duplicate_chunk_resp {
            Ok(_) => panic!("Duplicate chunk upload should not be allowed"),
            Err(e) => {
                assert!(matches!(e, store_chunk::StoreChunkError::InvalidChunkData));
            }
        }

        offset += CHUNK;
        chunk_index += 1;
    }

    storage
        .finalize_upload(
            finalize_upload::Args {
                file_path: "/test.png".to_string(),
            },
            CANISTER_ID,
        )
        .expect("Failed to finalize upload");
}

#[test]
fn test_finalize_upload_missing_chunk() {
    let mut storage = StorageData::new(1 << 40);
    let buffer = test_bytes(6_205_837, 4);

    storage
        .init_upload(
            init_upload::Args {
                file_path: "/test.png".to_string(),
                file_hash: sha256_hex(&buffer),
                file_size: buffer.len() as u64,
                chunk_size: None,
            },
            0,
        )
        .expect("Failed to initialize upload");

    // Upload all chunks except the last one.
    let mut offset = 0;
    let mut chunk_index: u64 = 0;
    while offset < buffer.len() - CHUNK {
        let end = (offset + CHUNK).min(buffer.len());
        storage
            .store_chunk(store_chunk::Args {
                file_path: "/test.png".to_string(),
                chunk_id: chunk_index,
                chunk_data: buffer[offset..end].to_vec(),
            })
            .expect("Failed to store chunk");
        offset += CHUNK;
        chunk_index += 1;
    }

    let finalize_upload_resp = storage.finalize_upload(
        finalize_upload::Args {
            file_path: "/test.png".to_string(),
        },
        CANISTER_ID,
    );

    match finalize_upload_resp {
        Ok(_) => panic!("Finalize upload should not be allowed with missing chunk"),
        Err(e) => {
            assert!(matches!(
                e,
                finalize_upload::FinalizeUploadError::IncompleteUpload
            ));
        }
    }
}

#[test]
fn test_upload_with_incorrect_chunk() {
    let mut storage = StorageData::new(1 << 40);
    let buffer = test_bytes(6_205_837, 5);

    storage
        .init_upload(
            init_upload::Args {
                file_path: "/test.png".to_string(),
                file_hash: sha256_hex(&buffer),
                file_size: buffer.len() as u64,
                chunk_size: None,
            },
            0,
        )
        .expect("Failed to initialize upload");

    let mut offset = 0;
    let mut chunk_index: u64 = 0;
    while offset < buffer.len() {
        let end = (offset + CHUNK).min(buffer.len());
        let mut chunk = buffer[offset..end].to_vec();
        if offset == 0 {
            chunk[0] = chunk[0].wrapping_add(1);
        }

        storage
            .store_chunk(store_chunk::Args {
                file_path: "/test.png".to_string(),
                chunk_id: chunk_index,
                chunk_data: chunk,
            })
            .expect("Failed to store chunk");

        offset += CHUNK;
        chunk_index += 1;
    }

    let finalize_upload_resp = storage.finalize_upload(
        finalize_upload::Args {
            file_path: "/test.png".to_string(),
        },
        CANISTER_ID,
    );

    match finalize_upload_resp {
        Ok(_) => panic!("Finalize upload should not be allowed with incorrect chunk"),
        Err(e) => {
            assert!(matches!(
                e,
                finalize_upload::FinalizeUploadError::FileHashMismatch
            ));
        }
    }
}

#[test]
fn test_cancel_upload() {
    let mut storage = StorageData::new(1 << 40);
    let buffer = test_bytes(6_205_837, 6);

    storage
        .init_upload(
            init_upload::Args {
                file_path: "/test_cancel.png".to_string(),
                file_hash: sha256_hex(&buffer),
                file_size: buffer.len() as u64,
                chunk_size: None,
            },
            0,
        )
        .expect("init_upload failed");

    storage
        .cancel_upload("/test_cancel.png".to_string())
        .expect("cancel_upload failed");

    // Finalizing a path that was never uploaded must fail.
    let finalize_upload_resp = storage.finalize_upload(
        finalize_upload::Args {
            file_path: "/test.png".to_string(),
        },
        CANISTER_ID,
    );

    match finalize_upload_resp {
        Ok(_) => panic!("Finalize upload should not be allowed for a canceled upload"),
        Err(e) => {
            assert!(matches!(
                e,
                finalize_upload::FinalizeUploadError::UploadNotStarted
            ));
        }
    }

    // The canceled path is free again.
    storage
        .init_upload(
            init_upload::Args {
                file_path: "/test_cancel.png".to_string(),
                file_hash: sha256_hex(&buffer),
                file_size: buffer.len() as u64,
                chunk_size: None,
            },
            0,
        )
        .expect("re-init after cancel failed");
}

#[test]
fn test_storage_scalability() {
    let file_size: usize = 6_205_837;
    // Room for exactly seven files of this size.
    let mut storage = StorageData::new((7 * file_size + 1000) as u128);
    let mut usage: u128 = 0;
    let mut uploaded = Vec::new();

    for i in 0..7 {
        let upload_path = format!("/test_scalability_{}.png", i);
        let buffer = test_bytes(file_size, 10 + i as u8);
        upload_bytes(&mut storage, usage, &upload_path, &buffer)
            .unwrap_or_else(|_| panic!("Upload {} failed", i));
        usage += file_size as u128;
        uploaded.push((upload_path, buffer));
    }

    assert_eq!(uploaded.len(), 7, "Expected exactly 7 successful uploads");

    // The eighth file exceeds the remaining budget.
    let buffer = test_bytes(file_size, 99);
    let result = storage.init_upload(
        init_upload::Args {
            file_path: "/test_scalability_7.png".to_string(),
            file_hash: sha256_hex(&buffer),
            file_size: buffer.len() as u64,
            chunk_size: None,
        },
        usage,
    );

    match result {
        Ok(_) => panic!("Expected the eighth upload to fail due to storage limit"),
        Err(e) => {
            assert!(matches!(e, init_upload::InitUploadError::NotEnoughStorage));
        }
    }

    // Every uploaded file is still served byte for byte.
    for (upload_path, original_buffer) in uploaded {
        let served = storage
            .cache_miss(upload_path.clone())
            .unwrap_or_else(|_| panic!("No content served for {}", upload_path));
        assert_eq!(
            served.file_data, original_buffer,
            "File content mismatch for {}",
            upload_path
        );
    }
}

#[test]
fn test_storage_heap_management() {
    // Five files of ~6 MB against a 20 MiB cache ceiling: three fit at once.
    let file_size: usize = 6_205_837;
    let mut storage = StorageData::new(1 << 40);
    let mut usage: u128 = 0;
    let mut uploaded = Vec::new();

    for i in 0..5 {
        let upload_path = format!("/test_heap_{}.png", i);
        let buffer = test_bytes(file_size, 20 + i as u8);
        upload_bytes(&mut storage, usage, &upload_path, &buffer)
            .unwrap_or_else(|_| panic!("Upload {} failed", i));
        usage += file_size as u128;
        uploaded.push((upload_path, buffer));
    }

    // First request for each file fills the cache in upload order.
    for (i, (upload_path, original_buffer)) in uploaded.iter().enumerate() {
        let served = storage
            .cache_miss(upload_path.clone())
            .unwrap_or_else(|_| panic!("First request for file {} failed", i));
        assert_eq!(
            &served.file_data, original_buffer,
            "File content mismatch for {}",
            upload_path
        );
    }

    // Request files in reverse order to verify FIFO cache behavior: the two
    // oldest entries were evicted to make room, the three youngest are hits.
    for (i, (upload_path, original_buffer)) in uploaded.iter().enumerate().rev() {
        let key = upload_path.trim_start_matches('/').to_string();
        let cached = storage.is_cached(&key);
        let expect_hit = i >= 2;
        assert_eq!(cached, expect_hit, "Unexpected cache state for file {}", i);
        if !cached {
            let served = storage
                .cache_miss(upload_path.clone())
                .unwrap_or_else(|_| panic!("Re-fill for file {} failed", i));
            assert_eq!(
                &served.file_data, original_buffer,
                "File content mismatch for {}",
                upload_path
            );
        }
    }

    // All files are still retrievable after the cache has cycled.
    for (i, (upload_path, original_buffer)) in uploaded.iter().enumerate() {
        let key = upload_path.trim_start_matches('/').to_string();
        if storage.is_cached(&key) {
            let files = storage.get_all_files();
            let found = files
                .iter()
                .find(|(m, _)| m.file_path == key)
                .unwrap_or_else(|| panic!("File {} missing from storage", i));
            assert_eq!(
                &found.1, original_buffer,
                "File content mismatch for {}",
                upload_path
            );
        } else {
            let served = storage
                .cache_miss(upload_path.clone())
                .unwrap_or_else(|_| panic!("Final request for file {} failed", i));
            assert_eq!(
                &served.file_data, original_buffer,
                "File content mismatch for {}",
                upload_path
            );
        }
    }
}
