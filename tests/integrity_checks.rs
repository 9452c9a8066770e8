use gidrive::allocator::{plan_upload, ReposMetadata};
use gidrive::chunker::plan_chunks;
use gidrive::integrity::{check_download, chunk_bytes, sha256_hex, verify_assembled, DownloadError};
use gidrive::manifest::build_manifest;

const C: u64 = 16;

fn upload_then_download(data: &[u8]) -> (Vec<u8>, Result<(), DownloadError>) {
    let checksum = sha256_hex(data);
    let mut dir = ReposMetadata::new();
    let placements = plan_upload(&mut dir, data.len() as u64, C).unwrap();
    let meta = build_manifest(&checksum, data.len() as u64, C, &placements);
    let mut out = Vec::new();
    for c in plan_chunks(data.len() as u64, C) {
        out.extend_from_slice(&chunk_bytes(data, C as usize, c.index));
    }
    let verdict = verify_assembled(&out, &meta);
    (out, verdict)
}

#[test]
fn digest_of_known_inputs() {
    assert_eq!(sha256_hex(b""), "e3b0c44298fc1c149afbf4c8996fb92427ae41e4649b934ca495991b7852b855");
    assert_eq!(sha256_hex(b"abc"), "ba7816bf8f01cfea414140de5dae2223b00361a396177a9cb410ff61f20015ad");
}

#[test]
fn round_trip_for_edge_sizes() {
    for n in [0usize, 1, C as usize, C as usize + 1, 10 * C as usize + 7] {
        let data: Vec<u8> = (0..n).map(|i| (i * 31 % 251) as u8).collect();
        let (out, verdict) = upload_then_download(&data);
        assert_eq!(out, data);
        assert_eq!(verdict, Ok(()));
        assert_eq!(sha256_hex(&out), sha256_hex(&data));
    }
}

#[test]
fn truncated_blob_fails_size_check() {
    let data: Vec<u8> = (0..(3 * C as usize + 2)).map(|i| i as u8).collect();
    let checksum = sha256_hex(&data);
    let mut dir = ReposMetadata::new();
    let placements = plan_upload(&mut dir, data.len() as u64, C).unwrap();
    let meta = build_manifest(&checksum, data.len() as u64, C, &placements);
    let mut out = data.clone();
    out.drain(C as usize..C as usize + 3);
    assert_eq!(
        verify_assembled(&out, &meta),
        Err(DownloadError::SizeMismatch { expected: data.len() as u64, actual: data.len() as u64 - 3 })
    );
}

#[test]
fn altered_blob_fails_checksum_check() {
    let data: Vec<u8> = vec![9u8; 40];
    let checksum = sha256_hex(&data);
    let mut dir = ReposMetadata::new();
    let placements = plan_upload(&mut dir, 40, C).unwrap();
    let meta = build_manifest(&checksum, 40, C, &placements);
    let mut out = data.clone();
    out[20] = 0;
    assert_eq!(verify_assembled(&out, &meta), Err(DownloadError::ChecksumMismatch));
}

#[test]
fn size_is_checked_before_checksum() {
    let data = b"hello".to_vec();
    let meta = build_manifest(&sha256_hex(&data), 5, C, &{
        let mut dir = ReposMetadata::new();
        plan_upload(&mut dir, 5, C).unwrap()
    });
    assert_eq!(check_download(4, "bogus", &meta), Err(DownloadError::SizeMismatch { expected: 5, actual: 4 }));
    assert_eq!(check_download(5, "bogus", &meta), Err(DownloadError::ChecksumMismatch));
    assert_eq!(check_download(5, &sha256_hex(&data), &meta), Ok(()));
}

#[test]
fn chunk_bytes_are_the_chunk_range() {
    let data: Vec<u8> = (0..25u8).collect();
    assert_eq!(chunk_bytes(&data, 10, 0), (0..10u8).collect::<Vec<_>>());
    assert_eq!(chunk_bytes(&data, 10, 1), (10..20u8).collect::<Vec<_>>());
    assert_eq!(chunk_bytes(&data, 10, 2), vec![20, 21, 22, 23, 24]);
}
