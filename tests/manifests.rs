use gidrive::allocator::Placement;
use gidrive::manifest::{build_manifest, check_manifest, order_chunks, ChunkInfo, FileMetadata, ManifestError};
use gidrive::naming::{blob_name, shard_name};

fn rec(repo: &str, path: &str, size: u64, index: usize) -> ChunkInfo {
    ChunkInfo { repo: repo.to_string(), path: path.to_string(), size, index }
}

#[test]
fn blob_names_are_zero_padded() {
    assert_eq!(blob_name("abc", 7), "abc_0007.chunk");
    assert_eq!(blob_name("abc", 0), "abc_0000.chunk");
    assert_eq!(blob_name("abc", 12345), "abc_12345.chunk");
}

#[test]
fn shard_names_are_zero_padded() {
    assert_eq!(shard_name(1), "storage-0001");
    assert_eq!(shard_name(42), "storage-0042");
    assert_eq!(shard_name(10000), "storage-10000");
}

#[test]
fn manifest_records_every_chunk() {
    let placements = vec![
        Placement { repo: "storage-0001".to_string(), is_new: true },
        Placement { repo: "storage-0001".to_string(), is_new: false },
        Placement { repo: "storage-0002".to_string(), is_new: true },
    ];
    let m = build_manifest("ff00", 25, 10, &placements);
    assert_eq!(m.checksum, "ff00");
    assert_eq!(m.size, 25);
    assert_eq!(m.chunks.len(), 3);
    assert_eq!(m.chunks[2].repo, "storage-0002");
    assert_eq!(m.chunks[2].path, "ff00_0002.chunk");
    assert_eq!(m.chunks[2].size, 5);
    assert_eq!(m.chunks[1].index, 1);
    assert!(check_manifest(&m).is_ok());
}

#[test]
fn records_are_put_in_index_order() {
    let v = vec![rec("b", "x_0002", 3, 2), rec("a", "x_0000", 5, 0), rec("a", "x_0001", 5, 1)];
    let o = order_chunks(&v).unwrap();
    assert_eq!(o.iter().map(|c| c.index).collect::<Vec<_>>(), vec![0, 1, 2]);
    assert_eq!(o[2].path, "x_0002");
}

#[test]
fn missing_index_is_reported() {
    let v = vec![rec("a", "x", 1, 0), rec("a", "y", 1, 2)];
    assert_eq!(order_chunks(&v).unwrap_err(), ManifestError::MissingChunk(1));
}

#[test]
fn sizes_must_add_up() {
    let m = FileMetadata { checksum: "c".to_string(), size: 11, chunks: vec![rec("a", "x", 5, 0), rec("a", "y", 5, 1)] };
    assert_eq!(check_manifest(&m).unwrap_err(), ManifestError::SizeMismatch);
    let m2 = FileMetadata { checksum: "c".to_string(), size: 3, chunks: vec![rec("a", "x", 5, 0), rec("a", "y", 5, 1)] };
    assert_eq!(check_manifest(&m2).unwrap_err(), ManifestError::SizeMismatch);
}

#[test]
fn empty_manifest_is_valid() {
    let m = FileMetadata { checksum: "c".to_string(), size: 0, chunks: vec![] };
    assert!(check_manifest(&m).unwrap().is_empty());
}
