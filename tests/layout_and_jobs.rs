use gidrive::commands::{create_repo, delete_repo, download_staging_name, get_metadata_dir, repo_exists, repo_url, upload_staging_name};
use gidrive::layout::{list_files, listing_name, manifest_rel_path, ConfigurationError};
use gidrive::manifest::ChunkInfo;
use gidrive::transfer::{first_failed_job, group_by_shard};

#[test]
fn control_plane_commands() {
    assert_eq!(create_repo("storage-0001"), "gh repo create test-storage-00/storage-0001 --private --confirm");
    assert_eq!(delete_repo("storage-0001"), "gh repo delete test-storage-00/storage-0001 --yes");
    assert_eq!(repo_exists("metadata"), "gh repo view test-storage-00/metadata >/dev/null 2>&1");
    assert_eq!(repo_url("storage-0003"), "git@github.com:test-storage-00/storage-0003.git");
    assert_eq!(get_metadata_dir(), "/tmp/gidrive-fds234sf/metadata");
    assert_eq!(upload_staging_name(12), "chunk_u_12");
    assert_eq!(download_staging_name(0), "chunk_0");
}

#[test]
fn manifest_paths() {
    assert_eq!(manifest_rel_path("a/b.txt").unwrap(), "a/b.txt.json");
    assert_eq!(manifest_rel_path("f").unwrap(), "f.json");
    for bad in ["", "/a", "a/", "a/..", ".", "..", "x/."] {
        assert_eq!(manifest_rel_path(bad), Err(ConfigurationError::NoFileName), "{}", bad);
    }
}

#[test]
fn listing_names() {
    assert_eq!(listing_name("a/b.txt.json").unwrap(), "a/b.txt");
    assert_eq!(listing_name("x.json").unwrap(), "x");
    assert!(listing_name(".json").is_none());
    assert!(listing_name("a/.json").is_none());
    assert!(listing_name("a/b.txt").is_none());
}

#[test]
fn listing_after_no_upload_is_empty() {
    assert!(list_files(&Vec::new()).is_empty());
}

#[test]
fn listing_after_uploads_has_one_entry_each() {
    let remotes = ["docs/a.pdf", "b", "docs/c/d.tar.gz"];
    let found: Vec<(String, u64)> = remotes
        .iter()
        .enumerate()
        .map(|(i, r)| (manifest_rel_path(r).unwrap(), 100 * i as u64 + 1))
        .collect();
    let listed = list_files(&found);
    assert_eq!(listed.len(), 3);
    for (i, r) in remotes.iter().enumerate() {
        assert_eq!(listed[i].0, *r);
        assert_eq!(listed[i].1, 100 * i as u64 + 1);
    }
}

#[test]
fn listing_skips_other_files() {
    let found = vec![("a.txt".to_string(), 1u64), ("b.json".to_string(), 2u64)];
    let listed = list_files(&found);
    assert_eq!(listed, vec![("b".to_string(), 2u64)]);
}

fn rec(repo: &str, path: &str, index: usize) -> ChunkInfo {
    ChunkInfo { repo: repo.to_string(), path: path.to_string(), size: 1, index }
}

#[test]
fn jobs_group_chunks_by_shard() {
    let chunks = vec![rec("s1", "p0", 0), rec("s2", "p1", 1), rec("s1", "p2", 2), rec("s3", "p3", 3), rec("s2", "p4", 4)];
    let jobs = group_by_shard(&chunks);
    assert_eq!(jobs.len(), 3);
    assert_eq!(jobs[0].repo, "s1");
    assert_eq!(jobs[0].items, vec![(0, "p0".to_string()), (2, "p2".to_string())]);
    assert_eq!(jobs[1].repo, "s2");
    assert_eq!(jobs[1].items, vec![(1, "p1".to_string()), (4, "p4".to_string())]);
    assert_eq!(jobs[2].items, vec![(3, "p3".to_string())]);
}

#[test]
fn no_chunks_no_jobs() {
    assert!(group_by_shard(&Vec::new()).is_empty());
}

#[test]
fn first_failure_is_surfaced() {
    assert_eq!(first_failed_job(&vec![true, true]), None);
    assert_eq!(first_failed_job(&vec![true, false, false]), Some(1));
    assert_eq!(first_failed_job(&vec![]), None);
}
