use gidrive::allocator::{find_or_create_repo_for_chunk, name_less, plan_upload, AllocError, RepoInfo, ReposMetadata};
use gidrive::config::MAX_SIZE_PER_REPO;

fn dir(entries: &[(&str, u64)], next_id: usize) -> ReposMetadata {
    ReposMetadata {
        next_id,
        repos: entries.iter().map(|(n, s)| RepoInfo { name: n.to_string(), current_size: *s }).collect(),
    }
}

#[test]
fn empty_directory_opens_first_shard() {
    let mut d = ReposMetadata::new();
    let p = find_or_create_repo_for_chunk(&mut d, 10).unwrap();
    assert_eq!(p.repo, "storage-0001");
    assert!(p.is_new);
    assert_eq!(d.next_id, 2);
    assert_eq!(d.repos.len(), 1);
    assert_eq!(d.repos[0].current_size, 10);
}

#[test]
fn first_fit_picks_first_shard_with_room() {
    let mut d = dir(&[("storage-0001", MAX_SIZE_PER_REPO - 5), ("storage-0002", 100), ("storage-0003", 0)], 4);
    let p = find_or_create_repo_for_chunk(&mut d, 10).unwrap();
    assert_eq!(p.repo, "storage-0002");
    assert!(!p.is_new);
    assert_eq!(d.repos[1].current_size, 110);
    assert_eq!(d.repos[0].current_size, MAX_SIZE_PER_REPO - 5);
    assert_eq!(d.next_id, 4);
}

#[test]
fn exact_fit_is_accepted() {
    let mut d = dir(&[("storage-0001", MAX_SIZE_PER_REPO - 10)], 2);
    let p = find_or_create_repo_for_chunk(&mut d, 10).unwrap();
    assert_eq!(p.repo, "storage-0001");
    assert_eq!(d.repos[0].current_size, MAX_SIZE_PER_REPO);
}

#[test]
fn full_directory_opens_new_shard() {
    let mut d = dir(&[("storage-0001", MAX_SIZE_PER_REPO)], 2);
    let p = find_or_create_repo_for_chunk(&mut d, 1).unwrap();
    assert_eq!(p.repo, "storage-0002");
    assert!(p.is_new);
    assert_eq!(d.next_id, 3);
    assert_eq!(d.repos.len(), 2);
}

#[test]
fn oversized_chunk_is_rejected() {
    let mut d = ReposMetadata::new();
    let r = find_or_create_repo_for_chunk(&mut d, MAX_SIZE_PER_REPO + 1);
    assert!(matches!(r, Err(AllocError::ChunkTooLarge)));
    assert_eq!(d.repos.len(), 0);
    assert_eq!(d.next_id, 1);
}

#[test]
fn exhausted_counter_is_reported() {
    let mut d = dir(&[("storage-0001", MAX_SIZE_PER_REPO)], usize::MAX);
    let r = find_or_create_repo_for_chunk(&mut d, 1);
    assert!(matches!(r, Err(AllocError::ShardIdsExhausted)));
}

#[test]
fn capacity_never_exceeded_over_many_allocations() {
    let mut d = ReposMetadata::new();
    let sizes = [7u64, 3, 12, 20, 1, 19, 5, 5, 5, 20, 2];
    let scale = MAX_SIZE_PER_REPO / 20;
    for s in sizes.iter() {
        find_or_create_repo_for_chunk(&mut d, s * scale).unwrap();
        assert!(d.is_well_formed());
        for r in &d.repos {
            assert!(r.current_size <= MAX_SIZE_PER_REPO);
        }
    }
    let total: u64 = d.repos.iter().map(|r| r.current_size).sum();
    assert_eq!(total, sizes.iter().sum::<u64>() * scale);
}

#[test]
fn allocation_is_deterministic() {
    let start = dir(&[("storage-0001", 5), ("storage-0002", MAX_SIZE_PER_REPO - 1)], 3);
    let run = || {
        let mut d = start.clone();
        let placed = plan_upload(&mut d, 50 * 1024 * 1024 + 3, 2 * 1024 * 1024).unwrap();
        (placed.iter().map(|p| (p.repo.clone(), p.is_new)).collect::<Vec<_>>(),
         d.repos.iter().map(|r| (r.name.clone(), r.current_size)).collect::<Vec<_>>(), d.next_id)
    };
    assert_eq!(run(), run());
}

#[test]
fn plan_upload_places_every_chunk() {
    let mut d = ReposMetadata::new();
    let placed = plan_upload(&mut d, 10 * 2 * 1024 * 1024 + 7, 2 * 1024 * 1024).unwrap();
    assert_eq!(placed.len(), 11);
    assert_eq!(placed[0].repo, "storage-0001");
    assert!(placed[0].is_new);
    assert!(!placed[1].is_new);
    assert_eq!(placed[10].repo, "storage-0002");
    assert!(placed[10].is_new);
    assert_eq!(d.repos[0].current_size, MAX_SIZE_PER_REPO);
    assert_eq!(d.repos[1].current_size, 7);
}

#[test]
fn plan_upload_of_empty_file_changes_nothing() {
    let mut d = ReposMetadata::new();
    let placed = plan_upload(&mut d, 0, 1024).unwrap();
    assert!(placed.is_empty());
    assert_eq!(d.next_id, 1);
    assert!(d.repos.is_empty());
}

#[test]
fn malformed_directory_is_detected() {
    assert!(!dir(&[("a", 1), ("a", 2)], 1).is_well_formed());
    assert!(!dir(&[("a", MAX_SIZE_PER_REPO + 1)], 1).is_well_formed());
    assert!(dir(&[("a", 1), ("b", 2)], 1).is_well_formed());
    assert!(!dir(&[("b", 1), ("a", 2)], 1).is_well_formed());
}

#[test]
fn new_shard_goes_where_its_name_sorts() {
    let mut d = dir(&[("storage-9999", MAX_SIZE_PER_REPO)], 10000);
    let p = find_or_create_repo_for_chunk(&mut d, 1).unwrap();
    assert_eq!(p.repo, "storage-10000");
    assert_eq!(d.repos[0].name, "storage-10000");
    assert_eq!(d.repos[1].name, "storage-9999");
    assert!(d.is_well_formed());
}

#[test]
fn shards_are_scanned_in_name_order() {
    let mut d = dir(&[("storage-0001", MAX_SIZE_PER_REPO), ("zzz", MAX_SIZE_PER_REPO - 4)], 2);
    let a = find_or_create_repo_for_chunk(&mut d, 5).unwrap();
    assert_eq!(a.repo, "storage-0002");
    let b = find_or_create_repo_for_chunk(&mut d, 4).unwrap();
    assert_eq!(b.repo, "storage-0002");
    assert_eq!(d.repos[1].current_size, 9);
    assert_eq!(d.repos[2].current_size, MAX_SIZE_PER_REPO - 4);
}

#[test]
fn name_order_matches_string_order() {
    let names = ["", "a", "ab", "b", "storage-10000", "storage-9999", "\u{e9}", "Z"];
    for x in names.iter() {
        for y in names.iter() {
            assert_eq!(name_less(&x.to_string(), &y.to_string()), x < y, "{:?} {:?}", x, y);
        }
    }
}

fn total(d: &ReposMetadata) -> u64 {
    d.repos.iter().map(|r| r.current_size).sum()
}

#[test]
fn stale_counter_never_overwrites_a_shard() {
    let mut d = dir(&[("storage-0001", MAX_SIZE_PER_REPO), ("storage-0002", MAX_SIZE_PER_REPO)], 2);
    let r = find_or_create_repo_for_chunk(&mut d, 4);
    assert!(matches!(r, Err(AllocError::ShardNameTaken)));
    assert_eq!(d.next_id, 2);
    assert_eq!(d.repos[1].current_size, MAX_SIZE_PER_REPO);
}

#[test]
fn stale_counter_with_room_elsewhere_still_allocates() {
    let mut d = dir(&[("storage-0005", 15 * 1024 * 1024)], 5);
    let r = find_or_create_repo_for_chunk(&mut d, 10 * 1024 * 1024);
    assert!(matches!(r, Err(AllocError::ShardNameTaken)));
    assert_eq!(d.repos[0].current_size, 15 * 1024 * 1024);
    let p = find_or_create_repo_for_chunk(&mut d, 1024).unwrap();
    assert_eq!(p.repo, "storage-0005");
}

#[test]
fn reservations_grow_by_exactly_the_file_size() {
    let mut d = dir(&[("storage-0001", 7), ("storage-0003", MAX_SIZE_PER_REPO - 3)], 4);
    let before = total(&d);
    let size = 45 * 1024 * 1024 + 11;
    plan_upload(&mut d, size, 2 * 1024 * 1024).unwrap();
    assert_eq!(total(&d), before + size);
    assert_eq!(d.repos[0].name, "storage-0001");
    assert!(d.repos[0].current_size >= 7);
    assert!(d.repos.iter().any(|r| r.name == "storage-0003" && r.current_size >= MAX_SIZE_PER_REPO - 3));
    assert!(d.next_id >= 4);
}
