use gidrive::chunker::plan_chunks;
use gidrive::config::CHUNK_SIZE;

fn sizes(file_size: u64, chunk_size: u64) -> Vec<u64> {
    plan_chunks(file_size, chunk_size).iter().map(|c| c.size).collect()
}

#[test]
fn empty_file_has_no_chunks() {
    assert!(plan_chunks(0, CHUNK_SIZE).is_empty());
}

#[test]
fn one_byte_file_has_one_chunk() {
    assert_eq!(sizes(1, CHUNK_SIZE), vec![1]);
}

#[test]
fn exact_chunk_file_has_one_full_chunk() {
    assert_eq!(sizes(CHUNK_SIZE, CHUNK_SIZE), vec![CHUNK_SIZE]);
}

#[test]
fn chunk_plus_one_has_two_chunks() {
    assert_eq!(sizes(CHUNK_SIZE + 1, CHUNK_SIZE), vec![CHUNK_SIZE, 1]);
}

#[test]
fn ten_chunks_and_seven_bytes() {
    let s = sizes(10 * CHUNK_SIZE + 7, CHUNK_SIZE);
    assert_eq!(s.len(), 11);
    assert_eq!(s[10], 7);
    assert_eq!(s.iter().sum::<u64>(), 10 * CHUNK_SIZE + 7);
}

#[test]
fn chunks_are_indexed_and_contiguous() {
    let plan = plan_chunks(25, 10);
    assert_eq!(plan.len(), 3);
    for (i, c) in plan.iter().enumerate() {
        assert_eq!(c.index, i);
        assert_eq!(c.offset, 10 * i as u64);
    }
    assert_eq!(plan[2].size, 5);
}

#[test]
fn count_is_ceiling_and_sizes_sum_for_many_lengths() {
    for c in 1u64..8 {
        for s in 0u64..50 {
            let plan = sizes(s, c);
            assert_eq!(plan.len() as u64, (s + c - 1) / c);
            assert_eq!(plan.iter().sum::<u64>(), s);
            if s > 0 {
                let last = *plan.last().unwrap();
                assert_eq!(last, if s % c == 0 { c } else { s % c });
            }
        }
    }
}
