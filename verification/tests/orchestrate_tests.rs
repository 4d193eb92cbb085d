use modes_beam::orchestrate::{chunk_bounds, hex_line, merge_by_sample_index};

#[test]
fn test_merge_keeps_best_per_sample_index() {
    // Per sample index, the earliest highest score wins; output is
    // ascending by sample index.
    let items: Vec<(u64, u64)> = vec![(5, 10), (5, 20), (7, 5), (5, 20), (3, 1)];
    let winners = merge_by_sample_index(&items);
    assert_eq!(winners, vec![4, 1, 2]);
}

#[test]
fn test_merge_deterministic_across_calls() {
    // The same candidates produce the same merged set, whichever
    // worker computed them.
    let items: Vec<(u64, u64)> = vec![(9, 3), (2, 8), (9, 4), (2, 8), (11, 0)];
    let a = merge_by_sample_index(&items);
    let b = merge_by_sample_index(&items);
    assert_eq!(a, b);
    assert_eq!(a, vec![1, 2, 4]);
}

#[test]
fn test_merge_empty() {
    let items: Vec<(u64, u64)> = Vec::new();
    assert_eq!(merge_by_sample_index(&items), Vec::<usize>::new());
}

#[test]
fn test_chunk_bounds_overlap() {
    let r = chunk_bounds(1000, 3, 10);
    assert_eq!(r, vec![(0, 343), (333, 676), (666, 1000)]);
}

#[test]
fn test_chunk_bounds_overlap_capped_at_end() {
    let r = chunk_bounds(100, 2, 500);
    assert_eq!(r, vec![(0, 100), (50, 100)]);
}

#[test]
fn test_chunk_bounds_single_worker() {
    let r = chunk_bounds(64, 1, 16);
    assert_eq!(r, vec![(0, 64)]);
}

#[test]
fn test_hex_line_format() {
    let line = hex_line(&vec![0x8D, 0x4A, 0x00, 0xFF]);
    assert_eq!(line, b"*8D4A00FF;\n".to_vec());
}

#[test]
fn test_hex_line_empty_message() {
    let line = hex_line(&Vec::new());
    assert_eq!(line, b"*;\n".to_vec());
}
