use sieve::batch_count;

#[test]
fn test_short_batch_count() {
    assert_eq!(batch_count(4), 1);
}

#[test]
fn test_normal_batch_count() {
    assert_eq!(batch_count(10), 3);
    assert_eq!(batch_count(16), 9);
}

#[test]
fn test_huge_batch_count() {
    // For values having more than usize size
    assert_eq!(batch_count(128), 121);
    assert_eq!(batch_count(4096), 4089);
}

#[test]
fn test_batch_count_edges() {
    assert_eq!(batch_count(0), 1);
    assert_eq!(batch_count(8), 1);
    assert_eq!(batch_count(9), 2);
}
