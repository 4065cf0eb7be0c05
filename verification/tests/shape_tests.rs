use double_priority_queue::heapshape::better_to_rebuild;
use double_priority_queue::heapshape::left;
use double_priority_queue::heapshape::level;
use double_priority_queue::heapshape::log2_fast;
use double_priority_queue::heapshape::parent;
use double_priority_queue::heapshape::right;

#[test]
fn index_arithmetic() {
    assert_eq!(left(0), 1);
    assert_eq!(right(0), 2);
    assert_eq!(left(3), 7);
    assert_eq!(right(3), 8);
    assert_eq!(parent(1), 0);
    assert_eq!(parent(2), 0);
    assert_eq!(parent(8), 3);
}

#[test]
fn levels_alternate_from_the_root() {
    assert_eq!(level(0), 0);
    assert_eq!(level(1), 1);
    assert_eq!(level(2), 1);
    assert_eq!(level(3), 2);
    assert_eq!(level(6), 2);
    assert_eq!(level(7), 3);
    assert_eq!(level(14), 3);
}

#[test]
fn log2_fast_is_the_floored_logarithm() {
    assert_eq!(log2_fast(1), 0);
    assert_eq!(log2_fast(2), 1);
    assert_eq!(log2_fast(3), 1);
    assert_eq!(log2_fast(4), 2);
    assert_eq!(log2_fast(1023), 9);
    assert_eq!(log2_fast(1024), 10);
}

#[test]
fn rebuild_heuristic() {
    // a tiny existing heap is never worth a rebuild
    assert!(!better_to_rebuild(0, 100));
    assert!(!better_to_rebuild(1, 100));
    // 2 * (1024 + 1000) = 4048 < 1000 * 10
    assert!(better_to_rebuild(1024, 1000));
    // 2 * (1024 + 10) = 2068 >= 10 * 10
    assert!(!better_to_rebuild(1024, 10));
}
