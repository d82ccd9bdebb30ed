use rusty_alloc::slice_pool::{SlicePool, SLOTS};
use rusty_alloc::types::SEGMENT_SLICE_SIZE;

const fn sl(n: usize) -> usize {
    n * SEGMENT_SLICE_SIZE
}

#[test]
fn round_trips_and_coalesces() {
    let mut pool = SlicePool::new();
    let base = sl(4096);
    assert!(pool.free_range(base, sl(32)));
    assert!(pool.free_range(base + sl(32), sl(16)));
    assert_eq!(pool.alloc_run(48), Some(base), "coalesced run");
    assert!(pool.alloc_run(1).is_none());
    assert!(pool.free_range(base, sl(48)));
    assert_eq!(pool.alloc_run(48), Some(base));
}

#[test]
fn first_fit_skips_too_small_holes() {
    let mut pool = SlicePool::new();
    let base = sl(8192);
    assert!(pool.free_range(base, sl(16)));
    assert!(pool.free_range(base + sl(128), sl(64)));
    assert_eq!(pool.alloc_run(32), Some(base + sl(128)), "a 32-slice run must skip the 16-slice hole");
    assert_eq!(pool.alloc_run(16), Some(base));
    assert_eq!(pool.alloc_run(32), Some(base + sl(160)));
    assert!(pool.alloc_run(1).is_none());
}

#[test]
fn runs_cross_word_boundaries() {
    let mut pool = SlicePool::new();
    let base = sl(1000);
    assert!(pool.free_range(base, sl(100)));
    assert_eq!(pool.alloc_run(100), Some(base));
    assert!(pool.alloc_run(1).is_none());
}

#[test]
fn rejects_what_it_cannot_track() {
    let mut pool = SlicePool::new();
    assert!(!pool.free_range(0, sl(16)), "slice 0 must be refused");
    assert!(!pool.free_range(sl(16), 0), "empty range");
    assert!(!pool.free_range(sl(256) + 1, sl(16)), "misaligned base");
    assert!(!pool.free_range(sl(256), sl(16) + 1), "ragged size");
    assert!(!pool.free_range(sl(SLOTS - 1), sl(2)), "a run ending past SLOTS is unaddressable");
    assert!(pool.alloc_run(0).is_none());
    assert!(pool.alloc_run(SLOTS + 1).is_none());
    assert!(pool.alloc_run(1).is_none(), "a refusal leaves the pool empty");
}
