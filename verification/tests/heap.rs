use rusty_alloc::arena::Arenas;
use rusty_alloc::heap::{
    calloc, check_owned, free_abandoned, free_dispatch, malloc_aligned, merged, mallocn, realloc_in_place, FreeOutcome,
    Heap, Sources, Stats,
};
use rusty_alloc::options::Options;
use rusty_alloc::prim::fixed::FixedRegion;
use rusty_alloc::segment_map::SegmentMap;
use rusty_alloc::types::{LARGE_OBJ_SIZE_MAX, MEDIUM_OBJ_SIZE_MAX, SEGMENT_SIZE, SEGMENT_SLICE_SIZE};

const ORIGIN: usize = 0x0000_4000_0000_0000;

fn sources(segments: usize) -> Sources {
    let mut region = FixedRegion::new();
    region.install_region(ORIGIN, segments * SEGMENT_SIZE);
    Sources { arenas: Arenas::new(), region, map: SegmentMap::new(), abandoned: Vec::new() }
}

#[test]
fn a_small_block_is_handed_out_and_freed() {
    let mut src = sources(8);
    let opts = Options::new();
    let mut h = Heap::new(1, -1, 0);
    let (a, zero) = h.malloc(&mut src, &opts, 24).expect("a block");
    assert!(!zero, "this backend never claims its memory zero");
    assert_eq!(a % 8, 0);
    assert_eq!(h.usable_size(a), Some(32), "24 bytes take a 32-byte block");
    assert!(h.contains_block(a));
    assert!(h.check_owned(a));
    let (b, _) = h.malloc(&mut src, &opts, 24).expect("a second block");
    assert_eq!(b, a + 32, "the next block of the same page");
    assert_eq!(h.free_local(&mut src, &opts, a), FreeOutcome::Released);
    assert_eq!(h.free_local(&mut src, &opts, a), FreeOutcome::AlreadyFree, "a double free is caught");
    assert_eq!(h.free_local(&mut src, &opts, b), FreeOutcome::Released);
}

#[test]
fn unlink_reports_whether_it_actually_unlinked() {
    let mut src = sources(8);
    let opts = Options::new();
    let mut h = Heap::new(1, -1, 0);
    let (big, _) = h.malloc(&mut src, &opts, LARGE_OBJ_SIZE_MAX + 1).expect("a huge block");
    let foreign = ORIGIN + 7 * SEGMENT_SIZE + 64;
    assert_eq!(h.free_local(&mut src, &opts, foreign), FreeOutcome::NotOurs, "a segment not ours is left alone");
    assert!(h.contains_block(big));
    assert_eq!(h.free_local(&mut src, &opts, big), FreeOutcome::Released, "ours is unlinked");
    assert!(!h.contains_block(big));
    assert_eq!(h.free_local(&mut src, &opts, big), FreeOutcome::NotOurs, "and only once");
}

#[test]
fn a_freed_block_waits_until_the_fast_list_runs_dry() {
    let mut src = sources(8);
    let opts = Options::new();
    let mut h = Heap::new(1, -1, 0);
    let (a, _) = h.malloc(&mut src, &opts, 100).expect("a block");
    let (b, _) = h.malloc(&mut src, &opts, 100).expect("a second block");
    assert_eq!(b, a + 112, "100 bytes take 112-byte blocks, handed out in address order");
    assert_eq!(h.free_local(&mut src, &opts, a), FreeOutcome::Released);
    h.collect(&mut src, &opts, false);
    let (c, zero) = h.malloc(&mut src, &opts, 100).expect("a third block");
    assert_eq!(c, b + 112, "the fresh blocks go first");
    assert!(!zero, "this backend never claims its memory zero");
    assert_eq!(h.usable_size(a + 3), Some(109), "a pointer into a block counts to its end");
}

#[test]
fn large_and_huge_requests_get_their_own_spans() {
    let mut src = sources(8);
    let opts = Options::new();
    let mut h = Heap::new(1, -1, 0);
    let (l, _) = h.malloc(&mut src, &opts, MEDIUM_OBJ_SIZE_MAX + 1).expect("a large block");
    assert_eq!(l % SEGMENT_SLICE_SIZE, 0, "a large block starts a slice");
    assert_eq!(h.usable_size(l), Some(2 * SEGMENT_SLICE_SIZE), "whole slices");
    let (g, _) = h.malloc(&mut src, &opts, LARGE_OBJ_SIZE_MAX + 1).expect("a huge block");
    assert_eq!(g % 8, 0);
    assert!(h.usable_size(g).unwrap() >= LARGE_OBJ_SIZE_MAX + 1);
    assert_eq!(h.free_local(&mut src, &opts, l), FreeOutcome::Released);
    assert_eq!(h.free_local(&mut src, &opts, g), FreeOutcome::Released);
    assert_eq!(h.usable_size(l), None, "a retired large page holds no block");
}

#[test]
fn aligned_requests_honour_alignment_and_offset() {
    let mut src = sources(8);
    let opts = Options::new();
    let mut h = Heap::new(1, -1, 0);
    for (size, align, offset) in [(10, 16, 0), (100, 64, 0), (100, 256, 8), (3000, 4096, 0), (70_000, 65536, 16)] {
        let (p, _) = h.malloc_aligned_at(&mut src, &opts, size, align, offset).expect("an aligned block");
        assert_eq!((p + offset) % align, 0, "size {size} align {align} offset {offset}");
        assert!(h.usable_size(p).unwrap() >= size);
        assert_eq!(h.free_local(&mut src, &opts, p), FreeOutcome::Released);
    }
    assert!(h.malloc_aligned_at(&mut src, &opts, 10, 24, 0).is_none(), "not a power of two");
    assert!(h.malloc_aligned_at(&mut src, &opts, 10, SEGMENT_SIZE, 0).is_none(), "past half a segment");
}

#[test]
fn counts_that_overflow_are_refused() {
    let mut src = sources(8);
    let opts = Options::new();
    let mut h = Heap::new(1, -1, 0);
    assert!(calloc(&mut h, &mut src, &opts, usize::MAX, 2).is_none());
    assert!(mallocn(&mut h, &mut src, &opts, usize::MAX / 2 + 1, 2).is_none());
    let (p, zero) = calloc(&mut h, &mut src, &opts, 4, 8).expect("32 bytes");
    assert!(!zero, "the caller clears what is not known zero");
    assert_eq!(h.usable_size(p), Some(32));
}

#[test]
fn a_remote_free_reaches_the_owner() {
    let mut src = sources(8);
    let opts = Options::new();
    let mut h = Heap::new(1, -1, 0);
    let (a, _) = h.malloc(&mut src, &opts, 48).expect("a block");
    let (b, _) = h.malloc(&mut src, &opts, 48).expect("a block");
    assert_eq!(h.free_remote(a), FreeOutcome::Released);
    assert_eq!(h.free_remote(a), FreeOutcome::AlreadyFree);
    let (l, _) = h.malloc(&mut src, &opts, MEDIUM_OBJ_SIZE_MAX + 1).expect("a large block");
    assert_eq!(h.free_remote(l), FreeOutcome::Released, "a large page routes to the delayed list");
    h.process_delayed(&mut src, &opts);
    assert_eq!(h.usable_size(l), None, "the owner retired it");
    assert_eq!(h.free_local(&mut src, &opts, b), FreeOutcome::Released);
}

#[test]
fn visiting_lists_the_blocks_handed_out() {
    let mut src = sources(8);
    let opts = Options::new();
    let mut h = Heap::new(1, -1, 7);
    let (a, _) = h.malloc(&mut src, &opts, 16).expect("a block");
    let (b, _) = h.malloc(&mut src, &opts, 16).expect("a block");
    let (c, _) = h.malloc(&mut src, &opts, 16).expect("a block");
    assert_eq!(h.free_local(&mut src, &opts, b), FreeOutcome::Released);
    let areas = h.visit_blocks(true);
    assert_eq!(areas.len(), 1, "one page");
    let (info, blocks) = &areas[0];
    assert_eq!(info.block_size, 16);
    assert_eq!(info.heap_tag, 7);
    assert_eq!(info.reserved, SEGMENT_SLICE_SIZE);
    assert_eq!(blocks, &vec![a, c]);
    assert!(h.visit_blocks(false)[0].1.is_empty());
}

#[test]
fn ownership_answers_follow_the_segment_map() {
    let mut src = sources(8);
    let opts = Options::new();
    let mut h = Heap::new(1, -1, 0);
    let (a, _) = h.malloc(&mut src, &opts, 16).expect("a block");
    assert!(check_owned(&src.map, a));
    assert!(!check_owned(&src.map, 0x1000));
    assert!(!h.contains_block(0x1000));
}

#[test]
fn guarded_sampling_hands_out_a_page_aligned_block() {
    let mut src = sources(8);
    let opts = Options::new();
    let mut h = Heap::new(1, -1, 0);
    h.guarded_set_sample_rate(1, 42);
    h.guarded_set_size_bound(0, 4096);
    let (p, zero) = h.malloc(&mut src, &opts, 100).expect("a guarded block");
    assert!(zero);
    assert_eq!(p % 4096, 0, "a guarded object is page-aligned here");
    assert_eq!(h.free_local(&mut src, &opts, p), FreeOutcome::Released);
}

#[test]
fn stats_count_the_work() {
    let mut src = sources(8);
    let opts = Options::new();
    let mut h = Heap::new(1, -1, 0);
    assert_eq!(h.stats().allocs, 0);
    let (a, _) = h.malloc(&mut src, &opts, 16).expect("a block");
    let (_b, _) = h.malloc(&mut src, &opts, 16).expect("a block");
    assert_eq!(h.stats().allocs, 2);
    assert_eq!(h.stats().generic, 1, "only the first took the general path");
    assert_eq!(h.stats().pages_fresh, 1);
    h.free_local(&mut src, &opts, a);
    assert_eq!(h.stats().frees, 1);
}

#[test]
fn a_finished_threads_segment_is_abandoned_and_adopted() {
    let mut src = sources(8);
    let opts = Options::new();
    let mut a = Heap::new(1, -1, 0);
    let (p, _) = a.malloc(&mut src, &opts, 24).expect("a block");
    let (q, _) = a.malloc(&mut src, &opts, 24).expect("a second block");
    let left = a.abandon_all(&mut src, &opts);
    assert_eq!(left.len(), 1, "the one segment with a live page is handed back");
    assert_eq!(left[0].base(), ORIGIN);
    assert_eq!(left[0].page_count(), 1);
    assert!(!a.contains_block(p), "the heap keeps nothing");
    src.abandoned = left;
    assert_eq!(free_abandoned(&mut src.abandoned, p), FreeOutcome::Released);
    assert_eq!(free_abandoned(&mut src.abandoned, p), FreeOutcome::AlreadyFree, "a double free is caught");
    assert_eq!(free_abandoned(&mut src.abandoned, ORIGIN + 5 * SEGMENT_SIZE), FreeOutcome::NotOurs);
    let mut b = Heap::new(2, -1, 0);
    b.collect(&mut src, &opts, false);
    assert_eq!(src.abandoned.len(), 1, "only a forced collect adopts");
    b.collect(&mut src, &opts, true);
    assert_eq!(src.abandoned.len(), 0, "the segment was adopted");
    assert!(b.contains_block(q), "the live block belongs to its adopter now");
    assert_eq!(b.free_local(&mut src, &opts, q), FreeOutcome::Released);
}

#[test]
fn an_abandoned_huge_block_freed_meanwhile_is_released_on_adoption() {
    let mut src = sources(8);
    let opts = Options::new();
    let mut a = Heap::new(1, -1, 0);
    let (g, _) = a.malloc(&mut src, &opts, LARGE_OBJ_SIZE_MAX + 1).expect("a huge block");
    let (h2, _) = a.malloc(&mut src, &opts, LARGE_OBJ_SIZE_MAX + 1).expect("another huge block");
    let mut left = a.abandon_all(&mut src, &opts);
    assert_eq!(left.len(), 2);
    assert_eq!(free_abandoned(&mut left, g), FreeOutcome::Released);
    assert_eq!(free_abandoned(&mut left, g), FreeOutcome::AlreadyFree);
    let mut b = Heap::new(2, -1, 0);
    let mut kept = Vec::new();
    for ab in left {
        kept.push(b.adopt_segment(&mut src, &opts, ab));
    }
    assert_eq!(kept.iter().filter(|k| **k).count(), 1, "the freed one was released");
    assert!(!b.contains_block(g));
    assert!(b.contains_block(h2));
}

#[test]
fn a_range_marks_every_window_it_overlaps() {
    let mut m = SegmentMap::new();
    m.register_range(SEGMENT_SIZE / 2, SEGMENT_SIZE);
    assert!(m.contains(SEGMENT_SIZE / 2));
    assert!(m.contains(SEGMENT_SIZE + SEGMENT_SIZE / 2 - 1), "the second window the range reaches is marked");
    assert!(!m.contains(2 * SEGMENT_SIZE));
    m.unregister_range(SEGMENT_SIZE / 2, SEGMENT_SIZE);
    assert!(!m.contains(SEGMENT_SIZE / 2));
    assert!(!m.contains(SEGMENT_SIZE + 1), "and cleared again");
}

#[test]
fn merged_counters_sum_every_field() {
    let mut a = Stats::new();
    a.guarded = 2;
    a.purges = 3;
    a.allocs = 5;
    let mut b = Stats::new();
    b.guarded = 1;
    b.purges = 4;
    b.allocs = 7;
    let t = merged(&vec![a, b]);
    assert_eq!(t.guarded, 3);
    assert_eq!(t.purges, 7);
    assert_eq!(t.allocs, 12);
}

#[test]
fn a_resize_stays_in_place_while_at_least_half_used() {
    assert!(realloc_in_place(64, 64));
    assert!(realloc_in_place(64, 32));
    assert!(!realloc_in_place(64, 31));
    assert!(!realloc_in_place(64, 65));
}

#[test]
fn a_free_goes_to_the_heap_that_holds_the_block() {
    let mut src = sources(8);
    let opts = Options::new();
    let mut heaps = vec![(1usize, Heap::new(1, -1, 0)), (2usize, Heap::new(2, -1, 0))];
    let (a, _) = heaps[1].1.malloc(&mut src, &opts, 24).expect("a block");
    assert_eq!(free_dispatch(&mut heaps, &mut src, &opts, 2, a), FreeOutcome::Released, "its owner frees it");
    assert_eq!(free_dispatch(&mut heaps, &mut src, &opts, 2, a), FreeOutcome::AlreadyFree);
    let (b, _) = heaps[1].1.malloc(&mut src, &opts, 24).expect("another block");
    assert_eq!(free_dispatch(&mut heaps, &mut src, &opts, 1, b), FreeOutcome::Released, "another thread frees it");
    assert_eq!(free_dispatch(&mut heaps, &mut src, &opts, 1, ORIGIN + 6 * SEGMENT_SIZE), FreeOutcome::NotOurs);
}

#[test]
fn a_sampled_heap_still_aligns_past_a_page() {
    let mut src = sources(8);
    let opts = Options::new();
    let mut h = Heap::new(1, -1, 0);
    h.guarded_set_sample_rate(1, 42);
    h.guarded_set_size_bound(0, 1 << 20);
    let (p, _) = malloc_aligned(&mut h, &mut src, &opts, 100, 8192).expect("an aligned block");
    assert_eq!(p % 8192, 0);
}

#[test]
fn a_seeded_sample_rate_repeats() {
    let mut a = Heap::new(1, -1, 0);
    let mut b = Heap::new(2, -1, 0);
    a.guarded_set_sample_rate(1000, 7);
    b.guarded_set_sample_rate(1000, 7);
    let mut src = sources(8);
    let opts = Options::new();
    let (x, _) = a.malloc(&mut src, &opts, 24).expect("a block");
    let (y, _) = b.malloc(&mut src, &opts, 24).expect("a block");
    assert_eq!(x % 8, 0);
    assert_eq!(y % 8, 0);
}
