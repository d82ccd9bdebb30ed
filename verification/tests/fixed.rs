use rusty_alloc::prim::fixed::{
    dedicated_segments, good_region_size, mem_init, numa_node_count, protect, region_for, region_for_allocs,
    shape_of, thread_id, usable_bytes, FixedRegion, TickClock, FERR_GEOMETRY, FERR_REGISTERED, FERR_TOO_SMALL,
    FIXED_PAGE, LARGEST_SHARED_ALLOC, MIN_REGION, REGION_ALIGN, Region,
};
use rusty_alloc::types::{SEGMENT_SIZE, SEGMENT_SLICE_SIZE, SMALL_OBJ_SIZE_MAX, SMALL_SIZE_MAX, SMALL_WSIZE_MAX};

fn free_total(r: &FixedRegion) -> usize {
    r.region_stats().1
}

#[test]
fn serves_and_recycles_a_static_region() {
    const N: usize = 512 * 1024 + FIXED_PAGE;
    // A window 0x1f0 bytes past a 64 KiB line: on the 16-byte grid, off the
    // segment grid.
    let rp: usize = 0x0000_5000_0000_0000 + 0x1f0;
    assert_eq!(rp % REGION_ALIGN, 0, "on the grid the base needs");
    let mut region = FixedRegion::new();
    assert_eq!(region.init_region(rp, 0), Err(FERR_TOO_SMALL), "a region below one page is refused, and says which");
    assert_eq!(usable_bytes(rp, N), 0);
    assert_eq!(
        region.init_region(rp, N),
        Err(FERR_GEOMETRY),
        "a region that cannot hold one segment is refused BEFORE the board"
    );
    region.install_region(rp, N);
    assert_eq!(free_total(&region), N, "the whole region starts free");
    assert_eq!(region.free_extents().len(), 1, "as one extent");
    assert_eq!(region.init_region(0x0000_6000_0000_0000, MIN_REGION), Err(FERR_REGISTERED), "no second region");

    let a = region.alloc_block(64 * 1024, FIXED_PAGE, true, false).expect("a");
    let b = region.alloc_block(128 * 1024, FIXED_PAGE, true, false).expect("b");
    let c = region.alloc_block(64 * 1024, FIXED_PAGE, true, false).expect("c");
    assert_eq!(free_total(&region), N - 256 * 1024, "three blocks are out");
    assert!(!a.is_zero, "recycled memory is never claimed zero");
    let base = region.stride_base();
    for (p, len) in [(a.addr, 64 * 1024), (b.addr, 128 * 1024), (c.addr, 64 * 1024)] {
        let off = p - base;
        assert!(off + len <= N, "block lies inside the region");
    }
    assert_ne!(a.addr, b.addr);
    assert_ne!(b.addr, c.addr);

    let holes = region.free_extents().len();
    region.free(b.addr, 128 * 1024).expect("free b");
    assert_eq!(free_total(&region), N - 128 * 1024);
    assert_eq!(region.free_extents().len(), holes + 1, "an isolated hole");
    region.free(a.addr, 64 * 1024).expect("free a");
    region.free(c.addr, 64 * 1024).expect("free c");
    assert_eq!(free_total(&region), N, "the whole region is back");
    assert_eq!(region.free_extents().len(), 1, "coalesced into one extent");

    let d = region.alloc_block(256 * 1024, FIXED_PAGE, true, false).expect("d");
    assert_eq!(free_total(&region), N - 256 * 1024);
    region.free(d.addr, 256 * 1024).expect("free d");
    assert_eq!(free_total(&region), N);

    let seg = region.alloc_block(SEGMENT_SIZE, SEGMENT_SIZE, true, false);
    assert!(seg.is_err(), "a segment cannot come out of a 512 KiB region");
    assert_eq!(free_total(&region), N, "a refused request leaves the list untouched");
}

#[test]
fn range_not_free_tells_a_live_block_from_a_free_one() {
    let rp: usize = 0x0000_5000_0000_0000;
    let mut region = FixedRegion::new();
    region.install_region(rp, 1024 * 1024);
    let a = region.alloc_block(64 * 1024, FIXED_PAGE, true, false).expect("a");
    assert!(region.range_not_free(a.addr, 64 * 1024), "a block handed out is not free");
    region.free(a.addr, 64 * 1024).expect("free a");
    assert!(!region.range_not_free(a.addr, 64 * 1024), "a returned block is free");
    assert!(region.range_not_free(0x10, 16), "outside the region nothing is free");
}

#[test]
fn good_region_size_strands_nothing() {
    let seg = SEGMENT_SIZE;
    let budget = 220 * 1024;
    let good = good_region_size(budget);
    assert!(good <= budget, "a budget is a ceiling");
    assert!(budget < MIN_REGION);
    assert_eq!(good, 0, "no zero-waste region fits a budget below the floor");
    assert_eq!(good_region_size(0), 0);
    assert_eq!(good_region_size(MIN_REGION - 1), 0);
    assert_eq!(good_region_size(MIN_REGION), MIN_REGION);
    let mut b = MIN_REGION;
    while b < 40 * seg {
        let g = good_region_size(b);
        assert!(g <= b && g >= MIN_REGION);
        assert_eq!(g % seg, 0, "k * SEGMENT_SIZE");
        assert_eq!(usable_bytes(0, g), g);
        assert!(g + seg > b, "not the largest: {g} for budget {b}");
        b += 4093;
    }
    let need: usize = 192 * 1024;
    let k = need.div_ceil(seg);
    assert_eq!(region_for(need), k * seg);
    assert_eq!(usable_bytes(0, region_for(need)), k * seg);
    assert_eq!(region_for(1), seg, "one byte still costs a segment");
    assert_eq!(region_for(0), MIN_REGION, "and so does zero");
    assert_eq!(region_for(seg + 1), 2 * seg, "a byte over rounds up");
    let mut u = 1;
    while u < 40 * seg {
        let r = region_for(u);
        assert!(usable_bytes(0, r) >= u, "region_for({u}) = {r} serves too little");
        assert!(usable_bytes(0, r - seg) < u || r - seg < MIN_REGION, "region_for({u}) = {r} is not the smallest");
        assert_eq!(good_region_size(r), r, "a region_for answer is already a good size");
        u += 4093;
    }
}

#[test]
fn dedicated_segments_names_the_large_allocation_cliff() {
    let seg = SEGMENT_SIZE;
    let slice = SEGMENT_SLICE_SIZE;
    assert_eq!(dedicated_segments(0), 0);
    assert_eq!(dedicated_segments(1), 0);
    assert_eq!(dedicated_segments(LARGEST_SHARED_ALLOC), 0);
    assert_eq!(LARGEST_SHARED_ALLOC, seg - slice, "the header owns slice 0");
    assert_eq!(dedicated_segments(LARGEST_SHARED_ALLOC + 1), 2);
    assert_eq!(dedicated_segments(seg), 2);
    assert_eq!(dedicated_segments(2 * seg), 3);
    let mut prev = 0;
    let mut size = 0;
    while size < 5 * seg {
        let d = dedicated_segments(size);
        assert!(d >= prev, "cost cannot fall as the request grows");
        if d > 0 {
            assert!(d * seg >= size + slice, "must hold header plus payload");
        }
        prev = d;
        size += slice / 2 + 1;
    }
    let three = region_for_allocs(seg, 3);
    assert_eq!(three % seg, 0, "whole segments");
    assert_eq!(good_region_size(three), three, "already a good size");
    assert_eq!(three, (3 * dedicated_segments(seg) + 1) * seg, "three dedicated runs, plus one segment");
}

#[test]
fn a_misaligned_exact_region_is_refused_not_served_short() {
    let two = 2 * SEGMENT_SIZE;
    assert!(usable_bytes(SEGMENT_SIZE + 1, two) < usable_bytes(0, two));
    assert_eq!(usable_bytes(SEGMENT_SIZE + 1, two), SEGMENT_SIZE);
    let n = good_region_size(220 * 1024);
    assert_eq!(n, 0);
}

#[test]
fn the_direct_route_boundary_moves_with_pointer_width() {
    assert_eq!(SMALL_SIZE_MAX, SMALL_WSIZE_MAX * core::mem::size_of::<usize>());
    assert!(shape_of(SMALL_SIZE_MAX).direct_route);
    assert!(!shape_of(SMALL_SIZE_MAX + 1).direct_route);
    if core::mem::size_of::<usize>() == 8 {
        assert_eq!(SMALL_SIZE_MAX, 1024);
    }
    assert_eq!(SMALL_OBJ_SIZE_MAX, SEGMENT_SLICE_SIZE / 8);
    let coincide = SMALL_SIZE_MAX == SMALL_OBJ_SIZE_MAX;
    assert_eq!(coincide, SMALL_WSIZE_MAX * core::mem::size_of::<usize>() == SEGMENT_SLICE_SIZE / 8);
    assert!(shape_of(16).page_bytes <= shape_of(SMALL_OBJ_SIZE_MAX).page_bytes);
    assert!(shape_of(SMALL_OBJ_SIZE_MAX + 1).page_bytes > shape_of(SMALL_OBJ_SIZE_MAX).page_bytes);
    assert_eq!(shape_of(16).dedicated_segments, 0);
    assert!(shape_of(LARGEST_SHARED_ALLOC + 1).dedicated_segments >= 1);
}

#[test]
fn usable_bytes_answers_the_question_a_firmware_asks() {
    let seg = SEGMENT_SIZE;
    assert_eq!(usable_bytes(0, MIN_REGION), seg, "MIN_REGION buys a segment");
    assert_eq!(usable_bytes(0, MIN_REGION - 1), 0, "one byte short buys none");
    assert_eq!(usable_bytes(0, seg), seg, "a bare segment is a segment");
    assert_eq!(usable_bytes(FIXED_PAGE, MIN_REGION), seg);
    assert_eq!(usable_bytes(REGION_ALIGN, MIN_REGION), seg);
    assert_eq!(usable_bytes(3 * seg + 5 * REGION_ALIGN, MIN_REGION), seg);
    assert_eq!(usable_bytes(REGION_ALIGN + 1, MIN_REGION), 0, "a base off the grid eats the segment");
    assert_eq!(usable_bytes(REGION_ALIGN + 1, MIN_REGION + REGION_ALIGN), seg, "sixteen bytes of slack absorb it");
    let three_and_a_bit = 3 * seg + seg / 2;
    assert_eq!(usable_bytes(0, three_and_a_bit), 3 * seg);
    let stranded = three_and_a_bit - usable_bytes(0, three_and_a_bit);
    assert_eq!(stranded, seg / 2, "and the strand is exactly the ragged part");
}

#[test]
fn no_mmu_semantics_are_explicit() {
    let cfg = mem_init();
    assert_eq!(cfg.page_size, FIXED_PAGE);
    assert_eq!(cfg.large_page_size, 0, "no large pages without an MMU");
    assert!(!cfg.has_overcommit, "nothing to overcommit");
    assert!(cfg.has_partial_free, "any extent can be returned");
    assert_ne!(thread_id(), 0, "zero is the abandoned-segment sentinel");
    assert_eq!(numa_node_count(), 1);
    let mut clock = TickClock::new();
    assert!(clock.clock_now() < clock.clock_now());
    assert!(protect(0, FIXED_PAGE, true).is_err(), "a guard page that cannot trap must not report success");
}

#[test]
fn region_type_is_aligned_and_unpadded() {
    assert_eq!(
        core::mem::align_of::<Region<MIN_REGION>>(),
        REGION_ALIGN,
        "16 bytes: segments stride from the base, so the type owes the linker no gap"
    );
    assert_eq!(
        core::mem::size_of::<Region<MIN_REGION>>(),
        MIN_REGION,
        "a whole-segment region carries no padding"
    );
    assert_eq!(Region::<MIN_REGION>::usable_size(), SEGMENT_SIZE);
}
