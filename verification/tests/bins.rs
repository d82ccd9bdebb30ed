use rusty_alloc::bins::{bin, bin_size, div_by_block_size, exact_div_by_block_size, good_size, BIN_COUNT};
use rusty_alloc::os::{page_align_up, page_size};
use rusty_alloc::types::MEDIUM_OBJ_SIZE_MAX;

#[test]
fn bin_size_inverts_bin() {
    for size in 1..=MEDIUM_OBJ_SIZE_MAX {
        let b = bin(size);
        let bs = bin_size(b);
        assert!(bs >= size, "bin_size({b}) = {bs} < size {size}");
        assert_eq!(bin(bs), b, "bin_size({b}) = {bs} maps to bin {}", bin(bs));
        assert_eq!(good_size(good_size(size)), good_size(size));
    }
}

#[test]
fn known_size_classes() {
    for (size, good) in [
        (1, 8),
        (8, 8),
        (9, 16),
        (17, 32),
        (24, 32),
        (33, 48),
        (56, 64),
        (64, 64),
        (65, 80),
        (72, 80),
        (80, 80),
        (100, 112),
        (128, 128),
        (129, 160),
        (256, 256),
        (257, 320),
        (1024, 1024),
        (1025, 1280),
        (4097, 5120),
        (65536, 65536),
    ] {
        assert_eq!(good_size(size), good, "good_size({size})");
    }
}

#[test]
fn good_size_above_binned_range_is_page_rounded() {
    let ps = page_size();
    assert!(ps.is_power_of_two() && ps >= 4096, "implausible page size {ps}");
    for size in [
        MEDIUM_OBJ_SIZE_MAX + 1,
        MEDIUM_OBJ_SIZE_MAX + ps - 1,
        2 * MEDIUM_OBJ_SIZE_MAX,
        1024 * 1024 + 1,
    ] {
        let g = good_size(size);
        assert_eq!(g, page_align_up(size), "good_size({size})");
        assert!(g >= size, "good_size({size}) = {g} < size");
        assert_eq!(g % ps, 0, "good_size({size}) = {g} is not page-aligned");
        assert!(g - size < ps, "good_size({size}) = {g} over-rounded");
        assert_eq!(good_size(g), g, "good_size not idempotent at {g}");
    }
}

#[test]
fn fragmentation_bound() {
    for size in 65..=MEDIUM_OBJ_SIZE_MAX {
        let g = good_size(size);
        assert!(g - size <= size / 4 + 16, "waste {g}-{size} too large");
    }
}

#[test]
fn every_bin_size_has_odd_part_in_1_3_5_7() {
    for b in 1..BIN_COUNT {
        let bs = bin_size(b);
        if bs == 0 {
            continue;
        }
        let odd = bs >> bs.trailing_zeros();
        assert!(matches!(odd, 1 | 3 | 5 | 7), "bin {b} size {bs} has odd part {odd}");
    }
}

#[test]
fn div_by_block_size_equals_real_division() {
    for b in 1..BIN_COUNT {
        let bs = bin_size(b);
        if bs == 0 {
            continue;
        }
        for n in [0usize, 1, bs - 1, bs, bs + 1, 3 * bs, 3 * bs + 7, 1 << 20] {
            assert_eq!(div_by_block_size(n, bs), n / bs, "div_by_block_size({n}, {bs})");
        }
    }
}

#[test]
fn exact_form_matches_real_division_for_every_bin() {
    for b in 1..=40usize {
        let bs = bin_size(b);
        if bs == 0 {
            continue;
        }
        for k in [0usize, 1, 2, 3, 17, 255, 4095] {
            let n = k * bs;
            assert_eq!(exact_div_by_block_size(n, bs), n / bs, "bin {b} bsize {bs} multiple {k}");
        }
    }
}

#[test]
fn general_form_agrees_on_multiples_and_survives_non_multiples() {
    for b in 1..=40usize {
        let bs = bin_size(b);
        if bs == 0 {
            continue;
        }
        for k in [1usize, 9, 100] {
            let n = k * bs;
            assert_eq!(div_by_block_size(n, bs), exact_div_by_block_size(n, bs));
        }
        for d in [1usize, bs / 2, bs - 1] {
            if d == 0 || d >= bs {
                continue;
            }
            let n = 3 * bs + d;
            assert_eq!(div_by_block_size(n, bs), 3, "bin {b} offset {d}");
        }
    }
}

#[test]
fn bin_of_a_size_past_the_medium_range_is_the_huge_bin() {
    assert_eq!(bin(MEDIUM_OBJ_SIZE_MAX + 1), rusty_alloc::types::BIN_HUGE);
    assert_eq!(bin(0), 1);
    assert_eq!(bin(8), 1);
    assert_eq!(bin(9), 2);
}

#[test]
fn bins_never_shrink_as_requests_grow() {
    let mut prev = bin(0);
    for s in 1..(1usize << 18) {
        let b = bin(s);
        assert!(b >= prev, "size {s}");
        prev = b;
    }
}
