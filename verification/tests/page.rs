use rusty_alloc::bins::bin_size;
use rusty_alloc::page::{link_is_plausible, odd_mod_inverse, Page, XFlag};
use rusty_alloc::types::SEGMENT_SIZE;

const BASE: usize = 0x0000_4000_0000_0000;
const B: usize = BASE + 0x10_0000;

#[test]
fn index_matches_real_division_for_every_bin() {
    for bin in 1..=40usize {
        let bs = bin_size(bin);
        if bs == 0 {
            continue;
        }
        let k = bs.trailing_zeros();
        let odd = bs >> k;
        let inv = odd_mod_inverse(odd);
        let blocks = (64 * 1024 / bs).min(4096);
        for idx in 0..blocks {
            let delta = idx * bs;
            let got = (delta >> k).wrapping_mul(inv);
            assert_eq!(got, idx, "bin {bin} (block_size {bs}): delta {delta} gave index {got}, want {idx}");
        }
    }
}

#[test]
fn interior_pointers_map_to_the_containing_block_or_out_of_range() {
    const CAP: usize = 4096;
    let mut saw_containing = 0;
    let mut saw_garbage = 0;
    for bin in 2..=40usize {
        let bs = bin_size(bin);
        if bs <= 1 {
            continue;
        }
        let k = bs.trailing_zeros();
        let odd = bs >> k;
        let inv = odd_mod_inverse(odd);
        let base = 4usize;
        for off in 1..bs.min(64) {
            let delta = base * bs + off;
            let got = (delta >> k).wrapping_mul(inv);
            if got == base {
                saw_containing += 1;
            } else if got >= CAP {
                saw_garbage += 1;
            } else {
                panic!("bin {bin} (block_size {bs}) offset {off}: interior pointer mapped to index {got}");
            }
        }
    }
    assert!(saw_containing > 0, "no containing-block cases covered");
    assert!(saw_garbage > 0, "no out-of-range cases covered");
}

#[test]
fn accepts_genuine_links_anywhere_in_the_same_segment() {
    assert!(link_is_plausible(BASE, B), "segment's first block");
    assert!(link_is_plausible(B, B), "self-link");
    assert!(link_is_plausible(B + 16, B), "next block");
    assert!(link_is_plausible(B - 16, B), "previous block");
    assert!(link_is_plausible(B + 4096, B), "forward link");
    assert!(link_is_plausible(B - 4096, B), "backward link");
    assert!(link_is_plausible(BASE + SEGMENT_SIZE - 16, B), "last aligned slot in the segment");
}

#[test]
fn rejects_every_misalignment() {
    for off in 1..8usize {
        assert!(!link_is_plausible(B + off, B), "misaligned by {off}");
    }
}

#[test]
fn rejects_aligned_targets_outside_the_segment() {
    assert!(!link_is_plausible(BASE + SEGMENT_SIZE, B), "first byte of the NEXT segment");
    assert!(!link_is_plausible(BASE - 16, B), "last slot of the PREVIOUS segment");
    assert!(!link_is_plausible(0x0000_7fff_ffff_e000, B), "a stack-shaped address");
    assert!(!link_is_plausible(0x0000_0000_0040_1000, B), "a GOT-shaped address");
}

#[test]
fn the_segment_bound_is_exact() {
    assert!(link_is_plausible(BASE + SEGMENT_SIZE - 16, B));
    assert!(!link_is_plausible(BASE + SEGMENT_SIZE, B));
    assert!(link_is_plausible(BASE, B));
    assert!(!link_is_plausible(BASE - 16, B));
}

#[test]
fn does_not_stop_intra_segment_redirection() {
    assert!(link_is_plausible(B + 16, B), "the neighbouring block is reachable by design");
    assert!(link_is_plausible(B + 0x10_0000, B), "1 MiB away, still the same segment");
}

fn page_of_16_byte_blocks() -> Page {
    // A page over one 64 KiB slice at BASE + 64 KiB, blocks of 16 bytes.
    Page::new(BASE, 1, BASE + 0x1_0000, 16, 4096, 1, 2, 0, true, 0)
}

#[test]
fn extend_hands_out_blocks_lowest_address_first() {
    let mut p = page_of_16_byte_blocks();
    assert_eq!(p.pop(), None, "a fresh page has nothing on its fast list");
    p.extend();
    assert_eq!(p.capacity(), 256, "one step of 4 KiB worth of 16-byte blocks");
    assert_eq!(p.pop(), Some(BASE + 0x1_0000));
    assert_eq!(p.pop(), Some(BASE + 0x1_0000 + 16));
    assert_eq!(p.used(), 2);
    assert!(p.free_is_zero());
}

#[test]
fn push_local_then_collect_recycles_the_block() {
    let mut p = page_of_16_byte_blocks();
    p.extend();
    let a = p.pop().unwrap();
    let i = p.block_index(a);
    assert_eq!(i, 0);
    assert!(p.block_is_allocated(i));
    assert_eq!(p.push_local(i), 0, "the page is empty again");
    assert!(!p.block_is_allocated(i));
    assert!(p.all_free());
    // Drain the fast list, then collect: the owner's free comes back.
    while p.pop().is_some() {}
    p.collect();
    assert_eq!(p.pop(), Some(a));
    assert!(!p.free_is_zero(), "a recycled block is not known zero");
}

#[test]
fn a_remote_free_waits_for_the_owners_collect() {
    let mut p = page_of_16_byte_blocks();
    p.extend();
    let a = p.pop().unwrap();
    let i = p.block_index(a + 5);
    assert_eq!(i, 0, "an interior pointer maps to its block");
    assert!(p.remote_free(i), "a normal page takes the free itself");
    assert!(!p.block_is_allocated(i));
    assert_eq!(p.used(), 1, "counted by the owner only at collect");
    p.collect();
    assert_eq!(p.used(), 0);
    p.set_xflag(XFlag::Delayed);
    let b = p.pop().unwrap();
    let j = p.block_index(b);
    assert!(!p.remote_free(j), "a page routing to its owner leaves the free to the caller");
    assert!(p.block_is_allocated(j));
}

#[test]
fn live_blocks_lists_what_is_handed_out() {
    let mut p = page_of_16_byte_blocks();
    p.extend();
    let a = p.pop().unwrap();
    let b = p.pop().unwrap();
    let c = p.pop().unwrap();
    let ib = p.block_index(b);
    p.push_local(ib);
    assert_eq!(p.live_blocks(), vec![a, c]);
    assert_eq!(p.peek(), Some(c + 16));
}

#[test]
fn the_empty_sentinel_hands_nothing_out() {
    let mut p = Page::empty_sentinel();
    assert_eq!(p.block_size(), 8);
    assert_eq!(p.bin(), 0);
    assert_eq!(p.flags(), 0);
    assert!(!p.free_is_zero());
    assert_eq!(p.used(), 0);
    assert_eq!(p.pop(), None);
}
