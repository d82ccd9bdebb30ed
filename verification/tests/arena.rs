use rusty_alloc::arena::{Arenas, MAX_CHUNKS};
use rusty_alloc::os::{alloc_aligned, free as os_free, page_size, OsBlock};
use rusty_alloc::prim::fixed::FixedRegion;
use rusty_alloc::types::SEGMENT_SIZE;

const ORIGIN: usize = 0x0000_4000_0000_0000;

fn backend(segments: usize) -> FixedRegion {
    let mut r = FixedRegion::new();
    r.install_region(ORIGIN, segments * SEGMENT_SIZE);
    r
}

fn drain(arenas: &mut Arenas, id: i32) -> Vec<(usize, bool)> {
    let mut held = Vec::new();
    while let Some(got) = arenas.chunk_alloc_inner(id) {
        held.push(got);
        assert!(held.len() <= MAX_CHUNKS, "drain exceeded arena capacity");
    }
    held
}

fn free_all(arenas: &mut Arenas, held: &[(usize, bool)]) {
    for &(p, _) in held {
        assert!(arenas.chunk_free(p), "drained chunk did not free back");
    }
}

#[test]
fn adopted_block_recycles_through_chunk_alloc() {
    let mut region = backend(4);
    let mut arenas = Arenas::new();
    let b = alloc_aligned(&mut region, 2 * SEGMENT_SIZE, SEGMENT_SIZE, true, false).expect("64 MiB test reservation");
    let id = arenas.adopt_os_block(b.addr, 2 * SEGMENT_SIZE).expect("adoptable block");
    let ours = [b.addr, b.addr + SEGMENT_SIZE];
    for round in 0..3 {
        let held = drain(&mut arenas, id);
        let mut got: Vec<usize> = held.iter().map(|&(p, _)| p).filter(|a| ours.contains(a)).collect();
        got.sort_unstable();
        assert_eq!(got, ours, "round {round}: adopted chunks not recycled");
        for &(p, zero) in &held {
            if ours.contains(&p) {
                assert!(!zero, "adopted chunk claimed to be zero");
            }
        }
        free_all(&mut arenas, &held);
    }
}

#[test]
fn adjacent_adoption_extends_in_place() {
    let mut region = backend(4);
    let mut arenas = Arenas::new();
    let b = alloc_aligned(&mut region, 3 * SEGMENT_SIZE, SEGMENT_SIZE, true, false).expect("96 MiB test reservation");
    let first = arenas.adopt_os_block(b.addr, SEGMENT_SIZE).expect("first block");
    let mid = b.addr + SEGMENT_SIZE;
    let second = arenas.adopt_os_block(mid, 2 * SEGMENT_SIZE).expect("adjacent block");
    assert_eq!(first, second, "adjacent block registered a new arena instead of extending");
    let (base, sz) = arenas.arena_area(first);
    assert!(base <= b.addr && base + sz >= b.addr + 3 * SEGMENT_SIZE, "extension did not publish the enlarged area");
    let ours = [b.addr, b.addr + SEGMENT_SIZE, b.addr + 2 * SEGMENT_SIZE];
    let held = drain(&mut arenas, first);
    let mut got: Vec<usize> = held.iter().map(|&(p, _)| p).filter(|a| ours.contains(a)).collect();
    got.sort_unstable();
    assert_eq!(got, ours, "extended arena did not serve all three chunks");
    for &(p, zero) in &held {
        if ours.contains(&p) {
            assert!(!zero, "extended chunk claimed to be zero");
        }
    }
    free_all(&mut arenas, &held);
}

#[test]
fn ragged_blocks_are_refused() {
    let mut region = backend(2);
    let mut arenas = Arenas::new();
    let b = alloc_aligned(&mut region, SEGMENT_SIZE, SEGMENT_SIZE, true, false).expect("32 MiB test reservation");
    let misaligned = b.addr + page_size();
    assert!(arenas.adopt_os_block(misaligned, SEGMENT_SIZE - page_size()).is_none());
    assert!(arenas.adopt_os_block(b.addr, SEGMENT_SIZE / 2).is_none());
    assert!(arenas.adopt_os_block(b.addr, 0).is_none());
    let freed = OsBlock { addr: b.addr, size: b.size, is_large: false, is_zero: false };
    os_free(&mut region, freed).expect("native free");
}

#[test]
fn a_chunk_freed_after_its_allocation_is_served_again() {
    let mut region = backend(4);
    let mut arenas = Arenas::new();
    let b = alloc_aligned(&mut region, 2 * SEGMENT_SIZE, SEGMENT_SIZE, true, false).expect("reservation");
    let id = arenas.adopt_os_block(b.addr, 2 * SEGMENT_SIZE).expect("adoptable block");
    let (p, _) = arenas.chunk_alloc_inner(id).expect("a chunk");
    assert!(arenas.chunk_free(p));
    let (q, _) = arenas.chunk_alloc_inner(id).expect("the chunk again");
    assert_eq!(p, q, "the lowest free chunk is served first");
    assert!(!arenas.chunk_free(0x10), "an address no arena holds is refused");
}
