//! Core size constants of the allocator's geometry.

use vstd::prelude::*;

verus! {

/// Word size in bytes (`MI_INTPTR_SIZE`).
pub const INTPTR_SIZE: usize = 8;

/// Largest "small" allocation in machine words.
pub const SMALL_WSIZE_MAX: usize = 128;

/// Largest "small" allocation in bytes (1 KiB on a 64-bit target).
pub const SMALL_SIZE_MAX: usize = 1024;

/// Segment slice size: the granularity segments are carved in (64 KiB).
pub const SEGMENT_SLICE_SIZE: usize = 65536;

/// Slices per segment.
pub const SLICES_PER_SEGMENT: usize = 512;

/// Segment size (32 MiB): the unit of OS and arena reservation.
pub const SEGMENT_SIZE: usize = 33554432;

/// Index of the largest size bin.
pub const BIN_HUGE: usize = 73;

/// The full-page queue index.
pub const BIN_FULL: usize = 74;

/// Guaranteed natural alignment of every allocation of at least 16 bytes.
pub const MAX_ALIGN_SIZE: usize = 16;

/// A small page is one slice.
pub const SMALL_PAGE_SIZE: usize = 65536;

/// Slices in a medium page.
pub const MEDIUM_PAGE_SLICES: usize = 8;

/// Medium page size in bytes (512 KiB).
pub const MEDIUM_PAGE_SIZE: usize = 524288;

/// Largest object served from a small page (8 KiB).
pub const SMALL_OBJ_SIZE_MAX: usize = 8192;

/// Largest binned object (64 KiB).
pub const MEDIUM_OBJ_SIZE_MAX: usize = 65536;

/// Largest object served from an in-segment large span: every slice of a
/// segment but the header's.
pub const LARGE_OBJ_SIZE_MAX: usize = 33488896;

/// The relations between the geometry constants, stated once.
pub proof fn lemma_geometry()
    ensures
        SMALL_SIZE_MAX == SMALL_WSIZE_MAX * INTPTR_SIZE,
        SEGMENT_SIZE == SEGMENT_SLICE_SIZE * SLICES_PER_SEGMENT,
        BIN_FULL == BIN_HUGE + 1,
        SMALL_PAGE_SIZE == SEGMENT_SLICE_SIZE,
        MEDIUM_PAGE_SIZE == MEDIUM_PAGE_SLICES * SEGMENT_SLICE_SIZE,
        SMALL_OBJ_SIZE_MAX == SMALL_PAGE_SIZE / 8,
        MEDIUM_OBJ_SIZE_MAX == MEDIUM_PAGE_SIZE / 8,
        LARGE_OBJ_SIZE_MAX == (SLICES_PER_SEGMENT - 1) * SEGMENT_SLICE_SIZE,
{
}

/// Words needed to hold `size` bytes, rounded up.
pub open spec fn spec_wsize(size: int) -> int {
    (size + INTPTR_SIZE - 1) / (INTPTR_SIZE as int)
}

/// Size in machine words, rounded up.
pub fn wsize_from_size(size: usize) -> (w: usize)
    ensures
        w == spec_wsize(size as int),
        w * INTPTR_SIZE >= size,
        w * INTPTR_SIZE < size + INTPTR_SIZE,
{
    let q = size / INTPTR_SIZE;
    if size % INTPTR_SIZE == 0 {
        q
    } else {
        q + 1
    }
}

} // verus!
