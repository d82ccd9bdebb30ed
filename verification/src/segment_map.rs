//! The segment map: one bit per `SEGMENT_SIZE` address window, answering
//! whether an address lies in memory the allocator owns. It spans the user
//! address space (48 bits on a 64-bit target, all 32 on a 32-bit one);
//! addresses above it are reported as not ours, a false negative and never
//! a false positive.

use vstd::prelude::*;
use crate::bitword::Bitmap;
use crate::types::SEGMENT_SIZE;

verus! {

/// `log2(SEGMENT_SIZE)`: the shift from an address to its window.
pub const WINDOW_SHIFT: usize = 25;

/// Windows the map spans: `2^(48 - 25)` on a 64-bit target, `2^(32 - 25)`
/// on a 32-bit one.
pub open spec fn spec_map_bits() -> int {
    if usize::BITS == 64 { 0x80_0000 } else { 128 }
}

/// Windows the map spans.
pub fn map_bits() -> (n: usize)
    ensures
        n == spec_map_bits(),
{
    if usize::BITS == 64 { 0x80_0000 } else { 128 }
}

/// The windows `register_range(base, size)` touches: every window that
/// `[base, base + max(size, 1))` overlaps, those the map spans.
pub open spec fn in_range_windows(base: int, size: int, w: int) -> bool {
    let m = if size > 1 { size } else { 1 };
    &&& base / (SEGMENT_SIZE as int) <= w <= (base + m - 1) / (SEGMENT_SIZE as int)
    &&& w < spec_map_bits()
}

/// The address-window bitmap.
pub struct SegmentMap {
    map: Bitmap,
}

impl SegmentMap {
    /// Window `w` is registered.
    pub closed spec fn registered(&self, w: int) -> bool {
        self.map.is_set(w)
    }

    /// The map spans every window.
    pub closed spec fn wf(&self) -> bool {
        self.map.bit_count() == spec_map_bits()
    }

    /// An empty map.
    pub fn new() -> (m: Self)
        ensures
            m.wf(),
            forall|w: int| 0 <= w < spec_map_bits() ==> !#[trigger] m.registered(w),
    {
        let words = map_bits() / 32;
        SegmentMap { map: Bitmap::new(words) }
    }

    /// Set (`on`) or clear every window that `[base, base + max(size, 1))`
    /// overlaps.
    fn mark_range(&mut self, base: usize, size: usize, on: bool)
        requires
            old(self).wf(),
            base + (if size > 1 { size as int } else { 1 }) <= usize::MAX,
        ensures
            final(self).wf(),
            forall|w: int| 0 <= w < spec_map_bits() ==> #[trigger] final(self).registered(w)
                == if in_range_windows(base as int, size as int, w) { on } else { old(self).registered(w) },
    {
        let m = if size > 1 { size } else { 1 };
        let first = base / SEGMENT_SIZE;
        let last = (base + m - 1) / SEGMENT_SIZE;
        let nbits = map_bits();
        proof {
            vstd::arithmetic::div_mod::lemma_div_is_ordered(base as int, (base + m - 1) as int, SEGMENT_SIZE as int);
            assert(last < usize::MAX);
        }
        let mut idx = first;
        while idx <= last
            invariant
                self.wf(),
                nbits == spec_map_bits(),
                first == base as int / (SEGMENT_SIZE as int),
                last == (base + m - 1) as int / (SEGMENT_SIZE as int),
                m == (if size > 1 { size as int } else { 1 }),
                last < usize::MAX,
                first <= idx <= last + 1,
                forall|w: int| 0 <= w < spec_map_bits() ==> #[trigger] self.registered(w)
                    == if first <= w < idx && w < spec_map_bits() { on } else { old(self).registered(w) },
            decreases last + 1 - idx,
        {
            let ghost prev = self.map;
            proof {
                assert forall|w: int| 0 <= w < spec_map_bits() implies #[trigger] prev.is_set(w)
                    == if first <= w < idx && w < spec_map_bits() { on } else { old(self).registered(w) } by {
                    assert(self.registered(w) == if first <= w < idx && w < spec_map_bits() { on } else { old(self).registered(w) });
                }
            }
            if idx < nbits {
                if on {
                    self.map.set(idx);
                } else {
                    self.map.clear(idx);
                }
            }
            proof {
                assert forall|w: int| 0 <= w < spec_map_bits() implies #[trigger] self.registered(w)
                    == if first <= w < idx + 1 && w < spec_map_bits() { on } else { old(self).registered(w) } by {
                    if idx < nbits {
                        if on {
                            assert(self.map.is_set(w) == (w == idx || prev.is_set(w)));
                        } else {
                            assert(self.map.is_set(w) == (w != idx && prev.is_set(w)));
                        }
                    }
                }
            }
            idx = idx + 1;
        }
    }

    /// Register every window that `[base, base + max(size, 1))` overlaps.
    pub fn register_range(&mut self, base: usize, size: usize)
        requires
            old(self).wf(),
            base + (if size > 1 { size as int } else { 1 }) <= usize::MAX,
        ensures
            final(self).wf(),
            forall|w: int| 0 <= w < spec_map_bits() ==> #[trigger] final(self).registered(w)
                == (old(self).registered(w) || in_range_windows(base as int, size as int, w)),
    {
        self.mark_range(base, size, true);
    }

    /// Unregister every window that `[base, base + max(size, 1))` overlaps.
    pub fn unregister_range(&mut self, base: usize, size: usize)
        requires
            old(self).wf(),
            base + (if size > 1 { size as int } else { 1 }) <= usize::MAX,
        ensures
            final(self).wf(),
            forall|w: int| 0 <= w < spec_map_bits() ==> #[trigger] final(self).registered(w)
                == (old(self).registered(w) && !in_range_windows(base as int, size as int, w)),
    {
        self.mark_range(base, size, false);
    }

    /// Register the single window of the segment at `seg`.
    pub fn register(&mut self, seg: usize)
        requires
            old(self).wf(),
            seg + SEGMENT_SIZE <= usize::MAX,
        ensures
            final(self).wf(),
            forall|w: int| 0 <= w < spec_map_bits() ==> #[trigger] final(self).registered(w)
                == (old(self).registered(w) || in_range_windows(seg as int, SEGMENT_SIZE as int, w)),
    {
        self.register_range(seg, SEGMENT_SIZE);
    }

    /// Unregister the single window of the segment at `seg`.
    pub fn unregister(&mut self, seg: usize)
        requires
            old(self).wf(),
            seg + SEGMENT_SIZE <= usize::MAX,
        ensures
            final(self).wf(),
            forall|w: int| 0 <= w < spec_map_bits() ==> #[trigger] final(self).registered(w)
                == (old(self).registered(w) && !in_range_windows(seg as int, SEGMENT_SIZE as int, w)),
    {
        self.unregister_range(seg, SEGMENT_SIZE);
    }

    /// Whether `addr` lies inside a registered window; an address above the
    /// map's span is not ours.
    pub fn contains(&self, addr: usize) -> (b: bool)
        requires
            self.wf(),
        ensures
            b == (addr / SEGMENT_SIZE < spec_map_bits() && self.registered((addr / SEGMENT_SIZE) as int)),
    {
        let idx = addr / SEGMENT_SIZE;
        idx < map_bits() && self.map.test(idx)
    }

    /// Whether membership has stopped being exact: never, for the window
    /// bitmap, which cannot overflow.
    pub fn range_table_overflowed(&self) -> (b: bool)
        ensures
            !b,
    {
        false
    }
}

/// A registered range is found again: every address of
/// `[base, base + max(size, 1))` below the map's span lies in a window of
/// the range.
pub proof fn lemma_registered_base_contained(base: int, size: int, a: int)
    requires
        0 <= base <= a < base + (if size > 1 { size } else { 1 }),
        a / (SEGMENT_SIZE as int) < spec_map_bits(),
    ensures
        in_range_windows(base, size, a / (SEGMENT_SIZE as int)),
{
    let m = if size > 1 { size } else { 1 };
    vstd::arithmetic::div_mod::lemma_div_is_ordered(base, a, SEGMENT_SIZE as int);
    vstd::arithmetic::div_mod::lemma_div_is_ordered(a, base + m - 1, SEGMENT_SIZE as int);
}

} // verus!
