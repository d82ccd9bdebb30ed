//! A pool of free segment slices over a 4 GiB address space, for a platform
//! where memory never returns to the host: one bit per slice, set while the
//! slice is free and pool-owned. Runs are served first fit, and freeing sets
//! bits, so adjacent ranges coalesce by construction.

use vstd::prelude::*;
use crate::types::SEGMENT_SLICE_SIZE;
use crate::bitword::Bitmap;

verus! {

/// `log2(SEGMENT_SLICE_SIZE)`.
pub const SLICE_SHIFT: usize = 16;

/// Slices in 4 GiB of address space.
pub const SLOTS: usize = 65536;

/// Bits per pool word.
pub const WORD_BITS: usize = 32;

/// Words in the bitmap.
pub const WORDS: usize = 2048;

/// The free-slice bitmap.
pub struct SlicePool {
    free: Bitmap,
}

impl SlicePool {
    /// Slice `i` is free and pool-owned.
    pub closed spec fn slot_free(&self, i: int) -> bool {
        self.free.is_set(i)
    }

    /// The bitmap covers every slot.
    pub closed spec fn wf(&self) -> bool {
        self.free.word_count() == WORDS
    }

    /// Slices `start .. start + n` are all free.
    pub open spec fn run_free(&self, start: int, n: int) -> bool {
        forall|k: int| start <= k < start + n ==> #[trigger] self.slot_free(k)
    }

    /// `start` begins the lowest run of `n` free slices.
    pub open spec fn first_run(&self, start: int, n: int) -> bool {
        &&& 0 <= start
        &&& start + n <= SLOTS
        &&& self.run_free(start, n)
        &&& forall|s: int| 0 <= s < start ==> !#[trigger] self.run_free(s, n)
    }

    /// `free_range` takes `[base, base + size)`: slice-granular, not empty,
    /// not slice 0, and addressable by the map.
    pub open spec fn accepts(base: int, size: int) -> bool {
        &&& base >= SEGMENT_SLICE_SIZE
        &&& size > 0
        &&& base % (SEGMENT_SLICE_SIZE as int) == 0
        &&& size % (SEGMENT_SLICE_SIZE as int) == 0
        &&& base / (SEGMENT_SLICE_SIZE as int) + size / (SEGMENT_SLICE_SIZE as int) <= SLOTS
    }

    /// An empty pool.
    pub fn new() -> (p: Self)
        ensures
            p.wf(),
            forall|i: int| 0 <= i < SLOTS ==> !#[trigger] p.slot_free(i),
    {
        SlicePool { free: Bitmap::new(WORDS) }
    }

    /// Return `[base, base + size)` to the pool. `false`, and no change, when
    /// the range is not slice-granular, is empty, starts at slice 0 (the null
    /// page, which keeps a run at 0 distinct from none), or runs past the
    /// map. None of its slices may already be free.
    pub fn free_range(&mut self, base: usize, size: usize) -> (ok: bool)
        requires
            old(self).wf(),
            Self::accepts(base as int, size as int) ==> forall|i: int|
                base / SEGMENT_SLICE_SIZE <= i < (base + size) / (SEGMENT_SLICE_SIZE as int) ==> !#[trigger] old(self).slot_free(i),
        ensures
            final(self).wf(),
            ok == Self::accepts(base as int, size as int),
            ok ==> forall|i: int| 0 <= i < SLOTS ==> #[trigger] final(self).slot_free(i)
                == (old(self).slot_free(i) || base / SEGMENT_SLICE_SIZE <= i < (base + size) / (SEGMENT_SLICE_SIZE as int)),
            !ok ==> *final(self) == *old(self),
    {
        if base < SEGMENT_SLICE_SIZE || size == 0 || base % SEGMENT_SLICE_SIZE != 0 || size % SEGMENT_SLICE_SIZE != 0 {
            return false;
        }
        let start = base / SEGMENT_SLICE_SIZE;
        let n = size / SEGMENT_SLICE_SIZE;
        let end = match start.checked_add(n) {
            Some(e) => e,
            None => { return false; },
        };
        if end > SLOTS {
            return false;
        }
        proof {
            vstd::arithmetic::div_mod::lemma_fundamental_div_mod(base as int, SEGMENT_SLICE_SIZE as int);
            vstd::arithmetic::div_mod::lemma_fundamental_div_mod(size as int, SEGMENT_SLICE_SIZE as int);
            assert((base + size) / (SEGMENT_SLICE_SIZE as int) == end) by {
                vstd::arithmetic::div_mod::lemma_fundamental_div_mod_converse(base + size, SEGMENT_SLICE_SIZE as int, end as int, 0);
            }
        }
        let mut idx = start;
        while idx < end
            invariant
                self.wf(),
                start <= idx <= end,
                end <= SLOTS,
                forall|i: int| 0 <= i < SLOTS ==> #[trigger] self.slot_free(i) == (old(self).slot_free(i) || start <= i < idx),
            decreases end - idx,
        {
            let ghost prev = self.free;
            proof {
                assert forall|i: int| 0 <= i < SLOTS implies #[trigger] prev.is_set(i) == (old(self).slot_free(i) || start <= i < idx) by {
                    assert(self.slot_free(i) == (old(self).slot_free(i) || start <= i < idx));
                }
            }
            self.free.set(idx);
            proof {
                assert forall|i: int| 0 <= i < SLOTS implies #[trigger] self.slot_free(i) == (old(self).slot_free(i) || start <= i < idx + 1) by {
                    assert(self.free.is_set(i) == (i == idx || prev.is_set(i)));
                }
            }
            idx = idx + 1;
        }
        true
    }

    /// First-fit run of `slices` free slices: the lowest one. Returns its base
    /// address and takes its slices, or `None`, with no change, when there is
    /// no such run (or `slices` is 0 or exceeds the map).
    pub fn alloc_run(&mut self, slices: usize) -> (r: Option<usize>)
        requires
            old(self).wf(),
        ensures
            final(self).wf(),
            r is Some <==> 0 < slices <= SLOTS && exists|s: int| #[trigger] old(self).first_run(s, slices as int),
            r matches Some(addr) ==> exists|s: int| #[trigger] old(self).first_run(s, slices as int)
                && addr == s * SEGMENT_SLICE_SIZE
                && forall|i: int| 0 <= i < SLOTS ==> #[trigger] final(self).slot_free(i)
                    == (old(self).slot_free(i) && !(s <= i < s + slices)),
            r is None ==> *final(self) == *old(self),
    {
        if slices == 0 || slices > SLOTS {
            return None;
        }
        let mut run: usize = 0;
        let mut idx: usize = 0;
        while idx < SLOTS
            invariant
                self.wf(),
                *self == *old(self),
                0 < slices <= SLOTS,
                idx <= SLOTS,
                run <= idx,
                run < slices,
                forall|k: int| idx - run <= k < idx ==> #[trigger] self.slot_free(k),
                idx - run == 0 || !self.slot_free(idx - run - 1),
                forall|s: int| 0 <= s && s + slices <= idx ==> !#[trigger] self.run_free(s, slices as int),
            decreases SLOTS - idx,
        {
            let w = idx / WORD_BITS;
            let word = self.free.word(w);
            if word == 0 && idx % WORD_BITS == 0 {
                proof {
                    assert forall|s: int| 0 <= s && s + slices <= idx + 32 implies !#[trigger] self.run_free(s, slices as int) by {
                        if s + slices > idx {
                            let k = if s > idx { s } else { idx as int };
                            assert(!self.slot_free(k));
                        }
                    }
                }
                run = 0;
                idx = idx + WORD_BITS;
            } else {
                let is_free = self.free.test(idx);
                if is_free {
                    run = run + 1;
                    if run == slices {
                        let start = idx + 1 - slices;
                        proof {
                            assert(self.run_free(start as int, slices as int));
                            assert forall|s: int| 0 <= s < start implies !#[trigger] self.run_free(s, slices as int) by {
                                if s + slices > idx {
                                    assert(!self.slot_free(idx - run));
                                    assert(s <= idx - run);
                                }
                            }
                            assert(self.first_run(start as int, slices as int));
                        }
                        self.take_run(start, slices);
                        proof {
                            assert(forall|s: int| #[trigger] old(self).first_run(s, slices as int) ==> s == start);
                        }
                        return Some(start * SEGMENT_SLICE_SIZE);
                    }
                } else {
                    proof {
                        assert forall|s: int| 0 <= s && s + slices <= idx + 1 implies !#[trigger] self.run_free(s, slices as int) by {
                            if s + slices == idx + 1 {
                                assert(!self.slot_free(idx as int));
                            }
                        }
                    }
                    run = 0;
                }
                proof {
                    assert forall|s: int| 0 <= s && s + slices <= idx + 1 implies !#[trigger] self.run_free(s, slices as int) by {
                        if s + slices == idx + 1 && run > 0 {
                            if idx + 1 - run > 0 {
                                assert(!self.slot_free(idx + 1 - run - 1));
                            }
                        }
                    }
                }
                idx = idx + 1;
            }
        }
        proof {
            assert forall|s: int| !#[trigger] old(self).first_run(s, slices as int) by {}
        }
        None
    }

    /// Take slices `start .. start + n`.
    fn take_run(&mut self, start: usize, n: usize)
        requires
            old(self).wf(),
            start + n <= SLOTS,
        ensures
            final(self).wf(),
            forall|i: int| 0 <= i < SLOTS ==> #[trigger] final(self).slot_free(i)
                == (old(self).slot_free(i) && !(start <= i < start + n)),
    {
        let mut j = start;
        while j < start + n
            invariant
                self.wf(),
                start <= j <= start + n,
                start + n <= SLOTS,
                forall|i: int| 0 <= i < SLOTS ==> #[trigger] self.slot_free(i) == (old(self).slot_free(i) && !(start <= i < j)),
            decreases start + n - j,
        {
            let ghost prev = self.free;
            proof {
                assert forall|i: int| 0 <= i < SLOTS implies #[trigger] prev.is_set(i) == (old(self).slot_free(i) && !(start <= i < j)) by {
                    assert(self.slot_free(i) == (old(self).slot_free(i) && !(start <= i < j)));
                }
            }
            self.free.clear(j);
            proof {
                assert forall|i: int| 0 <= i < SLOTS implies #[trigger] self.slot_free(i) == (old(self).slot_free(i) && !(start <= i < j + 1)) by {
                    assert(self.free.is_set(i) == (i != j && prev.is_set(i)));
                }
            }
            j = j + 1;
        }
    }
}

} // verus!
