//! Segments: `SEGMENT_SIZE`-aligned reservations cut into
//! `SEGMENT_SLICE_SIZE` slices. The alignment is the addressing scheme: an
//! address's segment is a mask, its slice a shift.
//!
//! The slices after the header are carved, from a bump cursor, into spans
//! of whole slices; a span either holds a live page or is free. Freed spans
//! go back on a first-fit free list, merged with free neighbours, and never
//! rejoin the never-carved region behind the cursor.
//!
//! The span layout is kept in one slot per slice: a span's first slot holds
//! its length and state, and every other slot of it how far back its first
//! slot is, so the span holding any slice is found in one step.

use vstd::prelude::*;
use crate::types::{SEGMENT_SIZE, SEGMENT_SLICE_SIZE, SLICES_PER_SEGMENT, MEDIUM_PAGE_SLICES};
use crate::arena::Arenas;
use crate::options::Options;
use crate::os::{alloc_aligned, spec_page_align_up, OsBlock};
use crate::prim::{PrimError, is_power_of_two, spec_align_up};
use crate::prim::fixed::{FixedRegion, FIXED_PAGE, range_set};
use crate::segment_map::{SegmentMap, spec_map_bits, in_range_windows};

verus! {

/// Slices the segment header occupies.
pub const HEADER_SLICES: usize = 1;

/// Slices a Normal segment can carve.
pub const USABLE_SLICES: usize = 511;

/// What a segment holds.
#[derive(Debug, Clone, Copy, PartialEq, Eq, Structural)]
pub enum SegmentKind {
    /// Sliced into spans of pages of every size class.
    Normal,
    /// A dedicated reservation for one huge block.
    Huge,
}

/// The span bookkeeping of one slice.
#[derive(Debug, Clone, Copy)]
pub struct SpanSlot {
    /// 0 for the first slice of a span; otherwise how many slices back the
    /// span's first slice is.
    pub slice_offset: u16,
    /// At a span's first slice: the slices the span holds.
    pub slice_count: u16,
    /// At a span's first slice: the span holds a live page.
    pub live: bool,
    /// At a span's first slice: the span's memory was purged while free and
    /// is committed again before reuse.
    pub purged: bool,
}

/// The address of the segment holding `addr`: `addr` with its low
/// `log2(SEGMENT_SIZE)` bits cleared.
pub fn segment_of(addr: usize) -> (s: usize)
    ensures
        s == addr - addr % SEGMENT_SIZE,
        s % SEGMENT_SIZE == 0,
        s <= addr < s + SEGMENT_SIZE,
{
    let s = addr & !(SEGMENT_SIZE - 1);
    proof {
        assert(s == addr - addr % 33554432usize) by (bit_vector)
            requires s == addr & !(33554431usize);
        vstd::arithmetic::div_mod::lemma_fundamental_div_mod(addr as int, SEGMENT_SIZE as int);
        vstd::arithmetic::div_mod::lemma_mod_multiples_basic(addr as int / SEGMENT_SIZE as int, SEGMENT_SIZE as int);
    }
    s
}

/// A segment header: what the segment is, where, who owns it, and the span
/// layout of its slices.
pub struct Segment {
    kind: SegmentKind,
    base: usize,
    total_size: usize,
    thread_id: usize,
    mem_is_zero: bool,
    guarded: bool,
    next_free_slice: usize,
    used_pages: usize,
    purged_any: bool,
    slots: Vec<SpanSlot>,
    free_spans: Vec<usize>,
}

impl Segment {
    /// What the segment holds.
    pub closed spec fn seg_kind(&self) -> SegmentKind {
        self.kind
    }

    /// Base address.
    pub closed spec fn base_addr(&self) -> int {
        self.base as int
    }

    /// Bytes reserved: `SEGMENT_SIZE` for a Normal segment, the whole
    /// reservation for a Huge one.
    pub closed spec fn total(&self) -> int {
        self.total_size as int
    }

    /// Owning thread; 0 marks an abandoned segment.
    pub closed spec fn owner(&self) -> usize {
        self.thread_id
    }

    /// The never-carved region is known zero (fresh backend memory).
    pub closed spec fn zero_mem(&self) -> bool {
        self.mem_is_zero
    }

    /// The segment carries a guard page.
    pub closed spec fn has_guard(&self) -> bool {
        self.guarded
    }

    /// The bump cursor: slices at and after it were never carved.
    pub closed spec fn nfree(&self) -> int {
        self.next_free_slice as int
    }

    /// Live pages carved from the segment.
    pub closed spec fn used(&self) -> int {
        self.used_pages as int
    }

    /// Some span was purged at some point.
    pub closed spec fn any_purged(&self) -> bool {
        self.purged_any
    }

    /// Slots in the table.
    pub closed spec fn slot_count(&self) -> int {
        self.slots@.len() as int
    }

    /// Slot `j`.
    pub closed spec fn slot(&self, j: int) -> SpanSlot {
        self.slots@[j]
    }

    /// The free spans' first slices, head first.
    pub closed spec fn free_list(&self) -> Seq<usize> {
        self.free_spans@
    }

    /// Back-offset of slot `j`.
    pub open spec fn off(&self, j: int) -> int {
        self.slot(j).slice_offset as int
    }

    /// Span length stored at slot `j`.
    pub open spec fn cnt(&self, j: int) -> int {
        self.slot(j).slice_count as int
    }

    /// Live flag at slot `j`.
    pub open spec fn is_live(&self, j: int) -> bool {
        self.slot(j).live
    }

    /// Purged flag at slot `j`.
    pub open spec fn is_purged(&self, j: int) -> bool {
        self.slot(j).purged
    }

    /// `s` is the first slice of a carved span.
    pub open spec fn is_start(&self, s: int) -> bool {
        HEADER_SLICES <= s < self.nfree() && self.off(s) == 0
    }

    /// The first slice of the span holding carved slice `j`.
    pub open spec fn start_of(&self, j: int) -> int {
        j - self.off(j)
    }

    /// The spans: first slice to (length, live, purged).
    pub open spec fn spans(&self) -> Map<int, (int, bool, bool)> {
        Map::new(|s: int| self.is_start(s), |s: int| (self.cnt(s), self.is_live(s), self.is_purged(s)))
    }

    /// First slices of the live spans.
    pub open spec fn live_starts(&self) -> Set<int> {
        Set::new(|s: int| self.is_start(s) && self.is_live(s))
    }

    /// `other` has the same geometry, span layout and free list.
    pub open spec fn same_layout(&self, other: Segment) -> bool {
        &&& other.seg_kind() == self.seg_kind()
        &&& other.base_addr() == self.base_addr()
        &&& other.total() == self.total()
        &&& other.zero_mem() == self.zero_mem()
        &&& other.has_guard() == self.has_guard()
        &&& other.nfree() == self.nfree()
        &&& other.used() == self.used()
        &&& other.any_purged() == self.any_purged()
        &&& other.slot_count() == self.slot_count()
        &&& forall|j: int| 0 <= j < self.slot_count() ==> #[trigger] other.slot(j) == self.slot(j)
        &&& other.free_list() == self.free_list()
    }

    /// Every carved slice lies in the span its slot points back to.
    pub closed spec fn tiled(&self) -> bool {
        &&& forall|j: int| HEADER_SLICES <= j < self.nfree() ==> {
            &&& HEADER_SLICES <= #[trigger] self.start_of(j) <= j
            &&& self.off(self.start_of(j)) == 0
            &&& j < self.start_of(j) + self.cnt(self.start_of(j))
        }
        &&& forall|s: int| #[trigger] self.is_start(s) ==> {
            &&& self.cnt(s) >= 1
            &&& s + self.cnt(s) <= self.nfree()
            &&& forall|j: int| s <= j < s + self.cnt(s) ==> #[trigger] self.off(j) == j - s
        }
    }

    /// The free list holds exactly the free spans, each once.
    pub closed spec fn listed(&self) -> bool {
        &&& self.free_list().no_duplicates()
        &&& forall|k: int| 0 <= k < self.free_list().len() ==> {
            &&& #[trigger] self.is_start(self.free_list()[k] as int)
            &&& !self.is_live(self.free_list()[k] as int)
        }
        &&& forall|s: int| #[trigger] self.is_start(s) && !self.is_live(s) ==> self.free_list().contains(s as usize)
    }

    /// No two free spans are neighbours: the span after a free one is live,
    /// or the never-carved region.
    pub closed spec fn coalesced(&self) -> bool {
        forall|s: int| #[trigger] self.is_start(s) && !self.is_live(s) && s + self.cnt(s) < self.nfree()
            ==> self.is_live(s + self.cnt(s))
    }

    /// The segment's invariant.
    pub closed spec fn wf(&self) -> bool {
        &&& self.slot_count() == SLICES_PER_SEGMENT
        &&& HEADER_SLICES <= self.nfree() <= SLICES_PER_SEGMENT
        &&& self.base % SEGMENT_SIZE == 0
        &&& self.total_size >= 1
        &&& self.base + SEGMENT_SIZE <= usize::MAX
        &&& self.base + crate::prim::fixed::spec_div_ceil(self.total_size as int, SEGMENT_SIZE as int) * SEGMENT_SIZE <= usize::MAX
        &&& self.base + self.total_size <= usize::MAX
        &&& self.tiled()
        &&& self.listed()
        &&& self.coalesced()
        &&& self.used() == self.live_starts().len()
    }

    /// What the invariant gives every holder of a segment: its geometry,
    /// and that the live-page count is the number of live spans.
    pub proof fn lemma_wf_geometry(&self)
        requires
            self.wf(),
        ensures
            self.base_addr() % SEGMENT_SIZE as int == 0,
            self.total() >= 1,
            self.base_addr() + SEGMENT_SIZE <= usize::MAX,
            self.base_addr() + crate::prim::fixed::spec_div_ceil(self.total(), SEGMENT_SIZE as int) * SEGMENT_SIZE <= usize::MAX,
            self.base_addr() + self.total() <= usize::MAX,
            HEADER_SLICES <= self.nfree() <= SLICES_PER_SEGMENT,
            self.live_starts().finite(),
            self.used() == self.live_starts().len(),
            self.coalesced(),
    {
        self.lemma_live_starts_finite();
    }

    /// Slices `[lo, hi)` are tiled by spans that start and end inside them.
    pub open spec fn tiled_within(&self, lo: int, hi: int) -> bool {
        &&& forall|j: int| lo <= j < hi ==> {
            &&& lo <= #[trigger] self.start_of(j) <= j
            &&& self.off(self.start_of(j)) == 0
            &&& j < self.start_of(j) + self.cnt(self.start_of(j))
        }
        &&& forall|s: int| lo <= s < hi && #[trigger] self.off(s) == 0 ==> {
            &&& self.cnt(s) >= 1
            &&& s + self.cnt(s) <= hi
            &&& forall|j: int| s <= j < s + self.cnt(s) ==> #[trigger] self.off(j) == j - s
        }
    }

    /// Re-tiling `[lo, hi)`, a run of whole spans of `pre` (or, when the
    /// cursor moves, the newly carved run behind it), keeps the carved
    /// region tiled.
    proof fn lemma_retile(pre: Segment, post: Segment, lo: int, hi: int)
        requires
            pre.slot_count() == SLICES_PER_SEGMENT,
            post.slot_count() == SLICES_PER_SEGMENT,
            HEADER_SLICES <= pre.nfree() <= post.nfree() <= SLICES_PER_SEGMENT,
            pre.tiled(),
            HEADER_SLICES <= lo <= hi <= post.nfree(),
            pre.nfree() < post.nfree() ==> lo <= pre.nfree() && hi == post.nfree(),
            pre.nfree() == post.nfree() ==> hi <= pre.nfree(),
            forall|j: int| 0 <= j < SLICES_PER_SEGMENT && !(lo <= j < hi) ==> #[trigger] post.slot(j) == pre.slot(j),
            post.tiled_within(lo, hi),
            forall|s: int| #[trigger] pre.is_start(s) && s < lo ==> s + pre.cnt(s) <= lo,
            forall|s: int| #[trigger] pre.is_start(s) && lo <= s < hi ==> s + pre.cnt(s) <= hi,
        ensures
            post.tiled(),
    {
        assert forall|j: int| HEADER_SLICES <= j < post.nfree() implies {
            &&& HEADER_SLICES <= #[trigger] post.start_of(j) <= j
            &&& post.off(post.start_of(j)) == 0
            &&& j < post.start_of(j) + post.cnt(post.start_of(j))
        } by {
            if !(lo <= j < hi) {
                assert(post.slot(j) == pre.slot(j));
                assert(j < pre.nfree());
                let s = pre.start_of(j);
                assert(HEADER_SLICES <= s <= j && pre.off(s) == 0 && j < s + pre.cnt(s));
                assert(pre.is_start(s));
                if lo <= s && s < hi {
                    assert(s + pre.cnt(s) <= hi);
                    assert(false);
                }
                if s < lo && j >= hi {
                    assert(s + pre.cnt(s) <= lo);
                    assert(false);
                }
                assert(post.slot(s) == pre.slot(s));
            }
        }
        assert forall|s: int| #[trigger] post.is_start(s) implies {
            &&& post.cnt(s) >= 1
            &&& s + post.cnt(s) <= post.nfree()
            &&& forall|j: int| s <= j < s + post.cnt(s) ==> #[trigger] post.off(j) == j - s
        } by {
            if !(lo <= s < hi) {
                assert(post.slot(s) == pre.slot(s));
                assert(s < pre.nfree());
                assert(pre.is_start(s));
                assert forall|j: int| s <= j < s + post.cnt(s) implies #[trigger] post.off(j) == j - s by {
                    if s < lo {
                        assert(s + pre.cnt(s) <= lo);
                    }
                    assert(post.slot(j) == pre.slot(j));
                    assert(pre.off(j) == j - s);
                }
            } else {
                assert(post.off(s) == 0);
            }
        }
    }

    /// Mark `[idx, idx + len)` as one span: its first slot gets offset 0,
    /// length `len` and the given `live` state; every other slot of it the
    /// distance back. Nothing else changes.
    fn span_mark(&mut self, idx: usize, len: usize, live: bool)
        requires
            old(self).slot_count() == SLICES_PER_SEGMENT,
            len >= 1,
            idx + len <= SLICES_PER_SEGMENT,
        ensures
            final(self).slot_count() == SLICES_PER_SEGMENT,
            final(self).slot(idx as int) == (SpanSlot {
                slice_offset: 0,
                slice_count: len as u16,
                live,
                purged: old(self).slot(idx as int).purged,
            }),
            forall|j: int| idx < j < idx + len ==> #[trigger] final(self).slot(j) == (SpanSlot {
                slice_offset: (j - idx) as u16,
                ..old(self).slot(j)
            }),
            forall|j: int| 0 <= j < SLICES_PER_SEGMENT && !(idx <= j < idx + len)
                ==> #[trigger] final(self).slot(j) == old(self).slot(j),
            final(self).free_spans@ == old(self).free_spans@,
            final(self).next_free_slice == old(self).next_free_slice,
            final(self).used_pages == old(self).used_pages,
            final(self).purged_any == old(self).purged_any,
            final(self).kind == old(self).kind,
            final(self).base == old(self).base,
            final(self).total_size == old(self).total_size,
            final(self).thread_id == old(self).thread_id,
            final(self).mem_is_zero == old(self).mem_is_zero,
            final(self).guarded == old(self).guarded,
    {
        let first = self.slots[idx];
        self.slots.set(idx, SpanSlot { slice_offset: 0, slice_count: len as u16, live, purged: first.purged });
        let mut j: usize = 1;
        while j < len
            invariant
                1 <= j <= len,
                idx + len <= SLICES_PER_SEGMENT,
                self.slots@.len() == SLICES_PER_SEGMENT,
                self.slots@[idx as int] == (SpanSlot { slice_offset: 0, slice_count: len as u16, live, purged: old(self).slot(idx as int).purged }),
                forall|i: int| idx < i < idx + j ==> #[trigger] self.slots@[i] == (SpanSlot {
                    slice_offset: (i - idx) as u16,
                    ..old(self).slot(i)
                }),
                forall|i: int| 0 <= i < SLICES_PER_SEGMENT && !(idx <= i < idx + j)
                    ==> #[trigger] self.slots@[i] == old(self).slot(i),
                self.free_spans@ == old(self).free_spans@,
                self.next_free_slice == old(self).next_free_slice,
                self.used_pages == old(self).used_pages,
                self.purged_any == old(self).purged_any,
                self.kind == old(self).kind,
                self.base == old(self).base,
                self.total_size == old(self).total_size,
                self.thread_id == old(self).thread_id,
                self.mem_is_zero == old(self).mem_is_zero,
                self.guarded == old(self).guarded,
            decreases len - j,
        {
            let cur = self.slots[idx + j];
            self.slots.set(idx + j, SpanSlot { slice_offset: j as u16, ..cur });
            j = j + 1;
        }
    }

    /// `post` has the header of `self`: everything but the span layout, the
    /// free list and the live-page count.
    pub open spec fn same_header(&self, post: Segment) -> bool {
        &&& post.seg_kind() == self.seg_kind()
        &&& post.base_addr() == self.base_addr()
        &&& post.total() == self.total()
        &&& post.owner() == self.owner()
        &&& post.zero_mem() == self.zero_mem()
        &&& post.has_guard() == self.has_guard()
    }

    /// The free span at list position `k` holds at least `n` slices.
    pub open spec fn fits(&self, k: int, n: int) -> bool {
        self.cnt(self.free_list()[k] as int) >= n
    }

    /// `k` is the first list position, from the head, whose span holds `n`
    /// slices.
    pub open spec fn first_fit(&self, k: int, n: int) -> bool {
        &&& 0 <= k < self.free_list().len()
        &&& self.fits(k, n)
        &&& forall|i: int| 0 <= i < k ==> !#[trigger] self.fits(i, n)
    }

    /// No free span holds `n` slices.
    pub open spec fn no_fit(&self, n: int) -> bool {
        forall|i: int| 0 <= i < self.free_list().len() ==> !#[trigger] self.fits(i, n)
    }

    /// `post` is `self` after the first `n` slices of the free span at list
    /// position `k` became a live page: the span leaves the list, and what
    /// remains of it, if anything, is a free span pushed at the head.
    pub open spec fn took_listed(&self, post: Segment, k: int, n: int) -> bool {
        let s = self.free_list()[k] as int;
        let c = self.cnt(s);
        &&& post.nfree() == self.nfree()
        &&& post.spans() == if c > n {
                self.spans().insert(s, (n, true, false)).insert(s + n, (c - n, false, self.is_purged(s + n)))
            } else {
                self.spans().insert(s, (n, true, false))
            }
        &&& post.free_list() == if c > n {
                seq![(s + n) as usize] + self.free_list().remove(k)
            } else {
                self.free_list().remove(k)
            }
    }

    /// `post` is `self` after the `n` slices at the cursor became a live
    /// page.
    pub open spec fn took_bump(&self, post: Segment, n: int) -> bool {
        &&& post.nfree() == self.nfree() + n
        &&& post.spans() == self.spans().insert(self.nfree(), (n, true, self.is_purged(self.nfree())))
        &&& post.free_list() == self.free_list()
    }

    /// The spans of `pre` starting before `s` end at or before it, and the
    /// only one starting in `[s, s + cnt(s))` is `s` itself.
    proof fn lemma_span_isolated(pre: Segment, s: int)
        requires
            pre.wf(),
            pre.is_start(s),
        ensures
            forall|t: int| #[trigger] pre.is_start(t) && t < s ==> t + pre.cnt(t) <= s,
            forall|t: int| #[trigger] pre.is_start(t) && s <= t < s + pre.cnt(s) ==> t == s,
    {
        assert forall|t: int| #[trigger] pre.is_start(t) && t < s implies t + pre.cnt(t) <= s by {
            if t + pre.cnt(t) > s {
                pre.lemma_in_one_span(t, s, s);
            }
        }
        assert forall|t: int| #[trigger] pre.is_start(t) && s <= t < s + pre.cnt(s) implies t == s by {
            pre.lemma_in_one_span(s, t, t);
        }
    }

    /// Carving a live page of `n` slices out of the free span at list
    /// position `k` keeps the invariant and has the stated effect.
    proof fn lemma_take_listed(pre: Segment, post: Segment, k: int, n: int)
        requires
            pre.wf(),
            0 <= k < pre.free_list().len(),
            n >= 1,
            pre.cnt(pre.free_list()[k] as int) >= n,
            post.slot_count() == SLICES_PER_SEGMENT,
            post.nfree() == pre.nfree(),
            post.base_addr() == pre.base_addr(),
            post.total() == pre.total(),
            post.used() == pre.used() + 1,
            ({
                let s = pre.free_list()[k] as int;
                let c = pre.cnt(s);
                &&& post.slot(s) == (SpanSlot { slice_offset: 0, slice_count: n as u16, live: true, purged: false })
                &&& forall|j: int| s < j < s + n ==> #[trigger] post.off(j) == j - s
                &&& c > n ==> post.slot(s + n) == (SpanSlot {
                    slice_offset: 0, slice_count: (c - n) as u16, live: false, purged: pre.is_purged(s + n) })
                &&& forall|j: int| s + n < j < s + c ==> #[trigger] post.off(j) == j - (s + n)
                &&& forall|j: int| 0 <= j < SLICES_PER_SEGMENT && !(s <= j < s + c) ==> #[trigger] post.slot(j) == pre.slot(j)
                &&& post.free_list() == if c > n {
                        seq![(s + n) as usize] + pre.free_list().remove(k)
                    } else {
                        pre.free_list().remove(k)
                    }
            }),
        ensures
            post.wf(),
            pre.took_listed(post, k, n),
    {
        let s = pre.free_list()[k] as int;
        let c = pre.cnt(s);
        assert(pre.is_start(s) && !pre.is_live(s));
        Self::lemma_span_isolated(pre, s);
        assert(s + c <= pre.nfree());
        assert(post.tiled_within(s, s + c)) by {
            assert forall|j: int| s <= j < s + c implies {
                &&& s <= #[trigger] post.start_of(j) <= j
                &&& post.off(post.start_of(j)) == 0
                &&& j < post.start_of(j) + post.cnt(post.start_of(j))
            } by {
                if j < s + n {
                    if j > s {
                        assert(post.off(j) == j - s);
                    }
                    assert(post.start_of(j) == s);
                } else {
                    if j > s + n {
                        assert(post.off(j) == j - (s + n));
                    }
                    assert(post.start_of(j) == s + n);
                }
            }
            assert forall|t: int| s <= t < s + c && #[trigger] post.off(t) == 0 implies {
                &&& post.cnt(t) >= 1
                &&& t + post.cnt(t) <= s + c
                &&& forall|j: int| t <= j < t + post.cnt(t) ==> #[trigger] post.off(j) == j - t
            } by {
                if s < t < s + n {
                    assert(post.off(t) == t - s);
                } else if s + n < t {
                    assert(post.off(t) == t - (s + n));
                }
                assert(t == s || t == s + n);
            }
        }
        Self::lemma_retile(pre, post, s, s + c);
        // The starts of `post`: those of `pre` outside the carved span, `s`,
        // and `s + n` when a remainder is left.
        assert forall|t: int| #[trigger] post.is_start(t) == (
            (pre.is_start(t) && !(s <= t < s + c)) || t == s || (c > n && t == s + n)) by {
            if s <= t < s + c {
                if s < t < s + n {
                    assert(post.off(t) == t - s);
                } else if s + n < t {
                    assert(post.off(t) == t - (s + n));
                }
            } else if 0 <= t < SLICES_PER_SEGMENT {
                assert(post.slot(t) == pre.slot(t));
            }
        }
        assert(!pre.is_start(s + n) || c == n) by {
            if c > n {
                assert(pre.off(s + n) == n);
            }
        }
        // The list.
        let l0 = pre.free_list();
        let l1 = l0.remove(k);
        assert(l1.no_duplicates()) by {
            assert forall|a: int, b: int| 0 <= a < b < l1.len() implies l1[a] != l1[b] by {
                let a0 = if a < k { a } else { a + 1 };
                let b0 = if b < k { b } else { b + 1 };
                assert(l1[a] == l0[a0] && l1[b] == l0[b0]);
            }
        }
        assert forall|i: int| 0 <= i < l1.len() implies #[trigger] post.is_start(l1[i] as int) && !post.is_live(l1[i] as int)
            && l1[i] as int != s && !(s <= (l1[i] as int) && (l1[i] as int) < s + c) by {
            let i0 = if i < k { i } else { i + 1 };
            assert(l1[i] == l0[i0]);
            assert(pre.is_start(l0[i0] as int));
            assert(l0[i0] != l0[k]);
            assert(post.slot(l0[i0] as int) == pre.slot(l0[i0] as int));
        }
        assert forall|t: int| #[trigger] pre.is_start(t) && !pre.is_live(t) && t != s implies l1.contains(t as usize) by {
            assert(l0.contains(t as usize));
            let i0 = choose|i0: int| 0 <= i0 < l0.len() && l0[i0] == t as usize;
            assert(i0 != k);
            let i = if i0 < k { i0 } else { i0 - 1 };
            assert(l1[i] == l0[i0]);
        }
        if c > n {
            let l2 = post.free_list();
            assert(l2 == seq![(s + n) as usize] + l1);
            assert(!l1.contains((s + n) as usize)) by {
                if l1.contains((s + n) as usize) {
                    let i = choose|i: int| 0 <= i < l1.len() && l1[i] == (s + n) as usize;
                    assert(post.is_start(l1[i] as int));
                }
            }
            assert(l2.no_duplicates()) by {
                assert forall|a: int, b: int| 0 <= a < b < l2.len() implies l2[a] != l2[b] by {
                    if a == 0 {
                        assert(l2[b] == l1[b - 1]);
                    } else {
                        assert(l2[a] == l1[a - 1] && l2[b] == l1[b - 1]);
                    }
                }
            }
            assert(post.is_start(s + n) && !post.is_live(s + n)) by {
                assert(post.slot(s + n).slice_offset == 0);
                assert(s + n < s + c);
            }
            assert forall|i: int| 0 <= i < l2.len() implies #[trigger] post.is_start(l2[i] as int) && !post.is_live(l2[i] as int) by {
                if i > 0 {
                    assert(l2[i] == l1[i - 1]);
                    assert(post.is_start(l1[i - 1] as int) && !post.is_live(l1[i - 1] as int));
                } else {
                    assert(l2[0] == (s + n) as usize);
                    assert(l2[0] as int == s + n);
                }
            }
            assert forall|t: int| #[trigger] post.is_start(t) && !post.is_live(t) implies l2.contains(t as usize) by {
                if t == s + n {
                    assert(l2[0] == (s + n) as usize);
                } else {
                    assert(t != s);
                    assert(post.slot(t) == pre.slot(t));
                    assert(l1.contains(t as usize));
                    let i = choose|i: int| 0 <= i < l1.len() && l1[i] == t as usize;
                    assert(l2[i + 1] == l1[i]);
                }
            }
        } else {
            assert forall|t: int| #[trigger] post.is_start(t) && !post.is_live(t) implies post.free_list().contains(t as usize) by {
                assert(t != s);
                assert(post.slot(t) == pre.slot(t));
            }
        }
        // No two free neighbours.
        assert forall|t: int| #[trigger] post.is_start(t) && !post.is_live(t) && t + post.cnt(t) < post.nfree()
            implies post.is_live(t + post.cnt(t)) by {
            if c > n && t == s + n {
                assert(pre.is_live(s + c));
                assert(post.slot(s + c) == pre.slot(s + c));
            } else {
                assert(post.slot(t) == pre.slot(t));
                assert(pre.is_start(t) && !pre.is_live(t));
                let r = t + pre.cnt(t);
                assert(pre.is_live(r));
                pre.lemma_next_start(t);
                if s <= r < s + c {
                    assert(r == s);
                    assert(false);
                }
                assert(post.slot(r) == pre.slot(r));
            }
        }
        // The live-page count.
        assert(post.live_starts() =~= pre.live_starts().insert(s)) by {
            assert forall|t: int| post.live_starts().contains(t) == pre.live_starts().insert(s).contains(t) by {
                if !(s <= t < s + c) && 0 <= t < SLICES_PER_SEGMENT {
                    assert(post.slot(t) == pre.slot(t));
                }
            }
        }
        pre.lemma_live_starts_finite();
        // The span map.
        let expect = if c > n {
            pre.spans().insert(s, (n, true, false)).insert(s + n, (c - n, false, pre.is_purged(s + n)))
        } else {
            pre.spans().insert(s, (n, true, false))
        };
        assert(post.spans() =~= expect) by {
            assert forall|t: int| #[trigger] post.spans().contains_key(t) == expect.contains_key(t) by {}
            assert forall|t: int| #[trigger] post.spans().contains_key(t) implies post.spans()[t] == expect[t] by {
                if t != s && !(c > n && t == s + n) {
                    assert(post.slot(t) == pre.slot(t));
                }
            }
        }
    }

    /// Carving a live page of `n` slices at the cursor keeps the invariant
    /// and has the stated effect.
    proof fn lemma_take_bump(pre: Segment, post: Segment, n: int)
        requires
            pre.wf(),
            n >= 1,
            pre.nfree() + n <= SLICES_PER_SEGMENT,
            post.slot_count() == SLICES_PER_SEGMENT,
            post.nfree() == pre.nfree() + n,
            post.base_addr() == pre.base_addr(),
            post.total() == pre.total(),
            post.used() == pre.used() + 1,
            post.free_list() == pre.free_list(),
            post.slot(pre.nfree()) == (SpanSlot {
                slice_offset: 0, slice_count: n as u16, live: true, purged: pre.is_purged(pre.nfree()) }),
            forall|j: int| pre.nfree() < j < pre.nfree() + n ==> #[trigger] post.off(j) == j - pre.nfree(),
            forall|j: int| 0 <= j < SLICES_PER_SEGMENT && !(pre.nfree() <= j < pre.nfree() + n)
                ==> #[trigger] post.slot(j) == pre.slot(j),
        ensures
            post.wf(),
            pre.took_bump(post, n),
    {
        let s = pre.nfree();
        assert(post.tiled_within(s, s + n)) by {
            assert forall|j: int| s <= j < s + n implies {
                &&& s <= #[trigger] post.start_of(j) <= j
                &&& post.off(post.start_of(j)) == 0
                &&& j < post.start_of(j) + post.cnt(post.start_of(j))
            } by {
                if j > s {
                    assert(post.off(j) == j - s);
                }
            }
            assert forall|t: int| s <= t < s + n && #[trigger] post.off(t) == 0 implies {
                &&& post.cnt(t) >= 1
                &&& t + post.cnt(t) <= s + n
                &&& forall|j: int| t <= j < t + post.cnt(t) ==> #[trigger] post.off(j) == j - t
            } by {
                if t > s {
                    assert(post.off(t) == t - s);
                }
            }
        }
        assert forall|t: int| #[trigger] pre.is_start(t) && t < s implies t + pre.cnt(t) <= s by {}
        Self::lemma_retile(pre, post, s, s + n);
        assert forall|t: int| #[trigger] post.is_start(t) == (pre.is_start(t) || t == s) by {
            if s < t < s + n {
                assert(post.off(t) == t - s);
            } else if 0 <= t < SLICES_PER_SEGMENT && t != s {
                assert(post.slot(t) == pre.slot(t));
            }
        }
        assert forall|k: int| 0 <= k < post.free_list().len() implies {
            &&& #[trigger] post.is_start(post.free_list()[k] as int)
            &&& !post.is_live(post.free_list()[k] as int)
        } by {
            let t = pre.free_list()[k] as int;
            assert(pre.is_start(t));
            assert(post.slot(t) == pre.slot(t));
        }
        assert forall|t: int| #[trigger] post.is_start(t) && !post.is_live(t) implies post.free_list().contains(t as usize) by {
            assert(post.slot(t) == pre.slot(t));
        }
        assert forall|t: int| #[trigger] post.is_start(t) && !post.is_live(t) && t + post.cnt(t) < post.nfree()
            implies post.is_live(t + post.cnt(t)) by {
            assert(post.slot(t) == pre.slot(t));
            let r = t + pre.cnt(t);
            if r < s {
                pre.lemma_next_start(t);
                assert(post.slot(r) == pre.slot(r));
            }
        }
        assert(post.live_starts() =~= pre.live_starts().insert(s)) by {
            assert forall|t: int| post.live_starts().contains(t) == pre.live_starts().insert(s).contains(t) by {
                if 0 <= t < SLICES_PER_SEGMENT && !(s <= t < s + n) {
                    assert(post.slot(t) == pre.slot(t));
                }
            }
        }
        pre.lemma_live_starts_finite();
        let expect = pre.spans().insert(s, (n, true, pre.is_purged(s)));
        assert(post.spans() =~= expect) by {
            assert forall|t: int| #[trigger] post.spans().contains_key(t) == expect.contains_key(t) by {}
            assert forall|t: int| #[trigger] post.spans().contains_key(t) implies post.spans()[t] == expect[t] by {
                if t != s {
                    assert(post.slot(t) == pre.slot(t));
                }
            }
        }
    }

    /// What carving a live page of `n` slices does: `None`, and no change,
    /// when no free span fits and the cursor has no room; otherwise the
    /// page's first slice and whether its memory is known zero, taken from
    /// the first fitting free span (never known zero) or else at the cursor
    /// (known zero as the never-carved region is).
    pub open spec fn span_alloc_outcome(&self, post: Segment, n: int, r: Option<(usize, bool)>) -> bool {
        &&& r is None <==> self.no_fit(n) && self.nfree() + n > SLICES_PER_SEGMENT
        &&& r is None ==> post == *self
        &&& r matches Some((idx, fresh)) ==> {
            &&& post.used() == self.used() + 1
            &&& post.spans().contains_key(idx as int)
            &&& post.spans()[idx as int].0 == n
            &&& post.spans()[idx as int].1
            &&& !self.live_starts().contains(idx as int)
            &&& {
                ||| exists|k: int| {
                    &&& #[trigger] self.first_fit(k, n)
                    &&& idx == self.free_list()[k]
                    &&& !fresh
                    &&& self.took_listed(post, k, n)
                }
                ||| {
                    &&& self.no_fit(n)
                    &&& idx == self.nfree()
                    &&& fresh == self.zero_mem()
                    &&& self.took_bump(post, n)
                }
            }
        }
    }

    /// Carve a live page of `slices` slices: from the first free span, from
    /// the list's head, long enough (the rest of it stays free, at the
    /// head), else at the cursor. The page's first slice and whether its
    /// memory is known zero: never for a reused span, the segment's
    /// never-carved state for a fresh one. `None`, and no change, when
    /// neither has room. A reused span that was purged is committed again.
    pub fn span_alloc(&mut self, slices: usize) -> (r: Option<(usize, bool)>)
        requires
            old(self).wf(),
            slices >= 1,
        ensures
            final(self).wf(),
            old(self).same_header(*final(self)),
            final(self).any_purged() == old(self).any_purged(),
            old(self).span_alloc_outcome(*final(self), slices as int, r),
    {
        proof {
            self.lemma_live_starts_finite();
            vstd::set_lib::lemma_int_range(0, SLICES_PER_SEGMENT as int);
            vstd::set_lib::lemma_len_subset(self.live_starts(), vstd::set_lib::set_int_range(0, SLICES_PER_SEGMENT as int));
        }
        let n = self.free_spans.len();
        let mut k: usize = 0;
        while k < n
            invariant
                self.wf(),
                *self == *old(self),
                n == self.free_list().len(),
                k <= n,
                slices >= 1,
                forall|i: int| 0 <= i < k ==> !#[trigger] self.fits(i, slices as int),
            decreases n - k,
        {
            let s = self.free_spans[k];
            proof {
                assert(self.is_start(s as int));
            }
            let c = self.slots[s].slice_count as usize;
            if c >= slices {
                let ghost pre = *self;
                proof {
                    assert(pre.first_fit(k as int, slices as int));
                    assert(s + c <= pre.nfree());
                    assert(pre.used() < SLICES_PER_SEGMENT) by {
                        assert(!pre.live_starts().contains(s as int));
                        pre.lemma_live_below(s as int);
                    }
                }
                self.free_spans.remove(k);
                if self.slots[s].purged {
                    let cur = self.slots[s];
                    self.slots.set(s, SpanSlot { purged: false, ..cur });
                    proof {
                        assert(s * SEGMENT_SLICE_SIZE + c * SEGMENT_SLICE_SIZE <= SEGMENT_SIZE) by (nonlinear_arith)
                            requires s + c <= SLICES_PER_SEGMENT;
                    }
                    let _ = crate::os::commit(self.base + s * SEGMENT_SLICE_SIZE, c * SEGMENT_SLICE_SIZE);
                }
                let ghost mid = *self;
                proof {
                    assert forall|j: int| 0 <= j < SLICES_PER_SEGMENT && j != s implies #[trigger] mid.slot(j) == pre.slot(j) by {}
                    assert(!mid.slot(s as int).purged);
                }
                let ghost mut am = mid;
                if c > slices {
                    self.span_mark(s + slices, c - slices, false);
                    proof {
                        am = *self;
                    }
                    self.free_spans.insert(0, s + slices);
                }
                let ghost mid2 = *self;
                proof {
                    assert(mid2.slots@ == am.slots@);
                    assert forall|j: int| 0 <= j < SLICES_PER_SEGMENT && !(s <= j < s + c) implies #[trigger] mid2.slot(j) == pre.slot(j) by {
                        assert(mid.slot(j) == pre.slot(j));
                        assert(am.slot(j) == mid.slot(j));
                    }
                    if c > slices {
                        assert(mid2.slot((s + slices) as int) == (SpanSlot {
                            slice_offset: 0, slice_count: (c - slices) as u16, live: false,
                            purged: pre.is_purged((s + slices) as int) })) by {
                            assert(mid.slot((s + slices) as int) == pre.slot((s + slices) as int));
                            assert(am.slot((s + slices) as int) == mid2.slot((s + slices) as int));
                        }
                        assert forall|j: int| s + slices < j < s + c implies #[trigger] mid2.off(j) == j - (s + slices) by {
                            assert(am.slot(j) == mid2.slot(j));
                        }
                    }
                }
                self.span_mark(s, slices, true);
                let ghost am2 = *self;
                self.used_pages = self.used_pages + 1;
                proof {
                    let post = *self;
                    assert(post.slots@ == am2.slots@);
                    assert forall|j: int| 0 <= j < SLICES_PER_SEGMENT && !(s <= j < s + c) implies #[trigger] post.slot(j) == pre.slot(j) by {
                        assert(mid2.slot(j) == pre.slot(j));
                        assert(am2.slot(j) == mid2.slot(j));
                    }
                    assert forall|j: int| s + slices < j < s + c implies #[trigger] post.off(j) == j - (s + slices) by {
                        assert(mid2.off(j) == j - (s + slices));
                        assert(am2.slot(j) == mid2.slot(j));
                    }
                    assert forall|j: int| s < j < s + slices implies #[trigger] post.off(j) == j - s by {
                        assert(am2.slot(j).slice_offset == (j - s) as u16);
                    }
                    assert(post.slot(s as int) == am2.slot(s as int));
                    assert(mid2.slot(s as int) == mid.slot(s as int)) by {
                        assert(am.slot(s as int) == mid.slot(s as int));
                    }
                    assert(post.slot(s as int) == (SpanSlot { slice_offset: 0, slice_count: slices as u16, live: true, purged: false }));
                    assert(post.free_list() == if c > slices {
                        seq![(s + slices) as usize] + pre.free_list().remove(k as int)
                    } else {
                        pre.free_list().remove(k as int)
                    });
                    if c > slices {
                        assert(am2.slot((s + slices) as int) == mid2.slot((s + slices) as int));
                    }
                    if c > slices {
                        assert(post.free_list() =~= seq![(s + slices) as usize] + pre.free_list().remove(k as int));
                        assert(post.slot((s + slices) as int) == (SpanSlot {
                            slice_offset: 0, slice_count: (c - slices) as u16, live: false,
                            purged: pre.is_purged((s + slices) as int) }));
                    } else {
                        assert(post.free_list() =~= pre.free_list().remove(k as int));
                    }
                    Self::lemma_take_listed(pre, post, k as int, slices as int);
                }
                return Some((s, false));
            }
            k = k + 1;
        }
        let idx = self.next_free_slice;
        if slices > SLICES_PER_SEGMENT - idx {
            return None;
        }
        let ghost pre = *self;
        proof {
            assert(pre.used() < SLICES_PER_SEGMENT) by {
                assert(!pre.live_starts().contains(idx as int));
                pre.lemma_live_below(idx as int);
            }
        }
        self.next_free_slice = idx + slices;
        self.used_pages = self.used_pages + 1;
        self.span_mark(idx, slices, true);
        proof {
            Self::lemma_take_bump(pre, *self, slices as int);
        }
        Some((idx, self.mem_is_zero))
    }

    /// Where the span at `s` merges to on the left: the first slice of the
    /// free span just before it, or `s` itself.
    pub open spec fn merge_lo(&self, s: int) -> int {
        if s > HEADER_SLICES && !self.is_live(self.start_of(s - 1)) {
            self.start_of(s - 1)
        } else {
            s
        }
    }

    /// The free span just after the span at `s` exists.
    pub open spec fn right_free(&self, s: int) -> bool {
        s + self.cnt(s) < self.nfree() && !self.is_live(s + self.cnt(s))
    }

    /// Where the span at `s` merges to on the right: the end of the free
    /// span just after it, or its own end.
    pub open spec fn merge_hi(&self, s: int) -> int {
        if self.right_free(s) {
            s + self.cnt(s) + self.cnt(s + self.cnt(s))
        } else {
            s + self.cnt(s)
        }
    }

    /// The free list after freeing the span at `s`: its free neighbours
    /// leave the list, and the merged span is pushed at the head.
    pub open spec fn freed_list(&self, s: int) -> Seq<usize> {
        let l1 = if self.right_free(s) {
            self.free_list().remove_value((s + self.cnt(s)) as usize)
        } else {
            self.free_list()
        };
        let l2 = if self.merge_lo(s) != s { l1.remove_value(self.merge_lo(s) as usize) } else { l1 };
        seq![self.merge_lo(s) as usize] + l2
    }

    /// The spans after freeing the span at `s`: it and its free neighbours
    /// become one free span, purged when `purged`.
    pub open spec fn freed_spans(&self, s: int, purged: bool) -> Map<int, (int, bool, bool)> {
        let lo = self.merge_lo(s);
        let m1 = self.spans().remove(s);
        let m2 = if self.right_free(s) { m1.remove(s + self.cnt(s)) } else { m1 };
        let m3 = if lo != s { m2.remove(lo) } else { m2 };
        m3.insert(lo, (self.merge_hi(s) - lo, false, purged || self.is_purged(lo)))
    }

    /// Removing a value from a list without duplicates removes just it.
    proof fn lemma_remove_value(l: Seq<usize>, v: usize)
        requires
            l.no_duplicates(),
            l.contains(v),
        ensures
            l.remove_value(v).no_duplicates(),
            l.remove_value(v).len() == l.len() - 1,
            forall|x: usize| #[trigger] l.remove_value(v).contains(x) <==> l.contains(x) && x != v,
    {
        l.index_of_first_ensures(v);
        let k = l.index_of_first(v)->Some_0;
        let m = l.remove(k);
        assert(l.remove_value(v) == m);
        assert(m.no_duplicates()) by {
            assert forall|a: int, b: int| 0 <= a < b < m.len() implies m[a] != m[b] by {
                let a0 = if a < k { a } else { a + 1 };
                let b0 = if b < k { b } else { b + 1 };
                assert(m[a] == l[a0] && m[b] == l[b0]);
            }
        }
        assert forall|x: usize| #[trigger] m.contains(x) <==> l.contains(x) && x != v by {
            if m.contains(x) {
                let i = choose|i: int| 0 <= i < m.len() && m[i] == x;
                let i0 = if i < k { i } else { i + 1 };
                assert(m[i] == l[i0]);
                assert(i0 != k);
            }
            if l.contains(x) && x != v {
                let i0 = choose|i0: int| 0 <= i0 < l.len() && l[i0] == x;
                assert(i0 != k);
                let i = if i0 < k { i0 } else { i0 - 1 };
                assert(m[i] == l[i0]);
            }
        }
    }

    /// Freeing the live span at `s` into one free span `[merge_lo,
    /// merge_hi)` keeps the invariant and has the stated effect.
    #[verifier::spinoff_prover]
    #[verifier::rlimit(40)]
    proof fn lemma_free_span(pre: Segment, post: Segment, s: int, purged: bool)
        requires
            pre.wf(),
            pre.is_start(s),
            pre.is_live(s),
            post.slot_count() == SLICES_PER_SEGMENT,
            post.nfree() == pre.nfree(),
            post.base_addr() == pre.base_addr(),
            post.total() == pre.total(),
            post.used() == pre.used() - 1,
            ({
                let lo = pre.merge_lo(s);
                let hi = pre.merge_hi(s);
                &&& post.slot(lo) == (SpanSlot {
                    slice_offset: 0, slice_count: (hi - lo) as u16, live: false, purged: purged || pre.is_purged(lo) })
                &&& forall|j: int| lo < j < hi ==> #[trigger] post.off(j) == j - lo
                &&& forall|j: int| 0 <= j < SLICES_PER_SEGMENT && !(lo <= j < hi) ==> #[trigger] post.slot(j) == pre.slot(j)
                &&& post.free_list() == pre.freed_list(s)
            }),
        ensures
            post.wf(),
            post.spans() == pre.freed_spans(s, purged),
    {
        let c = pre.cnt(s);
        let r = s + c;
        let lo = pre.merge_lo(s);
        let hi = pre.merge_hi(s);
        let rf = pre.right_free(s);
        Self::lemma_span_isolated(pre, s);
        assert(r <= pre.nfree());
        if rf {
            pre.lemma_next_start(s);
            Self::lemma_span_isolated(pre, r);
        }
        let lf = lo != s;
        let ls = pre.start_of(s - 1);
        if s > HEADER_SLICES {
            pre.lemma_prev_start(s);
            Self::lemma_span_isolated(pre, ls);
        }
        assert(lo <= s && r <= hi && hi <= pre.nfree());
        // The pre starts in [lo, hi) are ls (when merged), s and r (when
        // merged).
        assert forall|t: int| #[trigger] pre.is_start(t) && lo <= t < hi implies
            (t == s || (lf && t == ls) || (rf && t == r)) by {
            if t < s {
                assert(lf);
            } else if t >= r {
                assert(rf);
            }
        }
        assert(post.tiled_within(lo, hi)) by {
            assert forall|j: int| lo <= j < hi implies {
                &&& lo <= #[trigger] post.start_of(j) <= j
                &&& post.off(post.start_of(j)) == 0
                &&& j < post.start_of(j) + post.cnt(post.start_of(j))
            } by {
                if j > lo {
                    assert(post.off(j) == j - lo);
                }
            }
            assert forall|t: int| lo <= t < hi && #[trigger] post.off(t) == 0 implies {
                &&& post.cnt(t) >= 1
                &&& t + post.cnt(t) <= hi
                &&& forall|j: int| t <= j < t + post.cnt(t) ==> #[trigger] post.off(j) == j - t
            } by {
                if t > lo {
                    assert(post.off(t) == t - lo);
                }
            }
        }
        assert forall|t: int| #[trigger] pre.is_start(t) && t < lo implies t + pre.cnt(t) <= lo by {
            if lf {
                assert(t < ls);
            }
        }
        assert forall|t: int| #[trigger] pre.is_start(t) && lo <= t < hi implies t + pre.cnt(t) <= hi by {
            assert(t == s || (lf && t == ls) || (rf && t == r));
        }
        Self::lemma_retile(pre, post, lo, hi);
        assert forall|t: int| #[trigger] post.is_start(t) == ((pre.is_start(t) && !(lo <= t < hi)) || t == lo) by {
            if lo < t < hi {
                assert(post.off(t) == t - lo);
            } else if 0 <= t < SLICES_PER_SEGMENT && t != lo {
                assert(post.slot(t) == pre.slot(t));
            }
        }
        // The list.
        let l0 = pre.free_list();
        let l1 = if rf { l0.remove_value(r as usize) } else { l0 };
        if rf {
            assert(l0.contains(r as usize));
            Self::lemma_remove_value(l0, r as usize);
        }
        assert(l1.no_duplicates());
        assert forall|x: usize| #[trigger] l1.contains(x) <==> l0.contains(x) && !(rf && x == r as usize) by {}
        let l2 = if lf { l1.remove_value(lo as usize) } else { l1 };
        if lf {
            assert(pre.is_start(ls) && !pre.is_live(ls));
            assert(l0.contains(ls as usize));
            assert(ls != r);
            assert(l1.contains(ls as usize));
            Self::lemma_remove_value(l1, lo as usize);
        }
        assert(l2.no_duplicates());
        assert forall|x: usize| #[trigger] l2.contains(x) <==> l0.contains(x) && !(rf && x == r as usize) && !(lf && x == ls as usize) by {}
        let l3 = post.free_list();
        assert(l3 == seq![lo as usize] + l2);
        // Members of l0 are pre free starts; those left in l2 lie outside [lo, hi).
        assert forall|x: usize| #[trigger] l2.contains(x) implies {
            &&& pre.is_start(x as int)
            &&& !pre.is_live(x as int)
            &&& !(lo <= x && x < hi)
        } by {
            let i = choose|i: int| 0 <= i < l0.len() && l0[i] == x;
            assert(pre.is_start(l0[i] as int));
            if lo <= x && x < hi {
                assert(x as int == s || (lf && x as int == ls) || (rf && x as int == r));
            }
        }
        assert(!l2.contains(lo as usize)) by {
            if l2.contains(lo as usize) {
                assert(!(lo <= lo && lo < hi));
            }
        }
        assert(l3.no_duplicates()) by {
            assert forall|a: int, b: int| 0 <= a < b < l3.len() implies l3[a] != l3[b] by {
                assert(l3[b] == l2[b - 1]);
                if a == 0 {
                    assert(l2.contains(l2[b - 1]));
                } else {
                    assert(l3[a] == l2[a - 1]);
                }
            }
        }
        assert forall|k: int| 0 <= k < l3.len() implies {
            &&& #[trigger] post.is_start(l3[k] as int)
            &&& !post.is_live(l3[k] as int)
        } by {
            if k > 0 {
                assert(l3[k] == l2[k - 1]);
                assert(l2.contains(l2[k - 1]));
                assert(post.slot(l2[k - 1] as int) == pre.slot(l2[k - 1] as int));
            } else {
                assert(l3[0] == lo as usize);
            }
        }
        assert forall|t: int| #[trigger] post.is_start(t) && !post.is_live(t) implies l3.contains(t as usize) by {
            if t == lo {
                assert(l3[0] == lo as usize);
            } else {
                assert(post.slot(t) == pre.slot(t));
                assert(pre.is_start(t) && !pre.is_live(t));
                assert(l0.contains(t as usize));
                assert(t != s);
                assert(l2.contains(t as usize));
                let i = choose|i: int| 0 <= i < l2.len() && l2[i] == t as usize;
                assert(l3[i + 1] == l2[i]);
            }
        }
        // No two free neighbours.
        assert forall|t: int| #[trigger] post.is_start(t) && !post.is_live(t) && t + post.cnt(t) < post.nfree()
            implies post.is_live(t + post.cnt(t)) by {
            if t == lo {
                if rf {
                    assert(pre.is_live(r + pre.cnt(r)));
                    assert(post.slot(hi) == pre.slot(hi));
                } else {
                    if r < pre.nfree() {
                        pre.lemma_next_start(s);
                    }
                    assert(post.slot(hi) == pre.slot(hi));
                }
            } else {
                assert(post.slot(t) == pre.slot(t));
                assert(pre.is_start(t) && !pre.is_live(t));
                assert(!(lo <= t < hi));
                let q = t + pre.cnt(t);
                assert(pre.is_live(q));
                pre.lemma_next_start(t);
                if t < lo {
                    assert(q <= lo);
                    if q == lo {
                        if lf {
                            assert(false);
                        } else {
                            assert(s > HEADER_SLICES);
                            pre.lemma_in_one_span(t, ls, s - 1);
                            assert(false);
                        }
                    }
                }
                assert(post.slot(q) == pre.slot(q));
            }
        }
        // The live-page count.
        assert(post.live_starts() =~= pre.live_starts().remove(s)) by {
            assert forall|t: int| post.live_starts().contains(t) == pre.live_starts().remove(s).contains(t) by {
                if 0 <= t < SLICES_PER_SEGMENT && !(lo <= t < hi) {
                    assert(post.slot(t) == pre.slot(t));
                }
                if pre.is_start(t) && lo <= t < hi {
                    assert(t == s || (lf && t == ls) || (rf && t == r));
                }
            }
        }
        pre.lemma_live_starts_finite();
        // The span map.
        let expect = pre.freed_spans(s, purged);
        assert(post.spans() =~= expect) by {
            assert forall|t: int| #[trigger] post.spans().contains_key(t) == expect.contains_key(t) by {
                if pre.is_start(t) && lo <= t < hi {
                    assert(t == s || (lf && t == ls) || (rf && t == r));
                }
            }
            assert forall|t: int| #[trigger] post.spans().contains_key(t) implies post.spans()[t] == expect[t] by {
                if t != lo {
                    assert(post.slot(t) == pre.slot(t));
                }
            }
        }
    }

    /// Take `v`, a free span on the list, off the list.
    fn list_remove(&mut self, v: usize)
        requires
            old(self).free_list().no_duplicates(),
            old(self).free_list().contains(v),
        ensures
            final(self).free_list() == old(self).free_list().remove_value(v),
            final(self).slots@ == old(self).slots@,
            final(self).next_free_slice == old(self).next_free_slice,
            final(self).used_pages == old(self).used_pages,
            final(self).purged_any == old(self).purged_any,
            final(self).kind == old(self).kind,
            final(self).base == old(self).base,
            final(self).total_size == old(self).total_size,
            final(self).thread_id == old(self).thread_id,
            final(self).mem_is_zero == old(self).mem_is_zero,
            final(self).guarded == old(self).guarded,
    {
        proof {
            old(self).free_list().index_of_first_ensures(v);
        }
        let n = self.free_spans.len();
        let mut k: usize = 0;
        while k < n
            invariant
                *self == *old(self),
                n == self.free_spans@.len(),
                k <= n,
                self.free_spans@.contains(v),
                forall|i: int| 0 <= i < k ==> self.free_spans@[i] != v,
            decreases n - k,
        {
            if self.free_spans[k] == v {
                proof {
                    old(self).free_list().index_of_first_ensures(v);
                    let f = old(self).free_list().index_of_first(v)->Some_0;
                    assert(f == k as int);
                }
                self.free_spans.remove(k);
                return;
            }
            k = k + 1;
        }
        proof {
            let i = choose|i: int| 0 <= i < self.free_spans@.len() && self.free_spans@[i] == v;
            assert(false);
        }
    }

    /// Return the live span at `s` to the segment: it merges with a free
    /// span just after it and one just before it into one free span pushed
    /// at the head of the list. When `purge_delay` is not negative and the
    /// merged span has at least `MEDIUM_PAGE_SLICES` slices, its memory is
    /// purged (decommitted when `purge_decommits` is set, else reset) and
    /// marked so; whether that happened.
    #[verifier::spinoff_prover]
    #[verifier::rlimit(40)]
    pub fn span_free(&mut self, s: usize, options: &crate::options::Options) -> (purged: bool)
        requires
            old(self).wf(),
            old(self).is_start(s as int),
            old(self).is_live(s as int),
            options.wf(),
        ensures
            final(self).wf(),
            old(self).same_header(*final(self)),
            final(self).nfree() == old(self).nfree(),
            final(self).used() == old(self).used() - 1,
            purged == (options.spec_get(crate::options::PURGE_DELAY as int) >= 0
                && old(self).merge_hi(s as int) - old(self).merge_lo(s as int) >= MEDIUM_PAGE_SLICES),
            final(self).any_purged() == (old(self).any_purged() || purged),
            final(self).spans() == old(self).freed_spans(s as int, purged),
            final(self).free_list() == old(self).freed_list(s as int),
    {
        let ghost pre = *self;
        proof {
            Self::lemma_span_isolated(pre, s as int);
            assert(pre.live_starts().contains(s as int));
            pre.lemma_live_starts_finite();
            assert(pre.used() >= 1) by {
                vstd::set_lib::lemma_set_empty_equivalency_len(pre.live_starts());
            }
        }
        let c = self.slots[s].slice_count as usize;
        self.used_pages = self.used_pages - 1;
        let cur = self.slots[s];
        self.slots.set(s, SpanSlot { live: false, ..cur });
        let mut idx = s;
        let mut len = c;
        let right = s + c;
        if right < self.next_free_slice && !self.slots[right].live {
            proof {
                pre.lemma_next_start(s as int);
                assert(pre.free_list().contains(right as usize));
            }
            self.list_remove(right);
            len = len + self.slots[right].slice_count as usize;
            proof {
                assert(self.slot(right as int) == pre.slot(right as int));
                assert(right + pre.cnt(right as int) <= pre.nfree());
            }
        }
        let ghost after_right = *self;
        if idx > HEADER_SLICES {
            let l = idx - 1;
            proof {
                pre.lemma_prev_start(s as int);
                assert(self.slot(l as int) == pre.slot(l as int));
            }
            let ls = l - self.slots[l].slice_offset as usize;
            proof {
                assert(ls as int == pre.start_of(s - 1));
                assert(self.slot(ls as int) == pre.slot(ls as int));
            }
            if !self.slots[ls].live {
                proof {
                    assert(pre.free_list().contains(ls as usize));
                    if pre.right_free(s as int) {
                        Self::lemma_remove_value(pre.free_list(), right as usize);
                        assert(ls != right);
                    }
                }
                self.list_remove(ls);
                len = len + (idx - ls);
                idx = ls;
            }
        }
        proof {
            assert(idx as int == pre.merge_lo(s as int));
            assert(idx + len == pre.merge_hi(s as int));
            assert(self.free_list() == pre.freed_list(s as int).drop_first());
        }
        let ghost before_mark = *self;
        self.span_mark(idx, len, false);
        let ghost marked = *self;
        self.free_spans.insert(0, idx);
        let mut purged = false;
        let purge_delay = options.get(crate::options::PURGE_DELAY);
        if purge_delay >= 0 && len >= MEDIUM_PAGE_SLICES {
            let area = self.base + idx * SEGMENT_SLICE_SIZE;
            proof {
                assert(idx * SEGMENT_SLICE_SIZE + len * SEGMENT_SLICE_SIZE <= SEGMENT_SIZE) by (nonlinear_arith)
                    requires idx + len <= SLICES_PER_SEGMENT;
            }
            let decommits = options.is_enabled(crate::options::PURGE_DECOMMITS);
            match crate::os::purge(area, len * SEGMENT_SLICE_SIZE, decommits) {
                Ok(_) => {
                    let cur = self.slots[idx];
                    self.slots.set(idx, SpanSlot { purged: true, ..cur });
                    self.purged_any = true;
                    purged = true;
                },
                Err(_) => {},
            }
        }
        proof {
            let post = *self;
            let lo = idx as int;
            let hi = (idx + len) as int;
            assert forall|j: int| 0 <= j < SLICES_PER_SEGMENT && !(lo <= j < hi) implies #[trigger] post.slot(j) == pre.slot(j) by {
                assert(marked.slot(j) == before_mark.slot(j));
                assert(before_mark.slot(j) == pre.slot(j));
            }
            assert forall|j: int| lo < j < hi implies #[trigger] post.off(j) == j - lo by {
                assert(marked.slot(j).slice_offset == (j - lo) as u16);
            }
            assert(before_mark.slot(lo).purged == pre.slot(lo).purged);
            assert(post.free_list() =~= pre.freed_list(s as int));
            Self::lemma_free_span(pre, post, s as int, purged);
        }
        purged
    }

    /// The invariant depends on the layout fields only.
    #[verifier::spinoff_prover]
    proof fn lemma_wf_same_layout(a: Segment, b: Segment)
        requires
            a.wf(),
            a.slots@ == b.slots@,
            a.free_spans@ == b.free_spans@,
            a.next_free_slice == b.next_free_slice,
            a.used_pages == b.used_pages,
            a.base == b.base,
            a.total_size == b.total_size,
        ensures
            b.wf(),
    {
        assert forall|j: int| HEADER_SLICES <= j < b.nfree() implies {
            &&& HEADER_SLICES <= #[trigger] b.start_of(j) <= j
            &&& b.off(b.start_of(j)) == 0
            &&& j < b.start_of(j) + b.cnt(b.start_of(j))
        } by {
            assert(a.start_of(j) == b.start_of(j));
        }
        assert forall|s: int| #[trigger] b.is_start(s) implies {
            &&& b.cnt(s) >= 1
            &&& s + b.cnt(s) <= b.nfree()
            &&& forall|j: int| s <= j < s + b.cnt(s) ==> #[trigger] b.off(j) == j - s
        } by {
            assert(a.is_start(s));
            assert forall|j: int| s <= j < s + b.cnt(s) implies #[trigger] b.off(j) == j - s by {
                assert(a.off(j) == j - s);
            }
        }
        assert forall|k: int| 0 <= k < b.free_list().len() implies {
            &&& #[trigger] b.is_start(b.free_list()[k] as int)
            &&& !b.is_live(b.free_list()[k] as int)
        } by {
            assert(a.is_start(a.free_list()[k] as int));
        }
        assert forall|t: int| #[trigger] b.is_start(t) && !b.is_live(t) implies b.free_list().contains(t as usize) by {
            assert(a.is_start(t));
        }
        assert forall|t: int| #[trigger] b.is_start(t) && !b.is_live(t) && t + b.cnt(t) < b.nfree()
            implies b.is_live(t + b.cnt(t)) by {
            assert(a.is_start(t));
        }
        assert(b.live_starts() =~= a.live_starts());
    }

    /// With a slice index that is not a live start, fewer than
    /// `SLICES_PER_SEGMENT` spans are live.
    proof fn lemma_live_below(&self, x: int)
        requires
            self.nfree() <= SLICES_PER_SEGMENT,
            0 <= x < SLICES_PER_SEGMENT,
            !self.live_starts().contains(x),
        ensures
            self.live_starts().len() < SLICES_PER_SEGMENT,
    {
        self.lemma_live_starts_finite();
        let r = vstd::set_lib::set_int_range(0, SLICES_PER_SEGMENT as int);
        vstd::set_lib::lemma_int_range(0, SLICES_PER_SEGMENT as int);
        let l = self.live_starts().insert(x);
        assert(l.subset_of(r));
        vstd::set_lib::lemma_len_subset(l, r);
        assert(l.len() == self.live_starts().len() + 1);
    }

    /// A span of the layout lies among the carved slices, after the header.
    pub proof fn lemma_span_bounds(&self, s: int)
        requires
            self.wf(),
            self.spans().contains_key(s),
        ensures
            HEADER_SLICES <= s,
            s + self.spans()[s].0 <= self.nfree(),
            self.nfree() <= SLICES_PER_SEGMENT,
            self.spans()[s].0 >= 1,
    {
        assert(self.is_start(s));
    }

    /// Every slice of a carved span leads back to the span's first slice.
    pub proof fn lemma_start_of_in_span(&self, s: int, j: int)
        requires
            self.wf(),
            self.spans().contains_key(s),
            s <= j < s + self.spans()[s].0,
        ensures
            self.start_of(j) == s,
    {
        assert(self.is_start(s));
        assert(self.off(j) == j - s);
    }

    /// The live starts are a finite set of slice indices.
    proof fn lemma_live_starts_finite(&self)
        requires
            self.nfree() <= SLICES_PER_SEGMENT,
        ensures
            self.live_starts().finite(),
            self.live_starts().subset_of(vstd::set_lib::set_int_range(0, SLICES_PER_SEGMENT as int)),
    {
        let r = vstd::set_lib::set_int_range(0, SLICES_PER_SEGMENT as int);
        assert(self.live_starts().subset_of(r)) by {
            assert forall|s: int| self.live_starts().contains(s) implies r.contains(s) by {
                assert(self.is_start(s));
            }
        }
        vstd::set_lib::lemma_int_range(0, SLICES_PER_SEGMENT as int);
        vstd::set_lib::lemma_len_subset(self.live_starts(), r);
    }

    /// The span after a carved span that is not the last one starts right
    /// where it ends.
    proof fn lemma_next_start(&self, s: int)
        requires
            self.wf(),
            self.is_start(s),
            s + self.cnt(s) < self.nfree(),
        ensures
            self.is_start(s + self.cnt(s)),
    {
        let r = s + self.cnt(s);
        let t = self.start_of(r);
        assert(HEADER_SLICES <= t <= r && self.off(t) == 0 && r < t + self.cnt(t));
        assert(self.is_start(t));
        if t < r {
            if t < s {
                assert(self.off(s) == s - t);
                assert(false);
            } else if t > s {
                assert(self.off(t) == t - s);
                assert(false);
            }
            assert(t == s);
            assert(false);
        }
    }

    /// The span before a span that does not follow the header ends right
    /// where it starts.
    proof fn lemma_prev_start(&self, s: int)
        requires
            self.wf(),
            self.is_start(s),
            s > HEADER_SLICES,
        ensures
            self.is_start(self.start_of(s - 1)),
            self.start_of(s - 1) + self.cnt(self.start_of(s - 1)) == s,
    {
        let l = s - 1;
        let t = self.start_of(l);
        assert(HEADER_SLICES <= t <= l && self.off(t) == 0 && l < t + self.cnt(t));
        assert(self.is_start(t));
        if t + self.cnt(t) > s {
            assert(self.off(s) == s - t);
            assert(false);
        }
    }

    /// Slice `j` of a span lies in no other span.
    proof fn lemma_in_one_span(&self, s: int, t: int, j: int)
        requires
            self.wf(),
            self.is_start(s),
            self.is_start(t),
            s <= j < s + self.cnt(s),
            t <= j < t + self.cnt(t),
        ensures
            s == t,
    {
        assert(self.off(j) == j - s);
        assert(self.off(j) == j - t);
    }

    /// A fresh header over `[base, base + total_size)`: nothing carved.
    pub fn new(kind: SegmentKind, base: usize, total_size: usize, thread_id: usize, mem_is_zero: bool) -> (seg: Segment)
        requires
            base % SEGMENT_SIZE == 0,
            total_size >= 1,
            base + total_size <= usize::MAX,
            base + SEGMENT_SIZE <= usize::MAX,
            base + crate::prim::fixed::spec_div_ceil(total_size as int, SEGMENT_SIZE as int) * SEGMENT_SIZE <= usize::MAX,
        ensures
            seg.wf(),
            seg.seg_kind() == kind,
            seg.base_addr() == base,
            seg.total() == total_size,
            seg.owner() == thread_id,
            seg.zero_mem() == mem_is_zero,
            !seg.has_guard(),
            !seg.any_purged(),
            seg.nfree() == HEADER_SLICES,
            seg.used() == 0,
            seg.free_list().len() == 0,
            seg.spans() == Map::<int, (int, bool, bool)>::empty(),
            forall|j: int| 0 <= j < SLICES_PER_SEGMENT ==> #[trigger] seg.slot(j)
                == (SpanSlot { slice_offset: 0, slice_count: 0, live: false, purged: false }),
    {
        let mut slots: Vec<SpanSlot> = Vec::new();
        let mut i: usize = 0;
        while i < SLICES_PER_SEGMENT
            invariant
                i <= SLICES_PER_SEGMENT,
                slots@.len() == i,
                forall|j: int| 0 <= j < i ==> #[trigger] slots@[j]
                    == (SpanSlot { slice_offset: 0, slice_count: 0, live: false, purged: false }),
            decreases SLICES_PER_SEGMENT - i,
        {
            slots.push(SpanSlot { slice_offset: 0, slice_count: 0, live: false, purged: false });
            i = i + 1;
        }
        let seg = Segment {
            kind,
            base,
            total_size,
            thread_id,
            mem_is_zero,
            guarded: false,
            next_free_slice: HEADER_SLICES,
            used_pages: 0,
            purged_any: false,
            slots,
            free_spans: Vec::new(),
        };
        proof {
            assert(seg.live_starts() =~= Set::<int>::empty());
            assert(seg.spans() =~= Map::<int, (int, bool, bool)>::empty());
        }
        seg
    }

    /// What the segment holds.
    pub fn kind(&self) -> (k: SegmentKind)
        ensures
            k == self.seg_kind(),
    {
        self.kind
    }

    /// Base address.
    pub fn base(&self) -> (b: usize)
        ensures
            b == self.base_addr(),
    {
        self.base
    }

    /// Bytes reserved.
    pub fn total_size(&self) -> (t: usize)
        ensures
            t == self.total(),
    {
        self.total_size
    }

    /// Owning thread.
    pub fn thread_id(&self) -> (t: usize)
        ensures
            t == self.owner(),
    {
        self.thread_id
    }

    /// The never-carved region is known zero.
    pub fn mem_is_zero(&self) -> (z: bool)
        ensures
            z == self.zero_mem(),
    {
        self.mem_is_zero
    }

    /// Live pages carved from the segment.
    pub fn used_pages(&self) -> (u: usize)
        ensures
            u == self.used(),
    {
        self.used_pages
    }

    /// Hand the segment to thread `t` (0 abandons it); nothing else changes.
    pub fn set_thread_id(&mut self, t: usize)
        requires
            old(self).wf(),
        ensures
            final(self).wf(),
            final(self).owner() == t,
            final(self).same_layout(*old(self)),
    {
        self.thread_id = t;
        proof {
            Self::lemma_wf_same_layout(*old(self), *self);
            assert(self.live_starts() =~= old(self).live_starts());
        }
    }

    /// The first slice of the span holding `addr`, an address of a carved
    /// slice of this segment.
    pub fn page_of(&self, addr: usize) -> (s: usize)
        requires
            self.wf(),
            self.base_addr() + HEADER_SLICES * SEGMENT_SLICE_SIZE <= addr,
            addr < self.base_addr() + self.nfree() * SEGMENT_SLICE_SIZE,
        ensures
            s == self.start_of((addr - self.base_addr()) / (SEGMENT_SLICE_SIZE as int)),
            self.is_start(s as int),
            s <= (addr - self.base_addr()) / (SEGMENT_SLICE_SIZE as int) < s + self.cnt(s as int),
    {
        let idx = (addr - self.base) / SEGMENT_SLICE_SIZE;
        proof {
            let d = addr - self.base;
            vstd::arithmetic::div_mod::lemma_fundamental_div_mod(d, SEGMENT_SLICE_SIZE as int);
            assert(HEADER_SLICES <= idx < self.nfree()) by (nonlinear_arith)
                requires HEADER_SLICES * SEGMENT_SLICE_SIZE <= d < self.nfree() * SEGMENT_SLICE_SIZE,
                    d == SEGMENT_SLICE_SIZE * idx + d % (SEGMENT_SLICE_SIZE as int),
                    0 <= d % (SEGMENT_SLICE_SIZE as int) < SEGMENT_SLICE_SIZE;
            assert(HEADER_SLICES <= self.start_of(idx as int) <= idx);
        }
        idx - self.slots[idx].slice_offset as usize
    }

    /// The bump cursor: slices below it have been carved.
    pub fn carved_slices(&self) -> (n: usize)
        ensures
            n == self.nfree(),
    {
        self.next_free_slice
    }

    /// The span whose first slice is `s`: its length and whether it is
    /// live; `None` when no carved span starts there.
    pub fn span_info(&self, s: usize) -> (r: Option<(usize, bool)>)
        requires
            self.wf(),
        ensures
            r is Some <==> self.spans().contains_key(s as int),
            r matches Some((n, live)) ==> n == self.spans()[s as int].0 && live == self.spans()[s as int].1,
    {
        if s < HEADER_SLICES || s >= self.next_free_slice {
            return None;
        }
        let slot = self.slots[s];
        if slot.slice_offset != 0 {
            return None;
        }
        Some((slot.slice_count as usize, slot.live))
    }

    /// Payload address of the span whose first slice is `idx`.
    pub fn page_area(&self, idx: usize) -> (a: usize)
        requires
            self.wf(),
            idx < SLICES_PER_SEGMENT,
        ensures
            a == self.base_addr() + idx * SEGMENT_SLICE_SIZE,
    {
        proof {
            assert(idx * SEGMENT_SLICE_SIZE <= SEGMENT_SIZE) by (nonlinear_arith)
                requires idx < SLICES_PER_SEGMENT;
        }
        self.base + idx * SEGMENT_SLICE_SIZE
    }
}


/// A power of two no larger than `2^m` divides it.
pub proof fn lemma_align_divides(align: int, m: nat)
    requires
        is_power_of_two(align),
        align <= vstd::arithmetic::power2::pow2(m),
    ensures
        (vstd::arithmetic::power2::pow2(m) as int) % align == 0,
{
    let e = choose|e: nat| vstd::arithmetic::power2::pow2(e) == align;
    if e > m {
        vstd::arithmetic::power2::lemma_pow2_strictly_increases(m, e);
        assert(false);
    }
    let d = (m - e) as nat;
    vstd::arithmetic::power2::lemma_pow2_adds(e, d);
    assert(e + d == m);
    vstd::arithmetic::mul::lemma_mul_is_commutative(vstd::arithmetic::power2::pow2(e) as int, vstd::arithmetic::power2::pow2(d) as int);
    vstd::arithmetic::power2::lemma_pow2_pos(e);
    vstd::arithmetic::div_mod::lemma_mod_multiples_basic(vstd::arithmetic::power2::pow2(d) as int, align);
}

/// `size` rounded to whole pages is `size` itself for a multiple of
/// `SEGMENT_SIZE`.
pub proof fn lemma_page_align_segments(k: int)
    requires
        k >= 1,
    ensures
        spec_page_align_up(k * SEGMENT_SIZE) == k * SEGMENT_SIZE,
{
    let s = k * SEGMENT_SIZE;
    assert(s >= SEGMENT_SIZE) by (nonlinear_arith)
        requires k >= 1, s == k * SEGMENT_SIZE, SEGMENT_SIZE == 33554432;
    assert(s == (k * 8192) * FIXED_PAGE) by (nonlinear_arith)
        requires s == k * SEGMENT_SIZE, SEGMENT_SIZE == 33554432, FIXED_PAGE == 4096;
    vstd::arithmetic::div_mod::lemma_fundamental_div_mod_converse(s + FIXED_PAGE - 1, FIXED_PAGE as int, k * 8192, FIXED_PAGE - 1);
}

/// Where a Normal segment came from: a chunk `c` of the arenas (their
/// outcome leaving the backend as `ar`), else, for an unrestricted request,
/// the backend.
pub open spec fn segment_source(arenas: Arenas, options: Options, region: FixedRegion, post_arenas: Arenas,
    post_region: FixedRegion, arena_id: int, base: int, zero: bool) -> bool
{
    exists|c: Option<(usize, bool)>, ar: FixedRegion| {
        &&& #[trigger] arenas.chunk_alloc_outcome(options, region, post_arenas, ar, arena_id, c)
        &&& match c {
            Some((p, z)) => post_region == ar && base == p && zero == z,
            None => arena_id < 0 && ar.alloc_took(post_region, base, SEGMENT_SIZE as int, SEGMENT_SIZE as int) && !zero,
        }
    }
}

/// Why no Normal segment came: the arenas had no chunk (their outcome
/// leaving the backend as `ar`) and either the request was restricted to
/// one arena or the backend could not serve a segment either.
pub open spec fn segment_refused(arenas: Arenas, options: Options, region: FixedRegion, post_arenas: Arenas,
    post_region: FixedRegion, arena_id: int) -> bool
{
    exists|ar: FixedRegion| {
        &&& #[trigger] arenas.chunk_alloc_outcome(options, region, post_arenas, ar, arena_id, None)
        &&& post_region == ar
        &&& (arena_id >= 0 || !ar.can_alloc(SEGMENT_SIZE as int, SEGMENT_SIZE as int))
    }
}

/// Reserve a Normal segment for thread `thread_id`: a chunk from the arenas
/// when one qualifies (only arena `arena_id` when it is not negative), else,
/// for an unrestricted request, fresh backend memory. The new segment is
/// registered in the segment map. The backend's segments stride from its
/// origin, which must therefore be segment-aligned for masks to find them.
pub fn segment_alloc(arenas: &mut Arenas, region: &mut FixedRegion, options: &Options, map: &mut SegmentMap,
    arena_id: i32, thread_id: usize) -> (r: Result<Segment, PrimError>)
    requires
        old(arenas).wf(),
        old(region).wf(),
        old(region).origin() % SEGMENT_SIZE as int == 0,
        options.wf(),
        old(map).wf(),
        Arenas::default_reserve(*options) + SEGMENT_SIZE - 1 <= usize::MAX,
        Arenas::reserve_total(Arenas::default_reserve(*options)) + FIXED_PAGE - 1 <= usize::MAX,
    ensures
        final(arenas).wf(),
        final(region).wf(),
        final(region).origin() == old(region).origin(),
        final(region).total() == old(region).total(),
        final(map).wf(),
        match r {
            Ok(seg) => {
                &&& seg.wf()
                &&& seg.seg_kind() == SegmentKind::Normal
                &&& seg.total() == SEGMENT_SIZE
                &&& seg.owner() == thread_id
                &&& seg.nfree() == HEADER_SLICES
                &&& seg.used() == 0
                &&& seg.spans() == Map::<int, (int, bool, bool)>::empty()
                &&& seg.free_list().len() == 0
                &&& !seg.has_guard()
                &&& !seg.any_purged()
                &&& segment_source(*old(arenas), *options, *old(region), *final(arenas), *final(region),
                    arena_id as int, seg.base_addr(), seg.zero_mem())
                &&& forall|w: int| 0 <= w < spec_map_bits() ==> #[trigger] final(map).registered(w)
                    == (old(map).registered(w) || in_range_windows(seg.base_addr(), SEGMENT_SIZE as int, w))
            },
            Err(_) => {
                &&& segment_refused(*old(arenas), *options, *old(region), *final(arenas), *final(region), arena_id as int)
                &&& *final(map) == *old(map)
            },
        },
{
    let ghost a0 = *arenas;
    let ghost r0 = *region;
    let got = arenas.chunk_alloc(options, region, arena_id);
    let ghost ar = *region;
    let (addr, zero) = match got {
        Some((p, z)) => (p, z),
        None => {
            if arena_id >= 0 {
                proof {
                    assert(a0.chunk_alloc_outcome(*options, r0, *arenas, ar, arena_id as int, None));
                }
                return Err(0);
            }
            proof {
                vstd::arithmetic::power2::lemma2_to64();
                assert(is_power_of_two(SEGMENT_SIZE as int)) by {
                    assert(vstd::arithmetic::power2::pow2(25) == SEGMENT_SIZE);
                }
                lemma_page_align_segments(1);
            }
            match alloc_aligned(region, SEGMENT_SIZE, SEGMENT_SIZE, true, false) {
                Ok(b) => {
                    proof {
                        assert(ar.alloc_took(*region, b.addr as int, SEGMENT_SIZE as int, SEGMENT_SIZE as int));
                        let d = b.addr - ar.origin();
                        assert(d % SEGMENT_SIZE as int == 0);
                        vstd::arithmetic::div_mod::lemma_fundamental_div_mod(d, SEGMENT_SIZE as int);
                        vstd::arithmetic::div_mod::lemma_fundamental_div_mod(ar.origin(), SEGMENT_SIZE as int);
                        vstd::arithmetic::div_mod::lemma_mod_multiples_vanish(
                            d / (SEGMENT_SIZE as int) + ar.origin() / (SEGMENT_SIZE as int), 0, SEGMENT_SIZE as int);
                        assert(b.addr as int == SEGMENT_SIZE * (d / (SEGMENT_SIZE as int) + ar.origin() / (SEGMENT_SIZE as int))) by (nonlinear_arith)
                            requires d == SEGMENT_SIZE * (d / (SEGMENT_SIZE as int)) + 0, ar.origin() == SEGMENT_SIZE * (ar.origin() / (SEGMENT_SIZE as int)) + 0,
                                b.addr == d + ar.origin();
                        vstd::arithmetic::div_mod::lemma_mod_multiples_basic(
                            d / (SEGMENT_SIZE as int) + ar.origin() / (SEGMENT_SIZE as int), SEGMENT_SIZE as int);
                        assert(b.addr % SEGMENT_SIZE == 0);
                        assert(ar.in_region(b.addr as int, FixedRegion::placed_size(SEGMENT_SIZE as int)));
                        assert(FixedRegion::placed_size(SEGMENT_SIZE as int) == SEGMENT_SIZE) by {
                            assert(spec_page_align_up(SEGMENT_SIZE as int) == spec_align_up(SEGMENT_SIZE as int, FIXED_PAGE as int));
                        }
                    }
                    (b.addr, false)
                },
                Err(e) => {
                    proof {
                        assert(a0.chunk_alloc_outcome(*options, r0, *arenas, ar, arena_id as int, None));
                    }
                    return Err(e);
                },
            }
        },
    };
    let seg = Segment::new(SegmentKind::Normal, addr, SEGMENT_SIZE, thread_id, zero);
    map.register(addr);
    proof {
        assert(a0.chunk_alloc_outcome(*options, r0, *arenas, ar, arena_id as int, got));
    }
    Ok(seg)
}

/// Release an empty Normal segment: out of the segment map, its guard page
/// lifted and purged memory committed again, then back to the arena whose
/// chunk it is, else to the backend. The segment's memory must be out of
/// the backend's hands.
pub fn segment_free(seg: Segment, arenas: &mut Arenas, region: &mut FixedRegion, map: &mut SegmentMap)
    -> (r: Result<(), PrimError>)
    requires
        seg.wf(),
        seg.seg_kind() == SegmentKind::Normal,
        seg.total() == SEGMENT_SIZE,
        seg.used() == 0,
        old(arenas).wf(),
        old(region).wf(),
        old(map).wf(),
        old(region).in_region(seg.base_addr(), seg.total())
            ==> range_set(seg.base_addr(), seg.total()).disjoint(old(region).free_set()),
    ensures
        final(arenas).wf(),
        final(region).wf(),
        final(region).origin() == old(region).origin(),
        final(region).total() == old(region).total(),
        final(map).wf(),
        forall|w: int| 0 <= w < spec_map_bits() ==> #[trigger] final(map).registered(w)
            == (old(map).registered(w) && !in_range_windows(seg.base_addr(), SEGMENT_SIZE as int, w)),
        (exists|k: int| 0 <= k < old(arenas).count() && #[trigger] old(arenas).get(k).holds(seg.base_addr())) ==> {
            &&& r is Ok
            &&& old(arenas).freed_chunks(*final(arenas), seg.base_addr(), 1)
            &&& *final(region) == *old(region)
        },
        !(exists|k: int| 0 <= k < old(arenas).count() && #[trigger] old(arenas).get(k).holds(seg.base_addr())) ==> {
            &&& *final(arenas) == *old(arenas)
            &&& (r is Ok <==> old(region).can_free(seg.base_addr(), seg.total()))
            &&& r is Ok ==> final(region).free_set()
                == old(region).free_set().union(range_set(seg.base_addr(), seg.total()))
            &&& r is Err ==> *final(region) == *old(region)
        },
{
    proof {
        seg.lemma_wf_geometry();
    }
    let base = seg.base();
    let total = seg.total_size();
    map.unregister(base);
    if seg.purged_any || seg.guarded {
        let _ = crate::os::protect(base + HEADER_SLICES * SEGMENT_SLICE_SIZE, total - HEADER_SLICES * SEGMENT_SLICE_SIZE, false);
        let _ = crate::os::commit(base + HEADER_SLICES * SEGMENT_SLICE_SIZE, total - HEADER_SLICES * SEGMENT_SLICE_SIZE);
    }
    if arenas.chunk_free(base) {
        return Ok(());
    }
    proof {
        lemma_page_align_segments(1);
        assert(FixedRegion::placed_size(SEGMENT_SIZE as int) == SEGMENT_SIZE) by {
            assert(spec_page_align_up(SEGMENT_SIZE as int) == spec_align_up(SEGMENT_SIZE as int, FIXED_PAGE as int));
        }
    }
    crate::os::free(region, OsBlock { addr: base, size: total, is_large: false, is_zero: false })
}


/// What a request for `n` contiguous chunks does to the arenas.
pub open spec fn chunks_outcome(arenas: Arenas, options: Options, region: FixedRegion, post: Arenas,
    post_region: FixedRegion, n: int, restrict: int, r: Option<(usize, bool)>) -> bool
{
    if n == 1 {
        arenas.chunk_alloc_outcome(options, region, post, post_region, restrict, r)
    } else {
        arenas.chunk_alloc_n_outcome(options, region, post, post_region, n, restrict, r)
    }
}

/// Slack a huge block needs for its alignment: none when the payload's own
/// alignment already serves it.
pub open spec fn huge_extra(align: int, offset: int) -> int {
    if align > SEGMENT_SLICE_SIZE || offset % align != 0 { align } else { 0 }
}

/// Bytes a huge block of `size` reserves: the header slice, the block and
/// its alignment slack, in whole pages.
pub open spec fn huge_want(size: int, align: int, offset: int) -> int {
    spec_page_align_up(SEGMENT_SLICE_SIZE + size + huge_extra(align, offset))
}

/// Where the huge block goes in a reservation at `base`: the first address
/// at or after the payload with `(block + offset) % align == 0`.
pub open spec fn huge_block_at(base: int, align: int, offset: int) -> int {
    let area = base + SEGMENT_SLICE_SIZE;
    area + (align - (area + offset) % align) % align
}

/// Where a huge segment's reservation came from: `n` contiguous arena
/// chunks `c` (the arenas' outcome leaving the backend as `ar`), else the
/// backend, for `want` bytes.
pub open spec fn huge_source(arenas: Arenas, options: Options, region: FixedRegion, post_arenas: Arenas,
    post_region: FixedRegion, want: int, base: int, total: int, zero: bool) -> bool
{
    let n = crate::prim::fixed::spec_div_ceil(want, SEGMENT_SIZE as int);
    exists|c: Option<(usize, bool)>, ar: FixedRegion| {
        &&& #[trigger] chunks_outcome(arenas, options, region, post_arenas, ar, n, -1, c)
        &&& match c {
            Some((p, z)) => post_region == ar && base == p && zero == z && total == n * SEGMENT_SIZE,
            None => ar.alloc_took(post_region, base, want, SEGMENT_SIZE as int) && !zero && total == want,
        }
    }
}

/// Neither source could give a huge segment `want` bytes: the arenas gave
/// no run of chunks (leaving the backend as `post_region`) and the backend
/// cannot place `want` bytes there.
pub open spec fn huge_refused(arenas: Arenas, options: Options, region: FixedRegion, post_arenas: Arenas,
    post_region: FixedRegion, want: int) -> bool
{
    &&& chunks_outcome(arenas, options, region, post_arenas, post_region,
        crate::prim::fixed::spec_div_ceil(want, SEGMENT_SIZE as int), -1, None)
    &&& !post_region.can_alloc(want, SEGMENT_SIZE as int)
}

/// Reserve a dedicated Huge segment for one block of `size` bytes placed
/// so that `(block + offset) % align == 0`: from contiguous arena chunks
/// when they can be had, else from the backend. Its one page spans every
/// slice after the header; the segment is registered in the segment map.
/// The segment and the block's address.
#[verifier::rlimit(40)]
pub fn huge_alloc(arenas: &mut Arenas, region: &mut FixedRegion, options: &Options, map: &mut SegmentMap,
    size: usize, align: usize, offset: usize, thread_id: usize) -> (r: Result<(Segment, usize), PrimError>)
    requires
        old(arenas).wf(),
        old(region).wf(),
        old(region).origin() % SEGMENT_SIZE as int == 0,
        options.wf(),
        old(map).wf(),
        Arenas::default_reserve(*options) + SEGMENT_SIZE - 1 <= usize::MAX,
        Arenas::reserve_total(Arenas::default_reserve(*options)) + FIXED_PAGE - 1 <= usize::MAX,
        is_power_of_two(align as int),
        1 <= align <= SEGMENT_SIZE / 2,
        SEGMENT_SLICE_SIZE + size + align + 2 * SEGMENT_SIZE <= usize::MAX,
        old(region).origin() + old(region).total() + SEGMENT_SIZE <= usize::MAX,
    ensures
        final(arenas).wf(),
        final(region).wf(),
        final(region).origin() == old(region).origin(),
        final(region).total() == old(region).total(),
        final(map).wf(),
        match r {
            Ok((seg, block)) => {
                &&& seg.wf()
                &&& seg.seg_kind() == SegmentKind::Huge
                &&& seg.owner() == thread_id
                &&& seg.nfree() == SLICES_PER_SEGMENT
                &&& seg.used() == 1
                &&& seg.spans() == Map::<int, (int, bool, bool)>::empty().insert(HEADER_SLICES as int,
                    (USABLE_SLICES as int, true, false))
                &&& !seg.has_guard()
                &&& !seg.any_purged()
                &&& huge_source(*old(arenas), *options, *old(region), *final(arenas), *final(region),
                    huge_want(size as int, align as int, offset as int), seg.base_addr(), seg.total(), seg.zero_mem())
                &&& block == huge_block_at(seg.base_addr(), align as int, offset as int)
                &&& (block + offset) % (align as int) == 0
                &&& seg.base_addr() + SEGMENT_SLICE_SIZE <= block
                &&& block + size <= seg.base_addr() + seg.total()
                &&& forall|w: int| 0 <= w < spec_map_bits() ==> #[trigger] final(map).registered(w)
                    == (old(map).registered(w) || in_range_windows(seg.base_addr(), seg.total(), w))
            },
            Err(_) => {
                &&& *final(map) == *old(map)
                &&& huge_refused(*old(arenas), *options, *old(region), *final(arenas), *final(region),
                    huge_want(size as int, align as int, offset as int))
            },
        },
{
    proof {
        vstd::arithmetic::power2::lemma2_to64();
        assert(is_power_of_two(SEGMENT_SIZE as int)) by {
            assert(vstd::arithmetic::power2::pow2(25) == SEGMENT_SIZE);
        }
    }
    let header = SEGMENT_SLICE_SIZE;
    let extra = if align > SEGMENT_SLICE_SIZE || offset % align != 0 { align } else { 0 };
    let want = crate::os::page_align_up(header + size + extra);
    let chunks = crate::prim::fixed::div_ceil(want, SEGMENT_SIZE);
    proof {
        assert(want <= header + size + extra + FIXED_PAGE);
        assert(chunks >= 1);
        assert(chunks * SEGMENT_SIZE < want + SEGMENT_SIZE);
    }
    let ghost a0 = *arenas;
    let ghost r0 = *region;
    let got = arenas.chunk_alloc_n(options, region, -1, chunks);
    let ghost ar = *region;
    let (base, total, zero) = match got {
        Some((p, z)) => (p, chunks * SEGMENT_SIZE, z),
        None => {
            proof {
                assert(want % FIXED_PAGE == 0) by {
                    crate::prim::lemma_round_up_bounds(if header + size + extra > 1 { header + size + extra } else { 1 }, FIXED_PAGE as int);
                }
                vstd::arithmetic::div_mod::lemma_fundamental_div_mod(want as int, FIXED_PAGE as int);
                vstd::arithmetic::div_mod::lemma_fundamental_div_mod_converse(want + FIXED_PAGE - 1, FIXED_PAGE as int,
                    (want as int) / (FIXED_PAGE as int), FIXED_PAGE - 1);
                assert(spec_page_align_up(want as int) == want);
            }
            match alloc_aligned(region, want, SEGMENT_SIZE, true, false) {
                Ok(b) => {
                    proof {
                        assert(ar.alloc_took(*region, b.addr as int, want as int, SEGMENT_SIZE as int));
                        let d = b.addr - ar.origin();
                        vstd::arithmetic::div_mod::lemma_fundamental_div_mod(d, SEGMENT_SIZE as int);
                        vstd::arithmetic::div_mod::lemma_fundamental_div_mod(ar.origin(), SEGMENT_SIZE as int);
                        assert(b.addr as int == SEGMENT_SIZE * (d / (SEGMENT_SIZE as int) + ar.origin() / (SEGMENT_SIZE as int))) by (nonlinear_arith)
                            requires d == SEGMENT_SIZE * (d / (SEGMENT_SIZE as int)) + 0, ar.origin() == SEGMENT_SIZE * (ar.origin() / (SEGMENT_SIZE as int)) + 0,
                                b.addr == d + ar.origin();
                        vstd::arithmetic::div_mod::lemma_mod_multiples_basic(
                            d / (SEGMENT_SIZE as int) + ar.origin() / (SEGMENT_SIZE as int), SEGMENT_SIZE as int);
                        assert(FixedRegion::placed_size(want as int) == want) by {
                            assert(spec_page_align_up(want as int) == spec_align_up(want as int, FIXED_PAGE as int));
                        }
                        assert(ar.in_region(b.addr as int, want as int));
                    }
                    (b.addr, want, false)
                },
                Err(e) => {
                    proof {
                        assert(chunks_outcome(a0, *options, r0, *arenas, ar, chunks as int, -1, None));
                        assert(want == huge_want(size as int, align as int, offset as int));
                    }
                    return Err(e);
                },
            }
        },
    };
    proof {
        assert(total >= want);
        assert(base + SEGMENT_SIZE <= usize::MAX);
        assert(crate::prim::fixed::spec_div_ceil(if total > 1 { total as int } else { 1 }, SEGMENT_SIZE as int)
            * SEGMENT_SIZE <= total + SEGMENT_SIZE - 1) by {
            vstd::arithmetic::div_mod::lemma_fundamental_div_mod(total + SEGMENT_SIZE - 1, SEGMENT_SIZE as int);
        }
    }
    let mut seg = Segment::new(SegmentKind::Huge, base, total, thread_id, zero);
    map.register_range(base, total);
    let ghost fresh = seg;
    let carved = seg.span_alloc(USABLE_SLICES);
    proof {
        assert(fresh.no_fit(USABLE_SLICES as int));
        assert(carved is Some);
        assert(!fresh.is_purged(HEADER_SLICES as int));
        assert(seg.spans() =~= Map::<int, (int, bool, bool)>::empty().insert(HEADER_SLICES as int,
            (USABLE_SLICES as int, true, false)));
    }
    let area = base + header;
    let om = offset % align;
    let x = area + om;
    let delta = (align - x % align) % align;
    let block = area + delta;
    proof {
        vstd::arithmetic::div_mod::lemma_add_mod_noop(area as int, offset as int, align as int);
        vstd::arithmetic::div_mod::lemma_add_mod_noop(area as int, om as int, align as int);
        vstd::arithmetic::div_mod::lemma_mod_twice(offset as int, align as int);
        assert((area + offset) % (align as int) == (x as int) % (align as int));
        assert(block == huge_block_at(base as int, align as int, offset as int));
        // (block + offset) is a multiple of align.
        let m = (area + offset) % (align as int);
        vstd::arithmetic::div_mod::lemma_fundamental_div_mod(area + offset, align as int);
        if m == 0 {
            vstd::arithmetic::div_mod::lemma_mod_self_0(align as int);
            assert(delta == 0);
        } else {
            vstd::arithmetic::div_mod::lemma_small_mod((align - m) as nat, align as nat);
            assert(delta == align - m);
        }
        assert((block + offset) % (align as int) == 0) by {
            let q = (area + offset) / (align as int);
            let q2 = if m == 0 { q } else { q + 1 };
            assert(block + offset == q2 * align) by (nonlinear_arith)
                requires block + offset == area + offset + (if m == 0 { 0 } else { align - m }),
                    area + offset == align * q + m, q2 == if m == 0 { q } else { q + 1 };
            vstd::arithmetic::div_mod::lemma_mod_multiples_basic(q2, align as int);
        }
        // It fits.
        if extra == 0 {
            vstd::arithmetic::div_mod::lemma_fundamental_div_mod(base as int, SEGMENT_SIZE as int);
            assert((SEGMENT_SIZE as int) % (align as int) == 0) by {
                lemma_align_divides(align as int, 25);
            }
            assert((area as int) % (align as int) == 0) by {
                assert((SEGMENT_SLICE_SIZE as int) % (align as int) == 0) by {
                    lemma_align_divides(align as int, 16);
                }
                let k1 = (base as int) / (SEGMENT_SIZE as int);
                let k2 = (SEGMENT_SIZE as int) / (align as int);
                let k3 = (SEGMENT_SLICE_SIZE as int) / (align as int);
                vstd::arithmetic::div_mod::lemma_fundamental_div_mod(SEGMENT_SIZE as int, align as int);
                vstd::arithmetic::div_mod::lemma_fundamental_div_mod(SEGMENT_SLICE_SIZE as int, align as int);
                assert(area == (k1 * k2 + k3) * align) by (nonlinear_arith)
                    requires area == base + SEGMENT_SLICE_SIZE, base == SEGMENT_SIZE * k1 + 0,
                        SEGMENT_SIZE == align * k2 + 0, SEGMENT_SLICE_SIZE == align * k3 + 0;
                vstd::arithmetic::div_mod::lemma_mod_multiples_basic(k1 * k2 + k3, align as int);
            }
            assert(om == 0);
            assert((x as int) % (align as int) == 0);
            assert(delta == 0) by {
                vstd::arithmetic::div_mod::lemma_mod_self_0(align as int);
            }
        }
        assert(block + size <= base + total);
        assert(chunks_outcome(a0, *options, r0, *arenas, ar, chunks as int, -1, got));
        assert(huge_source(a0, *options, r0, *arenas, *region,
            huge_want(size as int, align as int, offset as int), seg.base_addr(), seg.total(), seg.zero_mem()));
    }
    Ok((seg, block))
}


/// Release a Huge segment, the whole reservation: out of the segment map,
/// then, when it is whole chunks, back to the arena whose chunks they are
/// (guard lifted and memory committed again first), else to the backend.
/// The segment's memory must be out of the backend's hands.
pub fn huge_free(seg: Segment, arenas: &mut Arenas, region: &mut FixedRegion, map: &mut SegmentMap)
    -> (r: Result<(), PrimError>)
    requires
        seg.wf(),
        seg.seg_kind() == SegmentKind::Huge,
        old(arenas).wf(),
        old(region).wf(),
        old(map).wf(),
        seg.total() + FIXED_PAGE - 1 <= usize::MAX,
        seg.base_addr() + FixedRegion::placed_size(seg.total()) <= usize::MAX,
        old(region).in_region(seg.base_addr(), FixedRegion::placed_size(seg.total()))
            ==> range_set(seg.base_addr(), FixedRegion::placed_size(seg.total())).disjoint(old(region).free_set()),
        forall|k: int| 0 <= k < old(arenas).count() && #[trigger] old(arenas).get(k).holds(seg.base_addr())
            ==> old(arenas).get(k).chunk_of(seg.base_addr()) + seg.total() / (SEGMENT_SIZE as int) <= crate::arena::MAX_CHUNKS,
    ensures
        final(arenas).wf(),
        final(region).wf(),
        final(region).origin() == old(region).origin(),
        final(region).total() == old(region).total(),
        final(map).wf(),
        forall|w: int| 0 <= w < spec_map_bits() ==> #[trigger] final(map).registered(w)
            == (old(map).registered(w) && !in_range_windows(seg.base_addr(), seg.total(), w)),
        ({
            let arena_held = seg.total() % (SEGMENT_SIZE as int) == 0
                && exists|k: int| 0 <= k < old(arenas).count() && #[trigger] old(arenas).get(k).holds(seg.base_addr());
            &&& arena_held ==> {
                &&& r is Ok
                &&& old(arenas).freed_chunks(*final(arenas), seg.base_addr(), seg.total() / (SEGMENT_SIZE as int))
                &&& *final(region) == *old(region)
            }
            &&& !arena_held ==> {
                &&& *final(arenas) == *old(arenas)
                &&& (r is Ok <==> old(region).can_free(seg.base_addr(), seg.total()))
                &&& r is Ok ==> final(region).free_set()
                    == old(region).free_set().union(range_set(seg.base_addr(), FixedRegion::placed_size(seg.total())))
                &&& r is Err ==> *final(region) == *old(region)
            }
        }),
{
    proof {
        seg.lemma_wf_geometry();
    }
    let base = seg.base();
    let total = seg.total_size();
    map.unregister_range(base, total);
    if total % SEGMENT_SIZE == 0 {
        if seg.guarded || seg.purged_any {
            let _ = crate::os::protect(base + HEADER_SLICES * SEGMENT_SLICE_SIZE, total - HEADER_SLICES * SEGMENT_SLICE_SIZE, false);
            let _ = crate::os::commit(base + HEADER_SLICES * SEGMENT_SLICE_SIZE, total - HEADER_SLICES * SEGMENT_SLICE_SIZE);
        }
        if arenas.chunk_free_n(base, total / SEGMENT_SIZE) {
            return Ok(());
        }
    }
    crate::os::free(region, OsBlock { addr: base, size: total, is_large: false, is_zero: false })
}

impl Segment {
    /// Purge every free span not purged yet (decommit when
    /// `purge_decommits` is set, else reset), and mark it so: what a dying
    /// thread does to a segment it abandons. The layout is unchanged.
    pub fn purge_free_spans(&mut self, options: &Options)
        requires
            old(self).wf(),
            options.wf(),
        ensures
            final(self).wf(),
            old(self).same_header(*final(self)),
            final(self).nfree() == old(self).nfree(),
            final(self).used() == old(self).used(),
            final(self).free_list() == old(self).free_list(),
            final(self).spans() == Map::new(|s: int| old(self).is_start(s),
                |s: int| (old(self).cnt(s), old(self).is_live(s), old(self).is_purged(s) || !old(self).is_live(s))),
            final(self).any_purged() == (old(self).any_purged()
                || exists|s: int| #[trigger] old(self).is_start(s) && !old(self).is_live(s) && !old(self).is_purged(s)),
    {
        let decommits = options.is_enabled(crate::options::PURGE_DECOMMITS);
        let n = self.free_spans.len();
        let mut k: usize = 0;
        while k < n
            invariant
                old(self).wf(),
                k <= n,
                n == old(self).free_list().len(),
                self.free_spans@ == old(self).free_spans@,
                self.next_free_slice == old(self).next_free_slice,
                self.used_pages == old(self).used_pages,
                self.kind == old(self).kind,
                self.base == old(self).base,
                self.total_size == old(self).total_size,
                self.thread_id == old(self).thread_id,
                self.mem_is_zero == old(self).mem_is_zero,
                self.guarded == old(self).guarded,
                self.slots@.len() == SLICES_PER_SEGMENT,
                forall|j: int| #![trigger self.slot(j)] 0 <= j < SLICES_PER_SEGMENT ==> {
                    &&& self.slot(j).slice_offset == old(self).slot(j).slice_offset
                    &&& self.slot(j).slice_count == old(self).slot(j).slice_count
                    &&& self.slot(j).live == old(self).slot(j).live
                    &&& self.slot(j).purged == (old(self).slot(j).purged
                        || exists|i: int| 0 <= i < k && self.free_spans@[i] as int == j)
                },
                self.purged_any == (old(self).purged_any
                    || exists|i: int| #![trigger old(self).free_spans@[i]] 0 <= i < k
                        && !old(self).slot(old(self).free_spans@[i] as int).purged),
            decreases n - k,
        {
            let s = self.free_spans[k];
            let ghost before = *self;
            proof {
                assert(old(self).is_start(s as int));
                assert(self.slot(s as int).slice_count == old(self).slot(s as int).slice_count);
                // `s` heads no earlier list entry, so its flag is still the old one.
                assert forall|i: int| 0 <= i < k implies self.free_spans@[i] as int != s as int by {
                    assert(old(self).free_list().no_duplicates());
                }
                assert(self.slot(s as int).purged == old(self).slot(s as int).purged);
            }
            if !self.slots[s].purged {
                let len = self.slots[s].slice_count as usize;
                proof {
                    assert(s + len <= SLICES_PER_SEGMENT);
                    assert(s * SEGMENT_SLICE_SIZE + len * SEGMENT_SLICE_SIZE <= SEGMENT_SIZE) by (nonlinear_arith)
                        requires s + len <= SLICES_PER_SEGMENT;
                }
                match crate::os::purge(self.base + s * SEGMENT_SLICE_SIZE, len * SEGMENT_SLICE_SIZE, decommits) {
                    Ok(_) => {
                        let cur = self.slots[s];
                        self.slots.set(s, SpanSlot { purged: true, ..cur });
                        self.purged_any = true;
                    },
                    Err(_) => {},
                }
            }
            proof {
                assert forall|j: int| #![trigger self.slot(j)] 0 <= j < SLICES_PER_SEGMENT implies {
                    &&& self.slot(j).slice_offset == old(self).slot(j).slice_offset
                    &&& self.slot(j).slice_count == old(self).slot(j).slice_count
                    &&& self.slot(j).live == old(self).slot(j).live
                    &&& self.slot(j).purged == (old(self).slot(j).purged
                        || exists|i: int| 0 <= i < k + 1 && self.free_spans@[i] as int == j)
                } by {
                    if j == s as int {
                        assert(self.free_spans@[k as int] as int == j);
                    } else {
                        assert(self.slot(j) == before.slot(j));
                        assert(before.slot(j).purged == (old(self).slot(j).purged
                            || exists|i: int| 0 <= i < k && before.free_spans@[i] as int == j));
                    }
                    if j != s as int && exists|i: int| 0 <= i < k + 1 && self.free_spans@[i] as int == j {
                        let i = choose|i: int| 0 <= i < k + 1 && self.free_spans@[i] as int == j;
                        assert(i != k);
                    }
                }
                if !before.slot(s as int).purged {
                    assert(!old(self).slot(old(self).free_spans@[k as int] as int).purged);
                } else {
                    assert(self.purged_any == before.purged_any);
                    if exists|i: int| #![trigger old(self).free_spans@[i]] 0 <= i < k + 1
                        && !old(self).slot(old(self).free_spans@[i] as int).purged {
                        let i = choose|i: int| #![trigger old(self).free_spans@[i]] 0 <= i < k + 1
                            && !old(self).slot(old(self).free_spans@[i] as int).purged;
                        assert(i != k);
                    }
                }
            }
            k = k + 1;
        }
        proof {
            let pre = *old(self);
            let post = *self;
            // A slot's purge flag was set exactly when it heads a free span.
            assert forall|j: int| 0 <= j < SLICES_PER_SEGMENT implies
                (exists|i: int| 0 <= i < n && #[trigger] post.free_spans@[i] as int == j)
                == (pre.is_start(j) && !pre.is_live(j)) by {
                if pre.is_start(j) && !pre.is_live(j) {
                    assert(pre.free_list().contains(j as usize));
                    let i = choose|i: int| 0 <= i < pre.free_list().len() && pre.free_list()[i] == j as usize;
                    assert(post.free_spans@[i] as int == j);
                }
                if exists|i: int| 0 <= i < n && post.free_spans@[i] as int == j {
                    let i = choose|i: int| 0 <= i < n && post.free_spans@[i] as int == j;
                    assert(pre.is_start(pre.free_list()[i] as int));
                }
            }
            assert forall|j: int| #[trigger] post.is_start(j) == pre.is_start(j) by {
                if 0 <= j < SLICES_PER_SEGMENT {
                    assert(post.slot(j).slice_offset == pre.slot(j).slice_offset);
                }
            }
            // Everything but the purge flags is the old layout.
            assert forall|j: int| HEADER_SLICES <= j < post.nfree() implies {
                &&& HEADER_SLICES <= #[trigger] post.start_of(j) <= j
                &&& post.off(post.start_of(j)) == 0
                &&& j < post.start_of(j) + post.cnt(post.start_of(j))
            } by {
                assert(post.slot(j).slice_offset == pre.slot(j).slice_offset);
                assert(pre.start_of(j) == post.start_of(j));
                assert(post.slot(pre.start_of(j)).slice_offset == pre.slot(pre.start_of(j)).slice_offset);
                assert(post.slot(pre.start_of(j)).slice_count == pre.slot(pre.start_of(j)).slice_count);
            }
            assert forall|t: int| #[trigger] post.is_start(t) implies {
                &&& post.cnt(t) >= 1
                &&& t + post.cnt(t) <= post.nfree()
                &&& forall|j: int| t <= j < t + post.cnt(t) ==> #[trigger] post.off(j) == j - t
            } by {
                assert(pre.is_start(t));
                assert(post.slot(t).slice_count == pre.slot(t).slice_count);
                assert forall|j: int| t <= j < t + post.cnt(t) implies #[trigger] post.off(j) == j - t by {
                    assert(post.slot(j).slice_offset == pre.slot(j).slice_offset);
                    assert(pre.off(j) == j - t);
                }
            }
            assert forall|i: int| 0 <= i < post.free_list().len() implies {
                &&& #[trigger] post.is_start(post.free_list()[i] as int)
                &&& !post.is_live(post.free_list()[i] as int)
            } by {
                let t = pre.free_list()[i] as int;
                assert(pre.is_start(t));
                assert(post.slot(t).live == pre.slot(t).live);
            }
            assert forall|t: int| #[trigger] post.is_start(t) && !post.is_live(t) implies post.free_list().contains(t as usize) by {
                assert(pre.is_start(t));
                assert(post.slot(t).live == pre.slot(t).live);
            }
            assert forall|t: int| #[trigger] post.is_start(t) && !post.is_live(t) && t + post.cnt(t) < post.nfree()
                implies post.is_live(t + post.cnt(t)) by {
                assert(pre.is_start(t));
                assert(post.slot(t).live == pre.slot(t).live);
                assert(post.slot(t).slice_count == pre.slot(t).slice_count);
                assert(post.slot(t + pre.cnt(t)).live == pre.slot(t + pre.cnt(t)).live);
            }
            assert(post.live_starts() =~= pre.live_starts()) by {
                assert forall|t: int| post.live_starts().contains(t) == pre.live_starts().contains(t) by {
                    if 0 <= t < SLICES_PER_SEGMENT {
                        assert(post.slot(t).live == pre.slot(t).live);
                    }
                }
            }
            let expect = Map::new(|s: int| pre.is_start(s),
                |s: int| (pre.cnt(s), pre.is_live(s), pre.is_purged(s) || !pre.is_live(s)));
            assert(post.spans() =~= expect) by {
                assert forall|t: int| #[trigger] post.spans().contains_key(t) implies post.spans()[t] == expect[t] by {
                    assert(post.slot(t).slice_count == pre.slot(t).slice_count);
                    assert(post.slot(t).live == pre.slot(t).live);
                }
            }
            assert(post.purged_any == (pre.any_purged()
                || exists|t: int| #[trigger] pre.is_start(t) && !pre.is_live(t) && !pre.is_purged(t))) by {
                if exists|i: int| #![trigger pre.free_spans@[i]] 0 <= i < n
                        && !pre.slot(pre.free_spans@[i] as int).purged {
                    let i = choose|i: int| #![trigger pre.free_spans@[i]] 0 <= i < n
                        && !pre.slot(pre.free_spans@[i] as int).purged;
                    let t = pre.free_spans@[i] as int;
                    assert(pre.wf());
                    assert(pre.listed());
                    assert(0 <= i < pre.free_list().len());
                    assert(pre.is_start(pre.free_list()[i] as int) && !pre.is_live(pre.free_list()[i] as int));
                    assert(pre.is_start(t) && !pre.is_live(t) && !pre.is_purged(t));
                }
                if exists|t: int| #[trigger] pre.is_start(t) && !pre.is_live(t) && !pre.is_purged(t) {
                    let t = choose|t: int| #[trigger] pre.is_start(t) && !pre.is_live(t) && !pre.is_purged(t);
                    assert(pre.free_list().contains(t as usize));
                    let i = choose|i: int| 0 <= i < pre.free_list().len() && pre.free_list()[i] == t as usize;
                    assert(!pre.slot(pre.free_spans@[i] as int).purged);
                }
            }
        }
    }

    /// A segment with no live page has one free span over all it ever
    /// carved, or carved nothing: freeing every page leaves no fragments.
    pub proof fn lemma_empty_is_one_span(&self)
        requires
            self.wf(),
            self.used() == 0,
        ensures
            self.nfree() > HEADER_SLICES ==> self.spans() == Map::<int, (int, bool, bool)>::empty().insert(
                HEADER_SLICES as int, (self.nfree() - HEADER_SLICES, false, self.is_purged(HEADER_SLICES as int))),
            self.nfree() == HEADER_SLICES ==> self.spans() == Map::<int, (int, bool, bool)>::empty(),
            self.free_list().len() == if self.nfree() > HEADER_SLICES { 1int } else { 0int },
    {
        self.lemma_live_starts_finite();
        assert forall|s: int| self.is_start(s) implies !#[trigger] self.is_live(s) by {
            if self.is_live(s) {
                assert(self.live_starts().contains(s));
                vstd::set_lib::lemma_set_empty_equivalency_len(self.live_starts());
            }
        }
        let h = HEADER_SLICES as int;
        if self.nfree() > h {
            assert(self.start_of(h) == h);
            assert(self.is_start(h));
            if h + self.cnt(h) < self.nfree() {
                assert(self.is_live(h + self.cnt(h)));
                self.lemma_next_start(h);
                assert(false);
            }
            assert forall|t: int| #[trigger] self.is_start(t) implies t == h by {
                Self::lemma_span_isolated(*self, h);
            }
            let expect = Map::<int, (int, bool, bool)>::empty().insert(h, (self.nfree() - h, false, self.is_purged(h)));
            assert(self.spans() =~= expect);
            // The list holds exactly the one free span.
            assert(self.free_list().contains(h as usize));
            assert forall|i: int| 0 <= i < self.free_list().len() implies #[trigger] self.free_list()[i] == h as usize by {
                assert(self.is_start(self.free_list()[i] as int));
            }
            if self.free_list().len() > 1 {
                assert(self.free_list()[0] == self.free_list()[1]);
                assert(false);
            }
        } else {
            assert(self.spans() =~= Map::<int, (int, bool, bool)>::empty());
            if self.free_list().len() > 0 {
                assert(self.is_start(self.free_list()[0] as int));
                assert(false);
            }
        }
    }
}

} // verus!
