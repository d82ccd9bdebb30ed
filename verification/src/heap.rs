//! The heap: pages queued by size bin, the segments they are carved from,
//! and the dedicated huge blocks. Allocation takes the first page of the
//! request's bin that has a free block once collected and extended, parks
//! full pages out of the way, and carves a fresh page when none serves.
//! Freeing pushes the block on its page's owner list and retires a page
//! that empties, returning its span to the segment.

use vstd::prelude::*;
use crate::arena::Arenas;
use crate::bins::{spec_bin, spec_bin_size, lemma_bin_size_inverts_bin, BIN_COUNT};
use crate::options::Options;
use crate::page::{Page, XFlag, IN_FULL, SINGLE_BLOCK, HUGE_SEGMENT, HAS_ALIGNED};
use crate::prim::fixed::{FixedRegion, FIXED_PAGE};
use crate::prim::is_power_of_two;
use crate::random::Random;
use crate::segment::{Segment, SegmentKind, segment_alloc, lemma_align_divides, HEADER_SLICES, USABLE_SLICES};
use crate::segment_map::SegmentMap;
use crate::types::{
    SMALL_SIZE_MAX,
    BIN_FULL, BIN_HUGE, LARGE_OBJ_SIZE_MAX, MEDIUM_OBJ_SIZE_MAX, MEDIUM_PAGE_SLICES, SEGMENT_SIZE,
    SEGMENT_SLICE_SIZE, SLICES_PER_SEGMENT, SMALL_OBJ_SIZE_MAX,
};

verus! {

/// The largest bin a binned size reaches.
pub const MAX_NORMAL_BIN: usize = 48;

/// The most abandoned segments one forced collection adopts.
pub const MAX_RECLAIM: usize = 1024;

/// Counters of the heap's work.
#[derive(Debug, Clone, Copy)]
pub struct Stats {
    /// Successful allocations.
    pub allocs: u64,
    /// Frees.
    pub frees: u64,
    /// Entries into the generic path.
    pub generic: u64,
    /// Pages freshly carved.
    pub pages_fresh: u64,
    /// Normal segments reserved.
    pub segments: u64,
    /// Huge allocations.
    pub huge_allocs: u64,
    /// Free-list extensions.
    pub extends: u64,
    /// Large allocations.
    pub large_allocs: u64,
    /// Pages retired.
    pub pages_retired: u64,
    /// Empty segments released.
    pub segments_freed: u64,
    /// Reallocations resolved in place.
    pub realloc_in_place: u64,
    /// Reallocations that moved the block.
    pub realloc_moved: u64,
    /// Blocks taken off the delayed list.
    pub delayed_frees: u64,
    /// Abandoned segments adopted.
    pub reclaims: u64,
    /// Guarded objects handed out.
    pub guarded: u64,
    /// Ranges purged.
    pub purges: u64,
}

impl Stats {
    /// All counters zero.
    pub fn new() -> (s: Stats)
        ensures
            s.allocs == 0 && s.frees == 0 && s.generic == 0 && s.pages_fresh == 0,
            s.segments == 0 && s.huge_allocs == 0 && s.extends == 0 && s.large_allocs == 0,
            s.pages_retired == 0 && s.segments_freed == 0 && s.realloc_in_place == 0,
            s.realloc_moved == 0 && s.delayed_frees == 0 && s.reclaims == 0 && s.guarded == 0,
            s.purges == 0,
    {
        Stats {
            allocs: 0,
            frees: 0,
            generic: 0,
            pages_fresh: 0,
            segments: 0,
            huge_allocs: 0,
            extends: 0,
            large_allocs: 0,
            pages_retired: 0,
            segments_freed: 0,
            realloc_in_place: 0,
            realloc_moved: 0,
            delayed_frees: 0,
            reclaims: 0,
            guarded: 0,
            purges: 0,
        }
    }
}

/// One counter bumped, saturating.
pub open spec fn bump(c: u64) -> u64 {
    if c < u64::MAX { (c + 1) as u64 } else { c }
}

/// Bump a counter, saturating.
fn inc(c: u64) -> (r: u64)
    ensures
        r == bump(c),
{
    if c < u64::MAX { c + 1 } else { c }
}

/// The page queues, indexed by bin, each front first.
pub struct PageQueues {
    qs: Vec<Vec<Page>>,
}

impl PageQueues {
    /// Queue `b`, front first.
    pub closed spec fn q(&self, b: int) -> Seq<Page> {
        self.qs@[b]@
    }

    /// Number of queues.
    pub closed spec fn count(&self) -> int {
        self.qs@.len() as int
    }

    /// Every queue empty.
    pub fn new() -> (r: Self)
        ensures
            r.count() == BIN_COUNT,
            forall|b: int| 0 <= b < BIN_COUNT ==> #[trigger] r.q(b).len() == 0,
    {
        let mut qs: Vec<Vec<Page>> = Vec::new();
        let mut i: usize = 0;
        while i < BIN_COUNT
            invariant
                i <= BIN_COUNT,
                qs@.len() == i,
                forall|b: int| 0 <= b < i ==> #[trigger] qs@[b]@.len() == 0,
            decreases BIN_COUNT - i,
        {
            qs.push(Vec::new());
            i = i + 1;
        }
        PageQueues { qs }
    }

    /// Pages in queue `b`.
    pub fn len(&self, b: usize) -> (n: usize)
        requires
            b < self.count(),
        ensures
            n == self.q(b as int).len(),
    {
        self.qs[b].len()
    }

    /// The page at position `k` of queue `b`.
    pub fn get(&self, b: usize, k: usize) -> (p: &Page)
        requires
            b < self.count(),
            k < self.q(b as int).len(),
        ensures
            *p == self.q(b as int)[k as int],
    {
        &self.qs[b][k]
    }

    /// Take the page at position `k` out of queue `b`.
    pub fn take(&mut self, b: usize, k: usize) -> (p: Page)
        requires
            b < old(self).count(),
            k < old(self).q(b as int).len(),
        ensures
            p == old(self).q(b as int)[k as int],
            final(self).count() == old(self).count(),
            final(self).q(b as int) == old(self).q(b as int).remove(k as int),
            forall|c: int| 0 <= c < old(self).count() && c != b ==> #[trigger] final(self).q(c) == old(self).q(c),
    {
        let mut q = self.qs.remove(b);
        let p = q.remove(k);
        self.qs.insert(b, q);
        proof {
            assert forall|c: int| 0 <= c < old(self).count() && c != b implies #[trigger] self.q(c) == old(self).q(c) by {
                assert(self.qs@[c] == old(self).qs@[c]);
            }
        }
        p
    }

    /// Put `p` at position `k` of queue `b`.
    pub fn put(&mut self, b: usize, k: usize, p: Page)
        requires
            b < old(self).count(),
            k <= old(self).q(b as int).len(),
        ensures
            final(self).count() == old(self).count(),
            final(self).q(b as int) == old(self).q(b as int).insert(k as int, p),
            forall|c: int| 0 <= c < old(self).count() && c != b ==> #[trigger] final(self).q(c) == old(self).q(c),
    {
        let mut q = self.qs.remove(b);
        q.insert(k, p);
        self.qs.insert(b, q);
        proof {
            assert forall|c: int| 0 <= c < old(self).count() && c != b implies #[trigger] self.q(c) == old(self).q(c) by {
                assert(self.qs@[c] == old(self).qs@[c]);
            }
        }
    }
}

/// A dedicated huge allocation: its segment and its block.
pub struct HugeBlock {
    /// The dedicated segment.
    pub seg: Segment,
    /// The block's address.
    pub block: usize,
    /// The block's size as requested.
    pub size: usize,
}

/// The heap.
pub struct Heap {
    queues: PageQueues,
    singles: Vec<Page>,
    segments: Vec<Segment>,
    huge: Vec<HugeBlock>,
    empty_segments: u32,
    arena_id: i32,
    tag: i32,
    thread_id: usize,
    rng: Random,
    delayed: Vec<usize>,
    guarded_rate: usize,
    guarded_count: usize,
    guarded_min: usize,
    guarded_max: usize,
    stats: Stats,
}

/// A binned page of bin `b`: its blocks are the bin's size, and one slice
/// (small blocks) or `MEDIUM_PAGE_SLICES` slices hold them.
pub open spec fn binned_ok(p: Page, b: int) -> bool {
    &&& p.wf()
    &&& 1 <= b < BIN_HUGE
    &&& p.bin_of() == b
    &&& p.bsize() == spec_bin_size(b)
    &&& p.area_addr() % (SEGMENT_SLICE_SIZE as int) == 0
}

impl Heap {
    /// Queue `b`, front first.
    pub closed spec fn queue(&self, b: int) -> Seq<Page> {
        self.queues.q(b)
    }

    /// The unqueued single-block pages.
    pub closed spec fn single_pages(&self) -> Seq<Page> {
        self.singles@
    }

    /// The Normal segments, newest first.
    pub closed spec fn segs(&self) -> Seq<Segment> {
        self.segments@
    }

    /// The huge allocations, newest first.
    pub closed spec fn huges(&self) -> Seq<HugeBlock> {
        self.huge@
    }

    /// Empty segments parked for reuse.
    pub closed spec fn parked_empty(&self) -> int {
        self.empty_segments as int
    }

    /// The heap's invariant: every queued page is a well-formed page of its
    /// bin (the full queue holds pages of any bin), every single-block page
    /// holds one block, every segment is a well-formed Normal segment, and
    /// every huge block has its Huge segment.
    pub open spec fn wf(&self) -> bool {
        &&& self.queues_count() == BIN_COUNT
        &&& self.rng_of().wf()
        &&& forall|b: int, k: int| 1 <= b < BIN_HUGE && 0 <= k < self.queue(b).len()
            ==> #[trigger] binned_ok(self.queue(b)[k], b)
        &&& forall|k: int| 0 <= k < self.queue(BIN_FULL as int).len()
            ==> #[trigger] binned_ok(self.queue(BIN_FULL as int)[k], self.queue(BIN_FULL as int)[k].bin_of())
        &&& forall|b: int| (b == 0 || b == BIN_HUGE) ==> #[trigger] self.queue(b).len() == 0
        &&& forall|k: int| 0 <= k < self.single_pages().len() ==> {
            &&& (#[trigger] self.single_pages()[k]).wf()
            &&& self.single_pages()[k].rsv() == 1
            &&& self.single_pages()[k].bin_of() == BIN_HUGE
        }
        &&& forall|k: int| 0 <= k < self.segs().len() ==> {
            &&& (#[trigger] self.segs()[k]).wf()
            &&& self.segs()[k].seg_kind() == SegmentKind::Normal
            &&& self.segs()[k].total() == SEGMENT_SIZE
        }
        &&& forall|k: int| 0 <= k < self.huges().len() ==> {
            &&& (#[trigger] self.huges()[k]).seg.wf()
            &&& self.huges()[k].seg.seg_kind() == SegmentKind::Huge
        }
    }

    /// Number of queues.
    pub closed spec fn queues_count(&self) -> int {
        self.queues.count()
    }

    /// The counters.
    pub closed spec fn stats_of(&self) -> Stats {
        self.stats
    }

    /// The arena restriction (negative: none).
    pub closed spec fn arena(&self) -> i32 {
        self.arena_id
    }

    /// The tag stamped on pages.
    pub closed spec fn tag_of(&self) -> i32 {
        self.tag
    }

    /// The owning thread.
    pub closed spec fn owner(&self) -> usize {
        self.thread_id
    }

    /// Guard one in this many eligible objects (0: off).
    pub closed spec fn grate(&self) -> usize {
        self.guarded_rate
    }

    /// Countdown to the next guarded object.
    pub closed spec fn gcount(&self) -> usize {
        self.guarded_count
    }

    /// Smallest size eligible for a guard page.
    pub closed spec fn gmin(&self) -> usize {
        self.guarded_min
    }

    /// Largest size eligible for a guard page.
    pub closed spec fn gmax(&self) -> usize {
        self.guarded_max
    }

    /// The random stream.
    pub closed spec fn rng_of(&self) -> Random {
        self.rng
    }

    /// Blocks other threads freed, waiting for the owner, latest last.
    pub closed spec fn delayed_list(&self) -> Seq<usize> {
        self.delayed@
    }
}


/// Where segments and huge blocks come from: the arenas, the backend
/// region, and the segment map that records what is ours.
pub struct Sources {
    /// The arenas.
    pub arenas: Arenas,
    /// The backend region.
    pub region: FixedRegion,
    /// The segment map.
    pub map: SegmentMap,
    /// Segments finished threads left behind, the latest last.
    pub abandoned: Vec<AbandonedSegment>,
}

impl Sources {
    /// Ready to serve segments under `options`.
    pub open spec fn ready(&self, options: Options) -> bool {
        &&& self.arenas.wf()
        &&& self.region.wf()
        &&& self.region.origin() % SEGMENT_SIZE as int == 0
        &&& self.map.wf()
        &&& options.wf()
        &&& Arenas::default_reserve(options) + SEGMENT_SIZE - 1 <= usize::MAX
        &&& Arenas::reserve_total(Arenas::default_reserve(options)) + FIXED_PAGE - 1 <= usize::MAX
        &&& self.region.origin() + self.region.total() + SEGMENT_SIZE <= usize::MAX
    }

    /// `post` is ready whenever `self` was, over the same region.
    pub open spec fn served(&self, post: Sources, options: Options) -> bool {
        &&& self.ready(options) ==> post.ready(options)
        &&& post.region.origin() == self.region.origin()
        &&& post.region.total() == self.region.total()
    }

    /// As `served`, the abandoned segments left as they were.
    pub open spec fn kept(&self, post: Sources, options: Options) -> bool {
        &&& self.served(post, options)
        &&& post.abandoned@ == self.abandoned@
    }
}

/// `new` is page `old` with the same identity and geometry, extended
/// perhaps, and block `i` newly allocated, every other block as before.
pub open spec fn took_block(old: Page, new: Page, i: int) -> bool {
    &&& new.segment_base() == old.segment_base()
    &&& new.slot_index() == old.slot_index()
    &&& new.area_addr() == old.area_addr()
    &&& new.bsize() == old.bsize()
    &&& new.rsv() == old.rsv()
    &&& new.bin_of() == old.bin_of()
    &&& !old.is_allocated(i)
    &&& new.is_allocated(i)
    &&& forall|j: int| j != i ==> #[trigger] new.is_allocated(j) == old.is_allocated(j)
}

/// `new` is page `old` with the same identity, geometry and allocated
/// blocks (its free lists may have been collected).
pub open spec fn same_blocks(old: Page, new: Page) -> bool {
    &&& new.segment_base() == old.segment_base()
    &&& new.slot_index() == old.slot_index()
    &&& new.area_addr() == old.area_addr()
    &&& new.bsize() == old.bsize()
    &&& new.rsv() == old.rsv()
    &&& new.bin_of() == old.bin_of()
    &&& forall|j: int| #[trigger] new.is_allocated(j) == old.is_allocated(j)
}

/// Pages `0 .. j` of queue `q` were found full and parked, in front of the
/// full queue `f`, most recent first, as `parked`.
pub open spec fn parked_prefix(q: Seq<Page>, j: int, f: Seq<Page>, parked: Seq<Page>) -> bool {
    &&& parked.len() == f.len() + j
    &&& parked.subrange(j, parked.len() as int) == f
    &&& forall|m: int| 0 <= m < j ==> {
        &&& same_blocks(q[m], #[trigger] parked[j - 1 - m])
        &&& parked[j - 1 - m].cap() == parked[j - 1 - m].rsv()
        &&& parked[j - 1 - m].free_list().len() == 0
        &&& parked[j - 1 - m].flag_bits() & IN_FULL == IN_FULL
        &&& parked[j - 1 - m].xflag_of() == XFlag::Delayed
    }
}

impl Heap {
    /// An empty heap for thread `thread_id`, allocating from arena
    /// `arena_id` only when it is not negative.
    pub fn new(thread_id: usize, arena_id: i32, tag: i32) -> (h: Heap)
        ensures
            h.wf(),
            forall|b: int| 0 <= b < BIN_COUNT ==> #[trigger] h.queue(b).len() == 0,
            h.single_pages().len() == 0,
            h.segs().len() == 0,
            h.huges().len() == 0,
            h.parked_empty() == 0,
            h.delayed_list().len() == 0,
            h.owner() == thread_id,
            h.arena() == arena_id,
            h.tag_of() == tag,
            h.grate() == 0 && h.gcount() == 0 && h.gmin() == 0 && h.gmax() == usize::MAX,
            h.stats_of() == Stats::new_spec(),
    {
        Heap {
            queues: PageQueues::new(),
            singles: Vec::new(),
            segments: Vec::new(),
            huge: Vec::new(),
            empty_segments: 0,
            arena_id,
            tag,
            thread_id,
            rng: Random::new(),
            delayed: Vec::new(),
            guarded_rate: 0,
            guarded_count: 0,
            guarded_min: 0,
            guarded_max: usize::MAX,
            stats: Stats::new(),
        }
    }

    /// The counters.
    pub fn stats(&self) -> (s: Stats)
        ensures
            s == self.stats_of(),
    {
        self.stats
    }

    /// Guard one in `rate` eligible objects (0 turns guarding off, 1
    /// guards every one). A non-zero `seed` reseeds the heap's stream so the
    /// sequence repeats. The countdown restarts at a draw below `rate`, plus
    /// one.
    pub fn guarded_set_sample_rate(&mut self, rate: usize, seed: usize)
        requires
            old(self).wf(),
        ensures
            final(self).wf(),
            final(self).grate() == rate,
            rate == 0 ==> final(self).gcount() == 0,
            rate > 0 ==> 1 <= final(self).gcount() <= rate,
            final(self).gmin() == old(self).gmin(),
            final(self).gmax() == old(self).gmax(),
            final(self).queues_count() == old(self).queues_count(),
            forall|b: int| #[trigger] final(self).queue(b) == old(self).queue(b),
            final(self).single_pages() == old(self).single_pages(),
            final(self).segs() == old(self).segs(),
            final(self).huges() == old(self).huges(),
            final(self).stats_of() == old(self).stats_of(),
            final(self).delayed_list() == old(self).delayed_list(),
            final(self).owner() == old(self).owner(),
            final(self).tag_of() == old(self).tag_of(),
            exists|r0: Random| {
                &&& #[trigger] sampling_stream(*old(self), seed, r0)
                &&& rate <= 1 ==> final(self).rng_of().state@ == r0.state@ && final(self).rng_of().used == r0.used
                    && final(self).rng_of().out@ == r0.out@
                &&& rate == 1 ==> final(self).gcount() == 1
                &&& rate > 1 ==> r0.usize_step(final(self).rng_of())
                    && final(self).gcount() == 1 + (r0.usize_draw() * rate) / (usize::MAX as int + 1)
            },
    {
        self.guarded_rate = rate;
        if seed != 0 {
            let s = (seed & 0xffff_ffff) as u32;
            let r = (s << 7) | (s >> 25);
            self.rng.seed_from([s, s ^ 0x9E37, r, s ^ 0xA5A5, s, s, s, s], seed as u64);
            proof {
                assert(self.rng.state@ =~= guard_seed_state(seed));
            }
        }
        let ghost r0 = self.rng;
        self.guarded_count = if rate == 0 { 0 } else { 1 + self.rng.below(rate) };
        proof {
            Self::lemma_wf_frame(*old(self), *self);
            assert(sampling_stream(*old(self), seed, r0));
        }
    }

    /// Objects of `min ..= max` bytes are eligible for a guard page.
    pub fn guarded_set_size_bound(&mut self, min: usize, max: usize)
        requires
            old(self).wf(),
        ensures
            final(self).wf(),
            final(self).gmin() == min,
            final(self).gmax() == max,
            final(self).grate() == old(self).grate(),
            final(self).gcount() == old(self).gcount(),
            final(self).queues_count() == old(self).queues_count(),
            forall|b: int| #[trigger] final(self).queue(b) == old(self).queue(b),
            final(self).single_pages() == old(self).single_pages(),
            final(self).segs() == old(self).segs(),
            final(self).huges() == old(self).huges(),
            final(self).stats_of() == old(self).stats_of(),
    {
        self.guarded_min = min;
        self.guarded_max = max;
        proof {
            Self::lemma_wf_frame(*old(self), *self);
        }
    }

    /// Whether an object of `size` bytes gets a guard page: sampling on,
    /// the size in the window, and the countdown at its last step, when it
    /// restarts.
    pub fn guarded_should_sample(&mut self, size: usize) -> (g: bool)
        requires
            old(self).wf(),
        ensures
            final(self).wf(),
            g == (old(self).grate() != 0 && old(self).gmin() <= size <= old(self).gmax() && old(self).gcount() <= 1),
            old(self).grate() != 0 && old(self).gmin() <= size <= old(self).gmax() && old(self).gcount() > 1
                ==> final(self).gcount() == old(self).gcount() - 1,
            g ==> 1 <= final(self).gcount() <= old(self).grate(),
            final(self).grate() == old(self).grate(),
            final(self).gmin() == old(self).gmin(),
            final(self).gmax() == old(self).gmax(),
            final(self).owner() == old(self).owner(),
            final(self).arena() == old(self).arena(),
            final(self).tag_of() == old(self).tag_of(),
            final(self).parked_empty() == old(self).parked_empty(),
            final(self).delayed_list() == old(self).delayed_list(),
            final(self).queues_count() == old(self).queues_count(),
            forall|b: int| #[trigger] final(self).queue(b) == old(self).queue(b),
            final(self).single_pages() == old(self).single_pages(),
            final(self).segs() == old(self).segs(),
            final(self).huges() == old(self).huges(),
            final(self).stats_of() == old(self).stats_of(),
    {
        if self.guarded_rate == 0 || size < self.guarded_min || size > self.guarded_max {
            return false;
        }
        if self.guarded_count > 1 {
            self.guarded_count = self.guarded_count - 1;
            proof {
                Self::lemma_wf_frame(*old(self), *self);
            }
            return false;
        }
        self.guarded_count = 1 + self.rng.below(self.guarded_rate);
        proof {
            Self::lemma_wf_frame(*old(self), *self);
        }
        true
    }
}

impl Stats {
    /// All counters zero.
    pub open spec fn new_spec() -> Stats {
        Stats {
            allocs: 0, frees: 0, generic: 0, pages_fresh: 0, segments: 0, huge_allocs: 0, extends: 0,
            large_allocs: 0, pages_retired: 0, segments_freed: 0, realloc_in_place: 0, realloc_moved: 0,
            delayed_frees: 0, reclaims: 0, guarded: 0, purges: 0,
        }
    }
}


impl Heap {
    /// The invariant holds of a heap with the same queues, pages and
    /// segments and a well-formed stream.
    proof fn lemma_wf_frame(a: Heap, b: Heap)
        requires
            a.wf(),
            b.queues == a.queues,
            b.singles@ == a.singles@,
            b.segments@ == a.segments@,
            b.huge@ == a.huge@,
            b.rng.wf(),
        ensures
            b.wf(),
    {
        assert forall|bb: int, k: int| 1 <= bb < BIN_HUGE && 0 <= k < b.queue(bb).len()
            implies #[trigger] binned_ok(b.queue(bb)[k], bb) by {
            assert(a.queue(bb) == b.queue(bb));
            assert(binned_ok(a.queue(bb)[k], bb));
        }
        assert forall|k: int| 0 <= k < b.queue(BIN_FULL as int).len()
            implies #[trigger] binned_ok(b.queue(BIN_FULL as int)[k], b.queue(BIN_FULL as int)[k].bin_of()) by {
            assert(a.queue(BIN_FULL as int) == b.queue(BIN_FULL as int));
            assert(binned_ok(a.queue(BIN_FULL as int)[k], a.queue(BIN_FULL as int)[k].bin_of()));
        }
        assert forall|bb: int| (bb == 0 || bb == BIN_HUGE) implies #[trigger] b.queue(bb).len() == 0 by {
            assert(a.queue(bb) == b.queue(bb));
        }
        assert forall|k: int| 0 <= k < b.single_pages().len() implies {
            &&& (#[trigger] b.single_pages()[k]).wf()
            &&& b.single_pages()[k].rsv() == 1
            &&& b.single_pages()[k].bin_of() == BIN_HUGE
        } by {
            assert(a.single_pages()[k] == b.single_pages()[k]);
        }
        assert forall|k: int| 0 <= k < b.segs().len() implies {
            &&& (#[trigger] b.segs()[k]).wf()
            &&& b.segs()[k].seg_kind() == SegmentKind::Normal
            &&& b.segs()[k].total() == SEGMENT_SIZE
        } by {
            assert(a.segs()[k] == b.segs()[k]);
        }
        assert forall|k: int| 0 <= k < b.huges().len() implies {
            &&& (#[trigger] b.huges()[k]).seg.wf()
            &&& b.huges()[k].seg.seg_kind() == SegmentKind::Huge
        } by {
            assert(a.huges()[k] == b.huges()[k]);
        }
    }
}


impl Heap {
    /// Carve a live span of `slices` slices: from the first owned segment
    /// with room, else from a new segment, which goes first in the list.
    /// The segment's position, the span's first slice, and whether its
    /// memory is known zero; `None` when no segment can be had.
    fn span_from_segments(&mut self, src: &mut Sources, options: &Options, slices: usize)
        -> (r: Option<(usize, usize, bool)>)
        requires
            old(self).wf(),
            old(src).ready(*options),
            1 <= slices <= USABLE_SLICES,
        ensures
            final(self).wf(),
            old(src).kept(*final(src), *options),
            final(self).queues == old(self).queues,
            final(self).singles@ == old(self).singles@,
            final(self).huge@ == old(self).huge@,
            final(self).rng == old(self).rng,
            final(self).tag == old(self).tag,
            final(self).arena_id == old(self).arena_id,
            final(self).thread_id == old(self).thread_id,
            match r {
                Some((k, idx, fresh)) => {
                    &&& k < final(self).segs().len()
                    &&& final(self).segs()[k as int].spans().contains_key(idx as int)
                    &&& final(self).segs()[k as int].spans()[idx as int] matches (n, live, _) && n == slices && live
                    &&& {
                        ||| {
                            &&& k < old(self).segs().len()
                            &&& final(self).segs() == old(self).segs().update(k as int, final(self).segs()[k as int])
                            &&& old(self).segs()[k as int].span_alloc_outcome(final(self).segs()[k as int], slices as int,
                                Some((idx, fresh)))
                            &&& forall|j: int| 0 <= j < k ==> {
                                &&& (#[trigger] old(self).segs()[j]).no_fit(slices as int)
                                &&& old(self).segs()[j].nfree() + slices > SLICES_PER_SEGMENT
                            }
                        }
                        ||| {
                            &&& k == 0
                            &&& final(self).segs() == seq![final(self).segs()[0]] + old(self).segs()
                            &&& idx == HEADER_SLICES
                            &&& forall|j: int| 0 <= j < old(self).segs().len() ==> {
                                &&& (#[trigger] old(self).segs()[j]).no_fit(slices as int)
                                &&& old(self).segs()[j].nfree() + slices > SLICES_PER_SEGMENT
                            }
                        }
                    }
                },
                None => {
                    &&& forall|j: int| 0 <= j < old(self).segs().len() ==> {
                        &&& (#[trigger] old(self).segs()[j]).no_fit(slices as int)
                        &&& old(self).segs()[j].nfree() + slices > SLICES_PER_SEGMENT
                    }
                    &&& crate::segment::segment_refused(old(src).arenas, *options, old(src).region, final(src).arenas,
                        final(src).region, old(self).arena_id as int)
                },
            },
    {
        let n = self.segments.len();
        let mut k: usize = 0;
        while k < n
            invariant
                self.wf(),
                self.queues == old(self).queues,
                self.singles@ == old(self).singles@,
                self.segments@ == old(self).segments@,
                self.huge@ == old(self).huge@,
                self.rng == old(self).rng,
                self.tag == old(self).tag,
                self.arena_id == old(self).arena_id,
                self.thread_id == old(self).thread_id,
                *src == *old(src),
                n == self.segs().len(),
                k <= n,
                1 <= slices <= USABLE_SLICES,
                forall|j: int| 0 <= j < k ==> {
                    &&& (#[trigger] old(self).segs()[j]).no_fit(slices as int)
                    &&& old(self).segs()[j].nfree() + slices > SLICES_PER_SEGMENT
                },
            decreases n - k,
        {
            let ghost pre = *self;
            let mut seg = self.segments.remove(k);
            proof {
                assert(seg == pre.segs()[k as int]);
                assert(seg.wf());
            }
            let was_empty = seg.used_pages() == 0;
            let got = seg.span_alloc(slices);
            let ghost s2 = seg;
            self.segments.insert(k, seg);
            match got {
                Some((idx, fresh)) => {
                    if was_empty && self.empty_segments > 0 {
                        self.empty_segments = self.empty_segments - 1;
                    }
                    proof {
                        assert(self.segs() =~= pre.segs().update(k as int, s2));
                        assert forall|j: int| 0 <= j < self.segs().len() implies {
                            &&& (#[trigger] self.segs()[j]).wf()
                            &&& self.segs()[j].seg_kind() == SegmentKind::Normal
                            &&& self.segs()[j].total() == SEGMENT_SIZE
                        } by {
                            if j != k {
                                assert(self.segs()[j] == pre.segs()[j]);
                            }
                        }
                        Self::lemma_wf_segments(pre, *self);
                    }
                    return Some((k, idx, fresh));
                },
                None => {
                    proof {
                        assert(self.segments@ =~= pre.segments@);
                        Self::lemma_wf_segments(pre, *self);
                    }
                },
            }
            k = k + 1;
        }
        let ghost pre = *self;
        match segment_alloc(&mut src.arenas, &mut src.region, options, &mut src.map, self.arena_id, self.thread_id) {
            Err(_) => None,
            Ok(seg) => {
                let mut seg = seg;
                self.stats.segments = inc(self.stats.segments);
                let ghost s0 = seg;
                let got = seg.span_alloc(slices);
                proof {
                    assert(s0.no_fit(slices as int));
                    assert(got is Some);
                }
                let ghost s2 = seg;
                self.segments.insert(0, seg);
                proof {
                    assert(self.segs() =~= seq![s2] + pre.segs());
                    assert forall|j: int| 0 <= j < self.segs().len() implies {
                        &&& (#[trigger] self.segs()[j]).wf()
                        &&& self.segs()[j].seg_kind() == SegmentKind::Normal
                        &&& self.segs()[j].total() == SEGMENT_SIZE
                    } by {
                        if j > 0 {
                            assert(self.segs()[j] == pre.segs()[j - 1]);
                        }
                    }
                    Self::lemma_wf_segments(pre, *self);
                }
                match got {
                    Some((idx, fresh)) => Some((0, idx, fresh)),
                    None => None,
                }
            },
        }
    }

    /// The invariant holds after the segment list changed to well-formed
    /// Normal segments, all else the same.
    proof fn lemma_wf_segments(a: Heap, b: Heap)
        requires
            a.wf(),
            b.queues == a.queues,
            b.singles@ == a.singles@,
            b.huge@ == a.huge@,
            b.rng.wf(),
            forall|k: int| 0 <= k < b.segs().len() ==> {
                &&& (#[trigger] b.segs()[k]).wf()
                &&& b.segs()[k].seg_kind() == SegmentKind::Normal
                &&& b.segs()[k].total() == SEGMENT_SIZE
            },
        ensures
            b.wf(),
    {
        assert forall|bb: int, k: int| 1 <= bb < BIN_HUGE && 0 <= k < b.queue(bb).len()
            implies #[trigger] binned_ok(b.queue(bb)[k], bb) by {
            assert(a.queue(bb) == b.queue(bb));
            assert(binned_ok(a.queue(bb)[k], bb));
        }
        assert forall|k: int| 0 <= k < b.queue(BIN_FULL as int).len()
            implies #[trigger] binned_ok(b.queue(BIN_FULL as int)[k], b.queue(BIN_FULL as int)[k].bin_of()) by {
            assert(a.queue(BIN_FULL as int) == b.queue(BIN_FULL as int));
            assert(binned_ok(a.queue(BIN_FULL as int)[k], a.queue(BIN_FULL as int)[k].bin_of()));
        }
        assert forall|bb: int| (bb == 0 || bb == BIN_HUGE) implies #[trigger] b.queue(bb).len() == 0 by {
            assert(a.queue(bb) == b.queue(bb));
        }
        assert forall|k: int| 0 <= k < b.single_pages().len() implies {
            &&& (#[trigger] b.single_pages()[k]).wf()
            &&& b.single_pages()[k].rsv() == 1
            &&& b.single_pages()[k].bin_of() == BIN_HUGE
        } by {
            assert(a.single_pages()[k] == b.single_pages()[k]);
        }
        assert forall|k: int| 0 <= k < b.huges().len() implies {
            &&& (#[trigger] b.huges()[k]).seg.wf()
            &&& b.huges()[k].seg.seg_kind() == SegmentKind::Huge
        } by {
            assert(a.huges()[k] == b.huges()[k]);
        }
    }
}


impl Heap {
    /// Carve a fresh page for bin `bin` of `bsize`-byte blocks, from one
    /// slice for small blocks or `MEDIUM_PAGE_SLICES` slices otherwise, and
    /// put it at the front of the bin's queue, nothing handed out yet.
    /// `false` when no segment can be had.
    #[verifier::spinoff_prover]
    fn fresh_page(&mut self, src: &mut Sources, options: &Options, bin: usize, bsize: usize) -> (ok: bool)
        requires
            old(self).wf(),
            old(src).ready(*options),
            1 <= bin < BIN_HUGE,
            bsize == spec_bin_size(bin as int),
            1 <= bsize <= MEDIUM_OBJ_SIZE_MAX,
        ensures
            final(self).wf(),
            old(src).kept(*final(src), *options),
            final(self).singles@ == old(self).singles@,
            final(self).huge@ == old(self).huge@,
            final(self).tag == old(self).tag,
            final(self).arena_id == old(self).arena_id,
            final(self).thread_id == old(self).thread_id,
            final(self).queues.count() == old(self).queues.count(),
            forall|c: int| 0 <= c < BIN_COUNT && c != bin ==> #[trigger] final(self).queue(c) == old(self).queue(c),
            ok ==> {
                let p = final(self).queue(bin as int)[0];
                &&& final(self).queue(bin as int) == seq![p] + old(self).queue(bin as int)
                &&& p.cap() == 0
                &&& p.rsv() >= 1
                &&& p.bsize() == bsize
                &&& p.bin_of() == bin
                &&& p.slices() == if bsize <= SMALL_OBJ_SIZE_MAX { 1int } else { MEDIUM_PAGE_SLICES as int }
            },
            !ok ==> final(self).queue(bin as int) == old(self).queue(bin as int),
            !ok ==> {
                let slices = if bsize <= SMALL_OBJ_SIZE_MAX { 1int } else { MEDIUM_PAGE_SLICES as int };
                &&& forall|j: int| 0 <= j < old(self).segs().len() ==> {
                    &&& (#[trigger] old(self).segs()[j]).no_fit(slices)
                    &&& old(self).segs()[j].nfree() + slices > SLICES_PER_SEGMENT
                }
                &&& crate::segment::segment_refused(old(src).arenas, *options, old(src).region, final(src).arenas,
                    final(src).region, old(self).arena_id as int)
            },
    {
        let slices: usize = if bsize <= SMALL_OBJ_SIZE_MAX { 1 } else { MEDIUM_PAGE_SLICES };
        let ghost pre = *self;
        match self.span_from_segments(src, options, slices) {
            None => {
                proof {
                    assert forall|c: int| 0 <= c < BIN_COUNT && c != bin implies #[trigger] self.queue(c) == pre.queue(c) by {}
                }
                false
            },
            Some((k, idx, fresh)) => {
                let ghost mid = *self;
                proof {
                    assert(mid.segs()[k as int].wf());
                    mid.segs()[k as int].lemma_wf_geometry();
                    mid.segs()[k as int].lemma_span_bounds(idx as int);
                }
                let base = self.segments[k].base();
                let area = self.segments[k].page_area(idx);
                let reserved = (slices * SEGMENT_SLICE_SIZE / bsize) as u32;
                proof {
                    assert(idx + slices <= SLICES_PER_SEGMENT);
                    vstd::arithmetic::div_mod::lemma_fundamental_div_mod((slices * SEGMENT_SLICE_SIZE) as int, bsize as int);
                    let xx = (slices * SEGMENT_SLICE_SIZE) as int;
                    assert(reserved == xx / (bsize as int));
                    assert(reserved * bsize <= slices * SEGMENT_SLICE_SIZE) by (nonlinear_arith)
                        requires xx == bsize * (xx / (bsize as int)) + xx % (bsize as int), 0 <= xx % (bsize as int),
                            reserved == xx / (bsize as int), xx == slices * SEGMENT_SLICE_SIZE;
                    assert(idx * SEGMENT_SLICE_SIZE + slices * SEGMENT_SLICE_SIZE <= SEGMENT_SIZE) by (nonlinear_arith)
                        requires idx + slices <= SLICES_PER_SEGMENT;
                    let x = (slices * SEGMENT_SLICE_SIZE) as int;
                    let q = x / (bsize as int);
                    assert(x >= bsize);
                    assert(q >= 1) by (nonlinear_arith)
                        requires x == bsize * q + x % (bsize as int), 0 <= x % (bsize as int) < bsize, x >= bsize, bsize >= 1;
                    assert(q <= x) by (nonlinear_arith)
                        requires x == bsize * q + x % (bsize as int), 0 <= x % (bsize as int), q >= 1, bsize >= 1;
                    assert(reserved == q);
                }
                let page = Page::new(base, idx, area, bsize, reserved, slices as u16, bin as u8, 0, fresh, self.tag);
                self.stats.pages_fresh = inc(self.stats.pages_fresh);
                self.queues.put(bin, 0, page);
                proof {
                    assert(self.queue(bin as int) =~= seq![page] + pre.queue(bin as int));
                    assert(binned_ok(page, bin as int));
                    Self::lemma_wf_queue_change(mid, *self, bin as int);
                    assert forall|c: int| 0 <= c < BIN_COUNT && c != bin implies #[trigger] self.queue(c) == pre.queue(c) by {
                        assert(mid.queue(c) == pre.queue(c));
                    }
                }
                true
            },
        }
    }

    /// The invariant holds after queue `b` (a bin's queue) changed to
    /// well-formed pages of its bin, all else the same.
    proof fn lemma_wf_queue_change(a: Heap, b: Heap, bin: int)
        requires
            a.wf(),
            1 <= bin < BIN_HUGE,
            b.queues.count() == a.queues.count(),
            forall|c: int| 0 <= c < BIN_COUNT && c != bin ==> #[trigger] b.queue(c) == a.queue(c),
            forall|k: int| 0 <= k < b.queue(bin).len() ==> #[trigger] binned_ok(b.queue(bin)[k], bin),
            b.singles@ == a.singles@,
            b.segments@ == a.segments@,
            b.huge@ == a.huge@,
            b.rng.wf(),
        ensures
            b.wf(),
    {
        Self::lemma_wf_queues_change(a, b, bin, BIN_FULL as int);
    }

    /// The invariant holds after a bin's queue and the full queue changed to
    /// well-formed pages of the right bins, all else the same.
    proof fn lemma_wf_queues_change(a: Heap, b: Heap, bin: int, full: int)
        requires
            a.wf(),
            1 <= bin < BIN_HUGE,
            full == BIN_FULL,
            b.queues.count() == a.queues.count(),
            forall|c: int| 0 <= c < BIN_COUNT && c != bin && c != full ==> #[trigger] b.queue(c) == a.queue(c),
            forall|k: int| 0 <= k < b.queue(bin).len() ==> #[trigger] binned_ok(b.queue(bin)[k], bin),
            forall|k: int| 0 <= k < b.queue(full).len() ==> #[trigger] binned_ok(b.queue(full)[k], b.queue(full)[k].bin_of()),
            b.singles@ == a.singles@,
            b.segments@ == a.segments@,
            b.huge@ == a.huge@,
            b.rng.wf(),
        ensures
            b.wf(),
    {
        assert forall|bb: int, k: int| 1 <= bb < BIN_HUGE && 0 <= k < b.queue(bb).len()
            implies #[trigger] binned_ok(b.queue(bb)[k], bb) by {
            if bb != bin {
                assert(a.queue(bb) == b.queue(bb));
                assert(binned_ok(a.queue(bb)[k], bb));
            }
        }
        assert forall|bb: int| (bb == 0 || bb == BIN_HUGE) implies #[trigger] b.queue(bb).len() == 0 by {
            assert(a.queue(bb) == b.queue(bb));
        }
        assert forall|k: int| 0 <= k < b.single_pages().len() implies {
            &&& (#[trigger] b.single_pages()[k]).wf()
            &&& b.single_pages()[k].rsv() == 1
            &&& b.single_pages()[k].bin_of() == BIN_HUGE
        } by {
            assert(a.single_pages()[k] == b.single_pages()[k]);
        }
        assert forall|k: int| 0 <= k < b.segs().len() implies {
            &&& (#[trigger] b.segs()[k]).wf()
            &&& b.segs()[k].seg_kind() == SegmentKind::Normal
            &&& b.segs()[k].total() == SEGMENT_SIZE
        } by {
            assert(a.segs()[k] == b.segs()[k]);
        }
        assert forall|k: int| 0 <= k < b.huges().len() implies {
            &&& (#[trigger] b.huges()[k]).seg.wf()
            &&& b.huges()[k].seg.seg_kind() == SegmentKind::Huge
        } by {
            assert(a.huges()[k] == b.huges()[k]);
        }
    }
}


/// What serving a binned request of `size` bytes did: the request's bin
/// `b`; the first `j` pages of its queue were found full and parked in
/// front of the full queue; page `j` then served block `i` (its index after
/// collect and extension) and moved to the front, or, when every page was
/// full, a fresh page at the front served its first block.
pub open spec fn binned_outcome(pre: Heap, post: Heap, size: int, r: Option<(usize, bool)>) -> bool {
    let b = spec_bin(size);
    let q = pre.queue(b);
    &&& r matches Some((addr, zero)) ==> {
        &&& post.queue(b).len() >= 1
        &&& post.queue(b)[0].bsize() >= size
        &&& exists|j: int, i: int|
            #![trigger parked_prefix(q, j, pre.queue(BIN_FULL as int), post.queue(BIN_FULL as int)), post.queue(b)[0].block_addr(i)]
        {
            &&& 0 <= j <= q.len()
            &&& parked_prefix(q, j, pre.queue(BIN_FULL as int), post.queue(BIN_FULL as int))
            &&& addr == post.queue(b)[0].block_addr(i)
            &&& zero == post.queue(b)[0].zero_free()
            &&& j < q.len() ==> {
                &&& took_block(q[j], post.queue(b)[0], i)
                &&& post.queue(b).drop_first() == q.subrange(j + 1, q.len() as int)
            }
            &&& j == q.len() ==> {
                &&& post.queue(b).len() == 1
                &&& i == 0
                &&& post.queue(b)[0].is_allocated(0)
                &&& forall|x: int| x != 0 ==> !#[trigger] post.queue(b)[0].is_allocated(x)
            }
        }
    }
    &&& r is None ==> {
        &&& parked_prefix(q, q.len() as int, pre.queue(BIN_FULL as int), post.queue(BIN_FULL as int))
        &&& post.queue(b).len() == 0
    }
}

impl Heap {
    /// Serve a request of `size` bytes from its bin: the first page of the
    /// bin's queue that, collected and extended, has a free block serves it
    /// and moves to the front; pages found full are parked in the full
    /// queue with other threads' frees routed to the delayed list; when none
    /// serves, a fresh page does. `None` when no segment can be had. The
    /// block's address and whether it is known zero.
    #[verifier::spinoff_prover]
    #[verifier::rlimit(60)]
    pub fn malloc_binned(&mut self, src: &mut Sources, options: &Options, size: usize) -> (r: Option<(usize, bool)>)
        requires
            old(self).wf(),
            old(src).ready(*options),
            size <= MEDIUM_OBJ_SIZE_MAX,
        ensures
            final(self).wf(),
            old(src).kept(*final(src), *options),
            binned_outcome(*old(self), *final(self), size as int, r),
            forall|c: int| 0 <= c < BIN_COUNT && c != spec_bin(size as int) && c != BIN_FULL
                ==> #[trigger] final(self).queue(c) == old(self).queue(c),
            final(self).single_pages() == old(self).single_pages(),
            final(self).huges() == old(self).huges(),
            r is None ==> no_segment(*final(src), *options, old(self).arena() as int),
            final(self).arena() == old(self).arena(),
    {
        proof {
            lemma_bin_size_inverts_bin(size as int);
        }
        let bin = crate::bins::bin(size);
        let bsize = crate::bins::bin_size(bin);
        let ghost pre = *self;
        let ghost q = pre.queue(bin as int);
        let ghost f = pre.queue(BIN_FULL as int);
        let ghost mut j: int = 0;
        proof {
            assert(q.subrange(0, q.len() as int) =~= q);
            assert(f.subrange(0, f.len() as int) =~= f);
        }
        while self.queues.len(bin) > 0
            invariant
                self.wf(),
                1 <= bin < BIN_HUGE,
                bin == spec_bin(size as int),
                bsize == spec_bin_size(bin as int),
                size <= bsize <= MEDIUM_OBJ_SIZE_MAX,
                pre == *old(self),
                q == pre.queue(bin as int),
                f == pre.queue(BIN_FULL as int),
                0 <= j <= q.len(),
                self.queue(bin as int) == q.subrange(j, q.len() as int),
                parked_prefix(q, j, f, self.queue(BIN_FULL as int)),
                forall|c: int| 0 <= c < BIN_COUNT && c != bin && c != BIN_FULL ==> #[trigger] self.queue(c) == pre.queue(c),
                self.singles@ == pre.singles@,
                self.segments@ == pre.segments@,
                self.huge@ == pre.huge@,
                self.tag == pre.tag,
                self.arena_id == pre.arena_id,
                self.thread_id == pre.thread_id,
                *src == *old(src),
            decreases self.queue(bin as int).len(),
        {
            let ghost before = *self;
            let mut pg = self.queues.take(bin, 0);
            let ghost after_take = *self;
            let ghost p0 = pg;
            proof {
                assert(p0 == q[j]);
                assert(binned_ok(p0, bin as int));
            }
            pg.collect();
            if pg.free_count() == 0 && pg.capacity() < pg.reserved() {
                pg.extend();
                self.stats.extends = inc(self.stats.extends);
            }
            let ghost pe = pg;
            proof {
                assert(same_blocks(p0, pe));
            }
            if pg.free_count() > 0 {
                let got = pg.pop();
                let zero = pg.free_is_zero();
                let ghost p1 = pg;
                self.queues.put(bin, 0, pg);
                let ghost after_put = *self;
                self.stats.allocs = inc(self.stats.allocs);
                proof {
                    assert(self.queues == after_put.queues);
                    assert(binned_ok(p1, bin as int));
                    assert(self.queue(bin as int) =~= seq![p1] + q.subrange(j + 1, q.len() as int));
                    assert forall|k: int| 0 <= k < self.queue(bin as int).len() implies #[trigger] binned_ok(self.queue(bin as int)[k], bin as int) by {
                        if k > 0 {
                            assert(self.queue(bin as int)[k] == before.queue(bin as int)[k]);
                        }
                    }
                    assert forall|k: int| 0 <= k < self.queue(BIN_FULL as int).len() implies
                        #[trigger] binned_ok(self.queue(BIN_FULL as int)[k], self.queue(BIN_FULL as int)[k].bin_of()) by {
                        assert(self.queue(BIN_FULL as int)[k] == before.queue(BIN_FULL as int)[k]);
                    }
                    Self::lemma_wf_queues_change(before, *self, bin as int, BIN_FULL as int);
                    assert(self.queue(bin as int).drop_first() =~= q.subrange(j + 1, q.len() as int));
                }
                let addr = got.unwrap();
                proof {
                    let served = self.queue(bin as int)[0];
                    let i = (addr - served.area_addr()) / served.bsize();
                    assert(exists|jj: int, ii: int|
                        #![trigger parked_prefix(q, jj, f, self.queue(BIN_FULL as int)), self.queue(bin as int)[0].block_addr(ii)]
                    {
                        &&& 0 <= jj <= q.len()
                        &&& parked_prefix(q, jj, f, self.queue(BIN_FULL as int))
                        &&& addr == self.queue(bin as int)[0].block_addr(ii)
                        &&& zero == self.queue(bin as int)[0].zero_free()
                        &&& jj < q.len() ==> {
                            &&& took_block(q[jj], self.queue(bin as int)[0], ii)
                            &&& self.queue(bin as int).drop_first() == q.subrange(jj + 1, q.len() as int)
                        }
                        &&& jj == q.len() ==> {
                            &&& self.queue(bin as int).len() == 1
                            &&& ii == 0
                            &&& self.queue(bin as int)[0].is_allocated(0)
                            &&& forall|x: int| x != 0 ==> !#[trigger] self.queue(bin as int)[0].is_allocated(x)
                        }
                    }) by {
                        let ii = pe.free_list().last() as int;
                        assert(took_block(pe, p1, ii));
                        assert(took_block(q[j], p1, ii)) by {
                            assert forall|x: int| x != ii implies #[trigger] p1.is_allocated(x) == q[j].is_allocated(x) by {
                                assert(pe.is_allocated(x) == p0.is_allocated(x));
                            }
                            assert(pe.is_allocated(ii) == p0.is_allocated(ii));
                        }
                        assert(self.queue(bin as int)[0] == p1);
                        assert(pe.listed()[pe.free_list().len() - 1] == pe.free_list().last());
                        assert(ii < pe.cap());
                        assert(pe.wf());
                        assert(pe.area_addr() + pe.rsv() * pe.bsize() <= usize::MAX);
                        assert(pe.area_addr() >= 0);
                        assert(0 <= ii * pe.bsize() <= pe.rsv() * pe.bsize()) by (nonlinear_arith)
                            requires 0 <= ii < pe.cap(), pe.cap() <= pe.rsv(), pe.bsize() >= 1;
                        assert(got == Some(pe.block_addr(ii) as usize));
                        assert(addr == pe.block_addr(ii) as usize);
                        assert(0 <= pe.block_addr(ii) <= usize::MAX);
                        assert(p1.block_addr(ii) == pe.block_addr(ii));
                        assert(addr == p1.block_addr(ii));
                        assert(parked_prefix(q, j, f, self.queue(BIN_FULL as int)));
                    }
                    assert forall|c: int| 0 <= c < BIN_COUNT && c != bin && c != BIN_FULL
                        implies #[trigger] self.queue(c) == pre.queue(c) by {
                        assert(after_put.queue(c) == after_take.queue(c));
                        assert(after_take.queue(c) == before.queue(c));
                        assert(before.queue(c) == pre.queue(c));
                    }
                    assert(self.queue(bin as int)[0].bsize() >= size);
                }
                return Some((addr, zero));
            }
            pg.set_flags(pg.flags() | IN_FULL);
            pg.set_xflag(XFlag::Delayed);
            let ghost p2 = pg;
            self.queues.put(BIN_FULL, 0, pg);
            proof {
                assert forall|c: int| 0 <= c < BIN_COUNT && c != bin && c != BIN_FULL
                    implies #[trigger] self.queue(c) == pre.queue(c) by {
                    assert(self.queue(c) == after_take.queue(c));
                    assert(after_take.queue(c) == before.queue(c));
                }
                assert(p2.free_list().len() == 0);
                assert(p2.cap() == p2.rsv());
                let fa = p2.flag_bits();
                let fb = p0.flag_bits();
                assert(fa & 4u8 == 4u8) by (bit_vector)
                    requires fa == fb | 4u8;
                assert(same_blocks(q[j], p2));
                let nf = self.queue(BIN_FULL as int);
                assert(nf == seq![p2] + before.queue(BIN_FULL as int));
                assert(parked_prefix(q, j + 1, f, nf)) by {
                    assert(nf.subrange(j + 1, nf.len() as int) =~= before.queue(BIN_FULL as int).subrange(j, before.queue(BIN_FULL as int).len() as int));
                    assert forall|m: int| 0 <= m < j + 1 implies {
                        &&& same_blocks(q[m], #[trigger] nf[j + 1 - 1 - m])
                        &&& nf[j + 1 - 1 - m].cap() == nf[j + 1 - 1 - m].rsv()
                        &&& nf[j + 1 - 1 - m].free_list().len() == 0
                        &&& nf[j + 1 - 1 - m].flag_bits() & IN_FULL == IN_FULL
                        &&& nf[j + 1 - 1 - m].xflag_of() == XFlag::Delayed
                    } by {
                        if m < j {
                            assert(nf[j - m] == before.queue(BIN_FULL as int)[j - 1 - m]);
                        }
                    }
                }
                assert(self.queue(bin as int) =~= q.subrange(j + 1, q.len() as int));
                assert(binned_ok(p2, p2.bin_of()));
                assert forall|k: int| 0 <= k < self.queue(bin as int).len() implies #[trigger] binned_ok(self.queue(bin as int)[k], bin as int) by {
                    assert(self.queue(bin as int)[k] == before.queue(bin as int)[k + 1]);
                }
                assert forall|k: int| 0 <= k < self.queue(BIN_FULL as int).len() implies
                    #[trigger] binned_ok(self.queue(BIN_FULL as int)[k], self.queue(BIN_FULL as int)[k].bin_of()) by {
                    if k > 0 {
                        assert(self.queue(BIN_FULL as int)[k] == before.queue(BIN_FULL as int)[k - 1]);
                    }
                }
                Self::lemma_wf_queues_change(before, *self, bin as int, BIN_FULL as int);
                j = j + 1;
            }
        }
        let ghost parked = *self;
        proof {
            assert(j == q.len());
        }
        let ghost sbefore = *src;
        if !self.fresh_page(src, options, bin, bsize) {
            proof {
                assert(parked_prefix(q, q.len() as int, f, self.queue(BIN_FULL as int)));
                assert(crate::segment::segment_refused(sbefore.arenas, *options, sbefore.region, src.arenas,
                    src.region, pre.arena() as int));
            }
            return None;
        }
        let ghost fresh = *self;
        proof {
            assert(binned_ok(fresh.queue(bin as int)[0], bin as int));
        }
        let mut pg = self.queues.take(bin, 0);
        let ghost pf = pg;
        pg.extend();
        let ghost pe = pg;
        proof {
            assert(pe.free_list().len() >= 1);
            assert(pe.free_list().last() == 0u32);
            assert forall|x: int| #[trigger] pe.is_allocated(x) == false by {
                assert(pe.is_allocated(x) == pf.is_allocated(x));
            }
        }
        self.stats.extends = inc(self.stats.extends);
        let got = pg.pop();
        let zero = pg.free_is_zero();
        let ghost p1 = pg;
        self.queues.put(bin, 0, pg);
        self.stats.allocs = inc(self.stats.allocs);
        proof {
            assert(self.queue(bin as int) =~= seq![p1]);
            assert(binned_ok(p1, bin as int));
            assert forall|k: int| 0 <= k < self.queue(bin as int).len() implies #[trigger] binned_ok(self.queue(bin as int)[k], bin as int) by {}
            assert forall|k: int| 0 <= k < self.queue(BIN_FULL as int).len() implies
                #[trigger] binned_ok(self.queue(BIN_FULL as int)[k], self.queue(BIN_FULL as int)[k].bin_of()) by {
                assert(self.queue(BIN_FULL as int)[k] == fresh.queue(BIN_FULL as int)[k]);
            }
            Self::lemma_wf_queues_change(fresh, *self, bin as int, BIN_FULL as int);
            assert forall|c: int| 0 <= c < BIN_COUNT && c != bin && c != BIN_FULL implies #[trigger] self.queue(c) == pre.queue(c) by {
                assert(fresh.queue(c) == parked.queue(c));
                assert(parked.queue(c) == pre.queue(c));
            }
            assert(fresh.queue(BIN_FULL as int) == parked.queue(BIN_FULL as int));
            assert(self.queue(BIN_FULL as int) == parked.queue(BIN_FULL as int));
            assert forall|x: int| x != 0 implies !#[trigger] p1.is_allocated(x) by {}
        }
        let addr = got.unwrap();
        proof {
            assert(exists|jj: int, ii: int|
                #![trigger parked_prefix(q, jj, f, self.queue(BIN_FULL as int)), self.queue(bin as int)[0].block_addr(ii)]
            {
                &&& 0 <= jj <= q.len()
                &&& parked_prefix(q, jj, f, self.queue(BIN_FULL as int))
                &&& addr == self.queue(bin as int)[0].block_addr(ii)
                &&& zero == self.queue(bin as int)[0].zero_free()
                &&& jj < q.len() ==> {
                    &&& took_block(q[jj], self.queue(bin as int)[0], ii)
                    &&& self.queue(bin as int).drop_first() == q.subrange(jj + 1, q.len() as int)
                }
                &&& jj == q.len() ==> {
                    &&& self.queue(bin as int).len() == 1
                    &&& ii == 0
                    &&& self.queue(bin as int)[0].is_allocated(0)
                    &&& forall|x: int| x != 0 ==> !#[trigger] self.queue(bin as int)[0].is_allocated(x)
                }
            }) by {
                assert(parked_prefix(q, q.len() as int, f, self.queue(BIN_FULL as int)));
                assert(self.queue(bin as int)[0] == p1);
                assert(p1.is_allocated(0));
                assert(p1.rsv() >= 1);
                assert(0 * p1.bsize() == 0);
                assert(got == Some(pe.block_addr(0) as usize));
                assert(pe.block_addr(0) == pe.area_addr());
                assert(addr == p1.block_addr(0));
            }
        }
        Some((addr, zero))
    }
}


/// A large allocation of `size` bytes: the single-block page at the front of
/// the unqueued pages spans the slices that hold `size` bytes, and its one
/// block is handed out at its area.
pub open spec fn large_outcome(pre: Heap, post: Heap, size: int, r: Option<(usize, bool)>) -> bool {
    &&& r matches Some((addr, zero)) ==> {
        let p = post.single_pages()[0];
        &&& post.single_pages() == seq![p] + pre.single_pages()
        &&& addr == p.area_addr()
        &&& addr == p.block_addr(0)
        &&& (addr as int) % (SEGMENT_SLICE_SIZE as int) == 0
        &&& p.bsize() == crate::prim::fixed::spec_div_ceil(size, SEGMENT_SLICE_SIZE as int) * SEGMENT_SLICE_SIZE
        &&& p.slices() == crate::prim::fixed::spec_div_ceil(size, SEGMENT_SLICE_SIZE as int)
        &&& p.rsv() == 1
        &&& p.cap() == 1
        &&& p.is_allocated(0)
        &&& p.bin_of() == BIN_HUGE
        &&& p.flag_bits() == SINGLE_BLOCK
        &&& p.xflag_of() == XFlag::Delayed
        &&& zero == p.zero_free()
    }
    &&& r is None ==> post.single_pages() == pre.single_pages()
}

impl Heap {
    /// The invariant holds after the unqueued pages and the huge blocks
    /// changed to well-formed ones, queues and segments the same.
    proof fn lemma_wf_singles_huges(a: Heap, b: Heap)
        requires
            a.wf(),
            b.queues == a.queues,
            b.segments@ == a.segments@,
            b.rng.wf(),
            forall|k: int| 0 <= k < b.single_pages().len() ==> {
                &&& (#[trigger] b.single_pages()[k]).wf()
                &&& b.single_pages()[k].rsv() == 1
                &&& b.single_pages()[k].bin_of() == BIN_HUGE
            },
            forall|k: int| 0 <= k < b.huges().len() ==> {
                &&& (#[trigger] b.huges()[k]).seg.wf()
                &&& b.huges()[k].seg.seg_kind() == SegmentKind::Huge
            },
        ensures
            b.wf(),
    {
        assert forall|bb: int, k: int| 1 <= bb < BIN_HUGE && 0 <= k < b.queue(bb).len()
            implies #[trigger] binned_ok(b.queue(bb)[k], bb) by {
            assert(a.queue(bb) == b.queue(bb));
            assert(binned_ok(a.queue(bb)[k], bb));
        }
        assert forall|k: int| 0 <= k < b.queue(BIN_FULL as int).len()
            implies #[trigger] binned_ok(b.queue(BIN_FULL as int)[k], b.queue(BIN_FULL as int)[k].bin_of()) by {
            assert(a.queue(BIN_FULL as int) == b.queue(BIN_FULL as int));
            assert(binned_ok(a.queue(BIN_FULL as int)[k], a.queue(BIN_FULL as int)[k].bin_of()));
        }
        assert forall|bb: int| (bb == 0 || bb == BIN_HUGE) implies #[trigger] b.queue(bb).len() == 0 by {
            assert(a.queue(bb) == b.queue(bb));
        }
        assert forall|k: int| 0 <= k < b.segs().len() implies {
            &&& (#[trigger] b.segs()[k]).wf()
            &&& b.segs()[k].seg_kind() == SegmentKind::Normal
            &&& b.segs()[k].total() == SEGMENT_SIZE
        } by {
            assert(a.segs()[k] == b.segs()[k]);
        }
    }

    /// A large object, more than a medium block and at most
    /// `LARGE_OBJ_SIZE_MAX` bytes: a page of one block spanning the slices
    /// that hold it, carved fresh and kept out of the queues; its block's
    /// address and whether it is known zero. `None` when no segment can be
    /// had.
    #[verifier::spinoff_prover]
    #[verifier::rlimit(40)]
    fn large_alloc(&mut self, src: &mut Sources, options: &Options, size: usize) -> (r: Option<(usize, bool)>)
        requires
            old(self).wf(),
            old(src).ready(*options),
            MEDIUM_OBJ_SIZE_MAX < size <= LARGE_OBJ_SIZE_MAX,
        ensures
            final(self).wf(),
            old(src).kept(*final(src), *options),
            large_outcome(*old(self), *final(self), size as int, r),
            final(self).queues == old(self).queues,
            final(self).huges() == old(self).huges(),
            final(self).arena() == old(self).arena(),
            r is None ==> {
                let slices = crate::prim::fixed::spec_div_ceil(size as int, SEGMENT_SLICE_SIZE as int);
                &&& forall|j: int| 0 <= j < old(self).segs().len() ==> {
                    &&& (#[trigger] old(self).segs()[j]).no_fit(slices)
                    &&& old(self).segs()[j].nfree() + slices > SLICES_PER_SEGMENT
                }
                &&& crate::segment::segment_refused(old(src).arenas, *options, old(src).region, final(src).arenas,
                    final(src).region, old(self).arena_id as int)
            },
    {
        let slices = crate::prim::fixed::div_ceil(size, SEGMENT_SLICE_SIZE);
        proof {
            assert(slices * SEGMENT_SLICE_SIZE >= size);
            assert(slices <= USABLE_SLICES) by (nonlinear_arith)
                requires slices == crate::prim::fixed::spec_div_ceil(size as int, SEGMENT_SLICE_SIZE as int),
                    size <= LARGE_OBJ_SIZE_MAX, LARGE_OBJ_SIZE_MAX == 511 * 65536, SEGMENT_SLICE_SIZE == 65536,
                    USABLE_SLICES == 511;
        }
        let ghost pre = *self;
        match self.span_from_segments(src, options, slices) {
            None => None,
            Some((k, idx, fresh)) => {
                let ghost mid = *self;
                proof {
                    assert(mid.segs()[k as int].wf());
                    mid.segs()[k as int].lemma_wf_geometry();
                    mid.segs()[k as int].lemma_span_bounds(idx as int);
                }
                let base = self.segments[k].base();
                let area = self.segments[k].page_area(idx);
                let bsize = slices * SEGMENT_SLICE_SIZE;
                proof {
                    let q = (base as int) / (SEGMENT_SIZE as int);
                    vstd::arithmetic::div_mod::lemma_fundamental_div_mod(base as int, SEGMENT_SIZE as int);
                    assert(area == SEGMENT_SLICE_SIZE * (512 * q + idx)) by (nonlinear_arith)
                        requires base == SEGMENT_SIZE * q + 0, area == base + idx * SEGMENT_SLICE_SIZE,
                            SEGMENT_SIZE == 512 * SEGMENT_SLICE_SIZE;
                    vstd::arithmetic::div_mod::lemma_mod_multiples_basic(512 * q + idx, SEGMENT_SLICE_SIZE as int);
                }
                proof {
                    assert(idx * SEGMENT_SLICE_SIZE + slices * SEGMENT_SLICE_SIZE <= SEGMENT_SIZE) by (nonlinear_arith)
                        requires idx + slices <= SLICES_PER_SEGMENT, SEGMENT_SIZE == SLICES_PER_SEGMENT * SEGMENT_SLICE_SIZE;
                }
                let mut pg = Page::new(base, idx, area, bsize, 1, slices as u16, BIN_HUGE as u8, SINGLE_BLOCK,
                    fresh, self.tag);
                pg.extend();
                let ghost pe = pg;
                proof {
                    assert(pe.free_list().len() == 1);
                    assert(pe.free_list().last() == 0u32);
                }
                let got = pg.pop();
                pg.set_xflag(XFlag::Delayed);
                let ghost p1 = pg;
                proof {
                    assert(p1.listed() =~= Seq::<u32>::empty());
                    assert(p1.is_allocated(0));
                }
                self.singles.insert(0, pg);
                self.stats.allocs = inc(self.stats.allocs);
                self.stats.large_allocs = inc(self.stats.large_allocs);
                proof {
                    assert(self.single_pages() =~= seq![p1] + mid.single_pages());
                    assert forall|j: int| 0 <= j < self.single_pages().len() implies {
                        &&& (#[trigger] self.single_pages()[j]).wf()
                        &&& self.single_pages()[j].rsv() == 1
                        &&& self.single_pages()[j].bin_of() == BIN_HUGE
                    } by {
                        if j > 0 {
                            assert(self.single_pages()[j] == mid.single_pages()[j - 1]);
                        }
                    }
                    Self::lemma_wf_singles_huges(mid, *self);
                }
                Some((got.unwrap(), fresh))
            },
        }
    }
}


/// The address of the segment holding `addr`.
pub open spec fn spec_segment_of(addr: int) -> int {
    addr - addr % (SEGMENT_SIZE as int)
}

/// `b` is segment `a` after the live span at `s` was freed: coalesced
/// with free neighbours and purged perhaps, one live page fewer.
pub open spec fn span_freed(a: Segment, b: Segment, s: int) -> bool {
    &&& b.wf()
    &&& a.same_header(b)
    &&& b.nfree() == a.nfree()
    &&& b.used() == a.used() - 1
    &&& exists|purged: bool| #[trigger] a.freed_spans(s, purged) == b.spans()
    &&& b.free_list() == a.freed_list(s)
}

/// What retiring the span at slice `s` of segment `k` did to the segment
/// list: when a live span starts there, it was freed, and a segment left
/// with no live page was released when another empty one is parked already
/// (else it is parked); otherwise nothing changed.
pub open spec fn retire_outcome(pre: Heap, post: Heap, k: int, s: int) -> bool {
    let seg = pre.segs()[k];
    if seg.spans().contains_key(s) && seg.spans()[s].1 {
        ||| {
            &&& post.segs().len() == pre.segs().len()
            &&& post.segs() == pre.segs().update(k, post.segs()[k])
            &&& span_freed(seg, post.segs()[k], s)
        }
        ||| {
            &&& seg.used() == 1
            &&& pre.parked_empty() > 0
            &&& post.segs() == pre.segs().remove(k)
        }
    } else {
        post.segs() == pre.segs()
    }
}

impl Heap {
    /// The position of the first segment at `base`.
    fn find_segment(&self, base: usize) -> (r: Option<usize>)
        ensures
            match r {
                Some(k) => first_seg(*self, base as int, k as int),
                None => forall|j: int| 0 <= j < self.segs().len() ==> #[trigger] self.segs()[j].base_addr() != base,
            },
    {
        let n = self.segments.len();
        let mut k: usize = 0;
        while k < n
            invariant
                n == self.segs().len(),
                k <= n,
                forall|j: int| 0 <= j < k ==> #[trigger] self.segs()[j].base_addr() != base,
            decreases n - k,
        {
            if self.segments[k].base() == base {
                return Some(k);
            }
            k = k + 1;
        }
        None
    }

    /// The position of the first huge block whose segment is at `base`.
    fn find_huge(&self, base: usize) -> (r: Option<usize>)
        ensures
            match r {
                Some(k) => k < self.huges().len() && self.huges()[k as int].seg.base_addr() == base,
                None => forall|j: int| 0 <= j < self.huges().len() ==> #[trigger] self.huges()[j].seg.base_addr() != base,
            },
    {
        let n = self.huge.len();
        let mut k: usize = 0;
        while k < n
            invariant
                n == self.huges().len(),
                k <= n,
                forall|j: int| 0 <= j < k ==> #[trigger] self.huges()[j].seg.base_addr() != base,
            decreases n - k,
        {
            if self.huge[k].seg.base() == base {
                return Some(k);
            }
            k = k + 1;
        }
        None
    }

    /// The position of the first unqueued page at slice `slot` of the
    /// segment at `base`.
    fn find_single(&self, base: usize, slot: usize) -> (r: Option<usize>)
        ensures
            match r {
                Some(k) => first_single(*self, base as int, slot as int, k as int),
                None => forall|j: int| 0 <= j < self.single_pages().len() ==>
                    !(#[trigger] self.single_pages()[j].segment_base() == base && self.single_pages()[j].slot_index() == slot),
            },
    {
        let n = self.singles.len();
        let mut k: usize = 0;
        while k < n
            invariant
                n == self.single_pages().len(),
                k <= n,
                forall|j: int| 0 <= j < k ==>
                    !(#[trigger] self.single_pages()[j].segment_base() == base && self.single_pages()[j].slot_index() == slot),
            decreases n - k,
        {
            let pos = self.singles[k].position();
            if pos.0 == base && pos.1 == slot {
                return Some(k);
            }
            k = k + 1;
        }
        None
    }

    /// The first queued page at slice `slot` of the segment at `base`: its
    /// queue and position.
    fn find_queued(&self, base: usize, slot: usize) -> (r: Option<(usize, usize)>)
        requires
            self.wf(),
        ensures
            match r {
                Some((b, k)) => first_queued(*self, base as int, slot as int, b as int, k as int),
                None => forall|b: int, j: int| 0 <= b < BIN_COUNT && 0 <= j < self.queue(b).len() ==>
                    !(#[trigger] self.queue(b)[j].segment_base() == base && self.queue(b)[j].slot_index() == slot),
            },
    {
        let mut b: usize = 0;
        while b < BIN_COUNT
            invariant
                self.wf(),
                b <= BIN_COUNT,
                forall|c: int, j: int| 0 <= c < b && 0 <= j < self.queue(c).len() ==>
                    !(#[trigger] self.queue(c)[j].segment_base() == base && self.queue(c)[j].slot_index() == slot),
            decreases BIN_COUNT - b,
        {
            let n = self.queues.len(b);
            let mut k: usize = 0;
            while k < n
                invariant
                    self.wf(),
                    b < BIN_COUNT,
                    n == self.queue(b as int).len(),
                    k <= n,
                    forall|j: int| 0 <= j < k ==>
                        !(#[trigger] self.queue(b as int)[j].segment_base() == base && self.queue(b as int)[j].slot_index() == slot),
                    forall|c: int, j: int| 0 <= c < b && 0 <= j < self.queue(c).len() ==>
                        !(#[trigger] self.queue(c)[j].segment_base() == base && self.queue(c)[j].slot_index() == slot),
                decreases n - k,
            {
                let pos = self.queues.get(b, k).position();
                if pos.0 == base && pos.1 == slot {
                    return Some((b, k));
                }
                k = k + 1;
            }
            b = b + 1;
        }
        None
    }
}


impl Heap {
    /// Retire the span at slice `s` of segment `k`, whose page holds no
    /// live block any more: the span is freed, coalesced with free
    /// neighbours and purged when the options ask for it; a segment left
    /// with no live page is parked when none is, else released (kept when
    /// its memory is found free already). Nothing when no live span starts
    /// there.
    fn retire_span(&mut self, src: &mut Sources, options: &Options, k: usize, s: usize)
        requires
            old(self).wf(),
            old(src).ready(*options),
            k < old(self).segs().len(),
        ensures
            final(self).wf(),
            old(src).kept(*final(src), *options),
            final(self).queues == old(self).queues,
            final(self).singles@ == old(self).singles@,
            final(self).huge@ == old(self).huge@,
            retire_outcome(*old(self), *final(self), k as int, s as int),
            final(self).delayed@ == old(self).delayed@,
    {
        let ghost pre = *self;
        proof {
            assert(pre.segs()[k as int].wf());
        }
        match self.segments[k].span_info(s) {
            Some((_, true)) => {},
            _ => {
                return;
            },
        }
        let mut seg = self.segments.remove(k);
        let ghost s0 = seg;
        proof {
            assert(s0 == pre.segs()[k as int]);
            assert(s0.spans().contains_key(s as int));
            assert(s0.is_start(s as int) && s0.is_live(s as int));
        }
        let purged = seg.span_free(s, options);
        proof {
            assert(s0.freed_spans(s as int, purged) == seg.spans());
            assert(span_freed(s0, seg, s as int));
        }
        if purged {
            self.stats.purges = inc(self.stats.purges);
        }
        self.stats.pages_retired = inc(self.stats.pages_retired);
        if seg.used_pages() == 0 {
            if self.empty_segments == 0 {
                self.empty_segments = 1;
            } else {
                proof {
                    seg.lemma_wf_geometry();
                    crate::segment::lemma_page_align_segments(1);
                    assert(FixedRegion::placed_size(SEGMENT_SIZE as int) == SEGMENT_SIZE) by {
                        assert(crate::os::spec_page_align_up(SEGMENT_SIZE as int)
                            == crate::prim::spec_align_up(SEGMENT_SIZE as int, FIXED_PAGE as int));
                    }
                }
                if src.region.range_not_free(seg.base(), SEGMENT_SIZE) {
                    let _ = crate::segment::segment_free(seg, &mut src.arenas, &mut src.region, &mut src.map);
                    self.stats.segments_freed = inc(self.stats.segments_freed);
                    proof {
                        assert(self.segs() =~= pre.segs().remove(k as int));
                        assert forall|j: int| 0 <= j < self.segs().len() implies {
                            &&& (#[trigger] self.segs()[j]).wf()
                            &&& self.segs()[j].seg_kind() == SegmentKind::Normal
                            &&& self.segs()[j].total() == SEGMENT_SIZE
                        } by {
                            if j < k {
                                assert(self.segs()[j] == pre.segs()[j]);
                            } else {
                                assert(self.segs()[j] == pre.segs()[j + 1]);
                            }
                        }
                        Self::lemma_wf_segments(pre, *self);
                    }
                    return;
                }
            }
        }
        let ghost s1 = seg;
        self.segments.insert(k, seg);
        proof {
            assert(self.segs() =~= pre.segs().update(k as int, s1));
            assert forall|j: int| 0 <= j < self.segs().len() implies {
                &&& (#[trigger] self.segs()[j]).wf()
                &&& self.segs()[j].seg_kind() == SegmentKind::Normal
                &&& self.segs()[j].total() == SEGMENT_SIZE
            } by {
                if j != k {
                    assert(self.segs()[j] == pre.segs()[j]);
                }
            }
            Self::lemma_wf_segments(pre, *self);
        }
    }
}


/// What a free did.
#[derive(Debug, Clone, Copy, PartialEq, Eq, Structural)]
pub enum FreeOutcome {
    /// The block was returned.
    Released,
    /// The address is in no block this heap handed out.
    NotOurs,
    /// The block is free already.
    AlreadyFree,
}

/// `q` is page `p` with allocated block `i` returned by its owner: on the
/// owner's free list, one fewer in use, every other block as before.
pub open spec fn freed_block(p: Page, q: Page, i: int) -> bool {
    &&& q.wf()
    &&& q.same_geometry(p)
    &&& p.is_allocated(i)
    &&& !q.is_allocated(i)
    &&& forall|j: int| j != i ==> #[trigger] q.is_allocated(j) == p.is_allocated(j)
    &&& q.used_count() == p.used_count() - 1
    &&& q.zero_free() == p.zero_free()
}

/// `addr` lies in block `i` of page `p`, one it has handed out or not.
pub open spec fn in_block(p: Page, addr: int, i: int) -> bool {
    &&& 0 <= i < p.cap()
    &&& p.block_addr(i) <= addr < p.block_addr(i) + p.bsize()
}

/// After the page at slice `slot` of the segment at `base` is retired: the
/// first segment at `base` had the span retired, or no segment is there
/// and the list is unchanged.
pub open spec fn page_retired(pre: Heap, post: Heap, base: int, slot: int) -> bool {
    ||| exists|k: int| 0 <= k < pre.segs().len() && #[trigger] pre.segs()[k].base_addr() == base
        && retire_outcome(pre, post, k, slot)
    ||| (forall|k: int| 0 <= k < pre.segs().len() ==> #[trigger] pre.segs()[k].base_addr() != base)
        && post.segs() == pre.segs()
}

/// The heap's state apart from its counters and parking count is the same.
pub open spec fn same_contents(pre: Heap, post: Heap) -> bool {
    &&& forall|b: int| 0 <= b < BIN_COUNT ==> #[trigger] post.queue(b) == pre.queue(b)
    &&& post.single_pages() == pre.single_pages()
    &&& post.segs() == pre.segs()
    &&& post.huges() == pre.huges()
}

/// Block `i` of the page at position `k` of queue `b` was returned, the
/// page becoming `q`: put back in place; or, emptied and not the only page
/// of its bin, retired; a parked page moves back to the front of its bin's
/// queue, or is retired when that queue has other pages and it emptied.
pub open spec fn queued_freed(pre: Heap, post: Heap, b: int, k: int, i: int) -> bool {
    let p = pre.queue(b)[k];
    let home = p.bin_of();
    exists|q: Page| {
        &&& #[trigger] freed_block(p, q, i)
        &&& post.single_pages() == pre.single_pages()
        &&& post.huges() == pre.huges()
        &&& b != BIN_FULL ==> {
            &&& q.flag_bits() == p.flag_bits()
            &&& q.xflag_of() == p.xflag_of()
            &&& forall|c: int| 0 <= c < BIN_COUNT && c != b ==> #[trigger] post.queue(c) == pre.queue(c)
            &&& {
                ||| post.queue(b) == pre.queue(b).update(k, q) && post.segs() == pre.segs()
                ||| {
                    &&& q.used_count() == 0
                    &&& pre.queue(b).len() > 1
                    &&& post.queue(b) == pre.queue(b).remove(k)
                    &&& page_retired(pre, post, p.segment_base(), p.slot_index())
                }
            }
        }
        &&& b == BIN_FULL ==> {
            &&& q.flag_bits() == p.flag_bits() & !IN_FULL
            &&& q.xflag_of() == XFlag::Normal
            &&& post.queue(b) == pre.queue(b).remove(k)
            &&& forall|c: int| 0 <= c < BIN_COUNT && c != b && c != home ==> #[trigger] post.queue(c) == pre.queue(c)
            &&& {
                ||| post.queue(home) == seq![q] + pre.queue(home) && post.segs() == pre.segs()
                ||| {
                    &&& q.used_count() == 0
                    &&& pre.queue(home).len() >= 1
                    &&& post.queue(home) == pre.queue(home)
                    &&& page_retired(pre, post, p.segment_base(), p.slot_index())
                }
            }
        }
    }
}

/// The large page at position `k` of the unqueued pages, its one block
/// returned, was retired.
pub open spec fn single_freed(pre: Heap, post: Heap, k: int) -> bool {
    &&& pre.single_pages()[k].is_allocated(0)
    &&& post.single_pages() == pre.single_pages().remove(k)
    &&& page_retired(pre, post, pre.single_pages()[k].segment_base(), pre.single_pages()[k].slot_index())
    &&& forall|b: int| #[trigger] post.queue(b) == pre.queue(b)
    &&& post.huges() == pre.huges()
}

/// The huge block at position `k` was dropped, its segment released.
pub open spec fn huge_freed(pre: Heap, post: Heap, k: int) -> bool {
    &&& post.huges() == pre.huges().remove(k)
    &&& forall|b: int| #[trigger] post.queue(b) == pre.queue(b)
    &&& post.single_pages() == pre.single_pages()
    &&& post.segs() == pre.segs()
}

/// What freeing `addr` did: the huge block whose segment holds it was
/// dropped; or the block of the large or queued page holding `addr` was
/// returned; else nothing changed.
pub open spec fn free_outcome(pre: Heap, post: Heap, addr: int, r: FreeOutcome) -> bool {
    let base = spec_segment_of(addr);
    match r {
        FreeOutcome::NotOurs => same_contents(pre, post),
        FreeOutcome::AlreadyFree => same_contents(pre, post),
        FreeOutcome::Released => {
            ||| exists|k: int| 0 <= k < pre.huges().len() && pre.huges()[k].seg.base_addr() == base
                && #[trigger] huge_freed(pre, post, k)
            ||| exists|k: int| {
                &&& 0 <= k < pre.single_pages().len()
                &&& pre.single_pages()[k].segment_base() == base
                &&& in_block(pre.single_pages()[k], addr, 0)
                &&& #[trigger] single_freed(pre, post, k)
            }
            ||| exists|b: int, k: int, i: int| {
                &&& 0 <= b < BIN_COUNT
                &&& 0 <= k < pre.queue(b).len()
                &&& pre.queue(b)[k].segment_base() == base
                &&& in_block(pre.queue(b)[k], addr, i)
                &&& #[trigger] queued_freed(pre, post, b, k, i)
            }
        },
    }
}

/// The block of page `p` holding `addr`, when `addr` lies in the blocks
/// it has handed out or extended.
fn block_of(p: &Page, addr: usize) -> (r: Option<u32>)
    requires
        p.wf(),
    ensures
        match r {
            Some(i) => in_block(*p, addr as int, i as int),
            None => forall|i: int| !#[trigger] in_block(*p, addr as int, i),
        },
{
    let area = p.area();
    if addr < area {
        proof {
            assert forall|i: int| !#[trigger] in_block(*p, addr as int, i) by {
                if 0 <= i < p.cap() {
                    assert(i * p.bsize() >= 0) by (nonlinear_arith)
                        requires i >= 0, p.bsize() >= 1;
                }
            }
        }
        return None;
    }
    let bsz = p.block_size();
    let q = (addr - area) / bsz;
    proof {
        let d = (addr - area) as int;
        vstd::arithmetic::div_mod::lemma_fundamental_div_mod(d, bsz as int);
        assert(q * bsz <= d < q * bsz + bsz) by (nonlinear_arith)
            requires d == bsz * q + d % (bsz as int), 0 <= d % (bsz as int) < bsz;
    }
    if q >= p.capacity() as usize {
        proof {
            assert forall|i: int| !#[trigger] in_block(*p, addr as int, i) by {
                if in_block(*p, addr as int, i) {
                    let d = (addr - area) as int;
                    let b = bsz as int;
                    assert(p.block_addr(i) == area + i * b);
                    assert(i * b <= d < i * b + b);
                    assert(i == q) by (nonlinear_arith)
                        requires i * b <= d, d < q * b + b, q * b <= d, d < i * b + b, b >= 1;
                }
            }
        }
        return None;
    }
    proof {
        assert(addr < area + p.cap() * p.bsize()) by (nonlinear_arith)
            requires addr - area < q * bsz + bsz, q < p.cap(), bsz == p.bsize(), bsz >= 1;
    }
    Some(p.block_index(addr))
}


impl Heap {
    /// Retire the span of the page at slice `slot` of the segment at
    /// `base`, when one of the heap's segments is there.
    fn retire_page(&mut self, src: &mut Sources, options: &Options, base: usize, slot: usize)
        requires
            old(self).wf(),
            old(src).ready(*options),
        ensures
            final(self).wf(),
            old(src).kept(*final(src), *options),
            final(self).queues == old(self).queues,
            final(self).singles@ == old(self).singles@,
            final(self).huge@ == old(self).huge@,
            page_retired(*old(self), *final(self), base as int, slot as int),
            final(self).delayed@ == old(self).delayed@,
    {
        match self.find_segment(base) {
            Some(k) => {
                self.retire_span(src, options, k, slot);
            },
            None => {},
        }
    }

    /// Return block `i` of the page at position `k` of queue `b`.
    #[verifier::spinoff_prover]
    #[verifier::rlimit(60)]
    fn free_queued(&mut self, src: &mut Sources, options: &Options, b: usize, k: usize, i: u32)
        requires
            old(self).wf(),
            old(src).ready(*options),
            b < BIN_COUNT,
            k < old(self).queue(b as int).len(),
            old(self).queue(b as int)[k as int].is_allocated(i as int),
        ensures
            final(self).wf(),
            old(src).kept(*final(src), *options),
            queued_freed(*old(self), *final(self), b as int, k as int, i as int),
            final(self).delayed@ == old(self).delayed@,
    {
        let ghost pre = *self;
        let ghost p = pre.queue(b as int)[k as int];
        proof {
            if b == 0 || b == BIN_HUGE {
                assert(pre.queue(b as int).len() == 0);
            }
            if b == BIN_FULL {
                assert(binned_ok(p, p.bin_of()));
            } else {
                assert(binned_ok(p, b as int));
            }
        }
        let mut pg = self.queues.take(b, k);
        let ghost after_take = *self;
        let used = pg.push_local(i);
        let ghost p1 = pg;
        proof {
            assert(freed_block(p, p1, i as int));
        }
        if b == BIN_FULL {
            let f = pg.flags();
            pg.set_flags(f & !IN_FULL);
            pg.set_xflag(XFlag::Normal);
            let ghost q = pg;
            proof {
                assert(q.listed() == p1.listed());
                assert forall|j: int| #[trigger] q.is_allocated(j) == p1.is_allocated(j) by {}
            }
            let home = pg.bin() as usize;
            proof {
                assert(freed_block(p, q, i as int));
                assert(binned_ok(q, home as int));
                assert(1 <= home < BIN_HUGE);
            }
            if used == 0 && self.queues.len(home) >= 1 {
                let pos = pg.position();
                proof {
                    assert(self.queue(BIN_FULL as int) == pre.queue(BIN_FULL as int).remove(k as int));
                    assert forall|j: int| 0 <= j < self.queue(BIN_FULL as int).len() implies
                        #[trigger] binned_ok(self.queue(BIN_FULL as int)[j], self.queue(BIN_FULL as int)[j].bin_of()) by {
                        if j < k {
                            assert(self.queue(BIN_FULL as int)[j] == pre.queue(BIN_FULL as int)[j]);
                        } else {
                            assert(self.queue(BIN_FULL as int)[j] == pre.queue(BIN_FULL as int)[j + 1]);
                        }
                    }
                    assert forall|j: int| 0 <= j < self.queue(home as int).len() implies
                        #[trigger] binned_ok(self.queue(home as int)[j], home as int) by {
                        assert(self.queue(home as int)[j] == pre.queue(home as int)[j]);
                    }
                    Self::lemma_wf_queues_change(pre, *self, home as int, BIN_FULL as int);
                }
                let ghost mid = *self;
                self.retire_page(src, options, pos.0, pos.1);
                proof {
                    assert(mid.segs() == pre.segs());
                    assert(mid.parked_empty() == pre.parked_empty());
                    assert(page_retired(pre, *self, p.segment_base(), p.slot_index()));
                    assert forall|c: int| 0 <= c < BIN_COUNT && c != b && c != home implies #[trigger] self.queue(c) == pre.queue(c) by {
                        assert(mid.queue(c) == pre.queue(c));
                    }
                    assert(self.queue(home as int) == pre.queue(home as int));
                }
            } else {
                self.queues.put(home, 0, pg);
                proof {
                    assert(self.queue(home as int) == seq![q] + pre.queue(home as int));
                    assert(self.queue(BIN_FULL as int) == pre.queue(BIN_FULL as int).remove(k as int));
                    assert forall|j: int| 0 <= j < self.queue(BIN_FULL as int).len() implies
                        #[trigger] binned_ok(self.queue(BIN_FULL as int)[j], self.queue(BIN_FULL as int)[j].bin_of()) by {
                        if j < k {
                            assert(self.queue(BIN_FULL as int)[j] == pre.queue(BIN_FULL as int)[j]);
                        } else {
                            assert(self.queue(BIN_FULL as int)[j] == pre.queue(BIN_FULL as int)[j + 1]);
                        }
                    }
                    assert forall|j: int| 0 <= j < self.queue(home as int).len() implies
                        #[trigger] binned_ok(self.queue(home as int)[j], home as int) by {
                        if j > 0 {
                            assert(self.queue(home as int)[j] == pre.queue(home as int)[j - 1]);
                        }
                    }
                    Self::lemma_wf_queues_change(pre, *self, home as int, BIN_FULL as int);
                    assert forall|c: int| 0 <= c < BIN_COUNT && c != b && c != home implies #[trigger] self.queue(c) == pre.queue(c) by {
                        assert(after_take.queue(c) == pre.queue(c));
                    }
                }
            }
            proof {
                assert(queued_freed(pre, *self, b as int, k as int, i as int)) by {
                    assert(freed_block(p, q, i as int));
                }
            }
        } else {
            let ghost q = pg;
            proof {
                assert(freed_block(p, q, i as int));
                assert(binned_ok(q, b as int));
            }
            if used == 0 && self.queues.len(b) >= 1 {
                let pos = pg.position();
                proof {
                    assert(self.queue(b as int) == pre.queue(b as int).remove(k as int));
                    assert forall|j: int| 0 <= j < self.queue(b as int).len() implies
                        #[trigger] binned_ok(self.queue(b as int)[j], b as int) by {
                        if j < k {
                            assert(self.queue(b as int)[j] == pre.queue(b as int)[j]);
                        } else {
                            assert(self.queue(b as int)[j] == pre.queue(b as int)[j + 1]);
                        }
                    }
                    assert forall|j: int| 0 <= j < self.queue(BIN_FULL as int).len() implies
                        #[trigger] binned_ok(self.queue(BIN_FULL as int)[j], self.queue(BIN_FULL as int)[j].bin_of()) by {
                        assert(self.queue(BIN_FULL as int)[j] == pre.queue(BIN_FULL as int)[j]);
                    }
                    Self::lemma_wf_queues_change(pre, *self, b as int, BIN_FULL as int);
                }
                let ghost mid = *self;
                self.retire_page(src, options, pos.0, pos.1);
                proof {
                    assert(mid.segs() == pre.segs());
                    assert(mid.parked_empty() == pre.parked_empty());
                    assert(page_retired(pre, *self, p.segment_base(), p.slot_index()));
                    assert forall|c: int| 0 <= c < BIN_COUNT && c != b implies #[trigger] self.queue(c) == pre.queue(c) by {
                        assert(mid.queue(c) == pre.queue(c));
                    }
                }
            } else {
                self.queues.put(b, k, pg);
                proof {
                    assert(self.queue(b as int) =~= pre.queue(b as int).update(k as int, q));
                    assert forall|j: int| 0 <= j < self.queue(b as int).len() implies
                        #[trigger] binned_ok(self.queue(b as int)[j], b as int) by {
                        if j != k {
                            assert(self.queue(b as int)[j] == pre.queue(b as int)[j]);
                        }
                    }
                    assert forall|j: int| 0 <= j < self.queue(BIN_FULL as int).len() implies
                        #[trigger] binned_ok(self.queue(BIN_FULL as int)[j], self.queue(BIN_FULL as int)[j].bin_of()) by {
                        assert(self.queue(BIN_FULL as int)[j] == pre.queue(BIN_FULL as int)[j]);
                    }
                    Self::lemma_wf_queues_change(pre, *self, b as int, BIN_FULL as int);
                    assert forall|c: int| 0 <= c < BIN_COUNT && c != b implies #[trigger] self.queue(c) == pre.queue(c) by {
                        assert(after_take.queue(c) == pre.queue(c));
                    }
                }
            }
            proof {
                assert(queued_freed(pre, *self, b as int, k as int, i as int)) by {
                    assert(freed_block(p, q, i as int));
                }
            }
        }
        let ghost before = *self;
        self.stats.frees = inc(self.stats.frees);
        proof {
            Self::lemma_wf_frame(before, *self);
            assert forall|c: int| #[trigger] self.queue(c) == before.queue(c) by {}
        }
    }
}


/// Page `p` is backed by the live span at its slice of segment `s`: the
/// span has the page's length, and the page's area starts it and holds
/// the page's blocks.
pub open spec fn backed_by(p: Page, s: Segment) -> bool {
    &&& s.base_addr() == p.segment_base()
    &&& s.spans().contains_key(p.slot_index())
    &&& s.spans()[p.slot_index()].0 == p.slices()
    &&& s.spans()[p.slot_index()].1
    &&& p.area_addr() == s.base_addr() + p.slot_index() * SEGMENT_SLICE_SIZE
    &&& p.rsv() * p.bsize() <= p.slices() * SEGMENT_SLICE_SIZE
}

/// The page at position `k` of queue `b` is the only page of the heap at
/// its slice of its segment; that segment, which backs it, is the only
/// one at its base, and no huge block's segment is there.
pub open spec fn sole_queued_page(h: Heap, b: int, k: int) -> bool {
    let p = h.queue(b)[k];
    &&& 0 <= b < BIN_COUNT
    &&& 0 <= k < h.queue(b).len()
    &&& forall|j: int| 0 <= j < h.huges().len() ==> #[trigger] h.huges()[j].seg.base_addr() != p.segment_base()
    &&& exists|ks: int| 0 <= ks < h.segs().len() && #[trigger] backed_by(p, h.segs()[ks])
    &&& forall|j: int, l: int| 0 <= j < h.segs().len() && 0 <= l < h.segs().len()
        && #[trigger] h.segs()[j].base_addr() == #[trigger] h.segs()[l].base_addr() ==> j == l
    &&& forall|j: int| 0 <= j < h.single_pages().len() ==>
        !(#[trigger] h.single_pages()[j].segment_base() == p.segment_base() && h.single_pages()[j].slot_index() == p.slot_index())
    &&& forall|c: int, j: int| #![trigger h.queue(c)[j]] 0 <= c < BIN_COUNT && 0 <= j < h.queue(c).len() && (c != b || j != k) ==>
        !(h.queue(c)[j].segment_base() == p.segment_base() && h.queue(c)[j].slot_index() == p.slot_index())
}

/// `addr` lies in block `i`, handed out, of the page at position `k` of
/// queue `b`, a sole page of its segment at `addr`'s segment base.
pub open spec fn free_candidate(h: Heap, addr: int, b: int, k: int, i: int) -> bool {
    &&& sole_queued_page(h, b, k)
    &&& in_block(h.queue(b)[k], addr, i)
    &&& h.queue(b)[k].is_allocated(i)
    &&& h.queue(b)[k].segment_base() == spec_segment_of(addr)
}

/// `addr` lies in block `i` of the page at position `k` of queue `b`, a
/// sole page of its segment at `addr`'s segment base.
pub open spec fn block_candidate(h: Heap, addr: int, b: int, k: int, i: int) -> bool {
    &&& sole_queued_page(h, b, k)
    &&& in_block(h.queue(b)[k], addr, i)
    &&& h.queue(b)[k].segment_base() == spec_segment_of(addr)
}

/// The segment at position `ks` is the first at `base`.
pub open spec fn first_seg(h: Heap, base: int, ks: int) -> bool {
    &&& 0 <= ks < h.segs().len()
    &&& h.segs()[ks].base_addr() == base
    &&& forall|j: int| 0 <= j < ks ==> #[trigger] h.segs()[j].base_addr() != base
}

/// The unqueued page at position `k` is the first at slice `slot` of the
/// segment at `base`.
pub open spec fn first_single(h: Heap, base: int, slot: int, k: int) -> bool {
    &&& 0 <= k < h.single_pages().len()
    &&& h.single_pages()[k].segment_base() == base
    &&& h.single_pages()[k].slot_index() == slot
    &&& forall|j: int| 0 <= j < k ==>
        !(#[trigger] h.single_pages()[j].segment_base() == base && h.single_pages()[j].slot_index() == slot)
}

/// The page at position `k` of queue `b` is the first queued page, queue
/// by queue, at slice `slot` of the segment at `base`.
pub open spec fn first_queued(h: Heap, base: int, slot: int, b: int, k: int) -> bool {
    &&& 0 <= b < BIN_COUNT
    &&& 0 <= k < h.queue(b).len()
    &&& h.queue(b)[k].segment_base() == base
    &&& h.queue(b)[k].slot_index() == slot
    &&& forall|c: int, j: int| 0 <= c < b && 0 <= j < h.queue(c).len() ==>
        !(#[trigger] h.queue(c)[j].segment_base() == base && h.queue(c)[j].slot_index() == slot)
    &&& forall|j: int| 0 <= j < k ==>
        !(#[trigger] h.queue(b)[j].segment_base() == base && h.queue(b)[j].slot_index() == slot)
}

/// `q` is page `p` marked as holding pointers into its blocks.
pub open spec fn page_marked(p: Page, q: Page) -> bool {
    &&& q.flag_bits() == (p.flag_bits() | HAS_ALIGNED)
    &&& q.same_geometry(p)
    &&& q.listed() == p.listed()
    &&& q.free_list() == p.free_list()
    &&& q.local_list() == p.local_list()
    &&& q.xthread_list() == p.xthread_list()
    &&& q.used_count() == p.used_count()
    &&& q.zero_free() == p.zero_free()
    &&& q.xflag_of() == p.xflag_of()
}

/// What marking `addr` did: with `addr` in the carved slices of the first
/// segment at its segment base, the first unqueued page at its slice, else
/// the first queued one, is marked, every other page as before; nothing
/// changes otherwise.
pub open spec fn aligned_marked(pre: Heap, post: Heap, addr: int) -> bool {
    let base = spec_segment_of(addr);
    let unchanged = post.single_pages() == pre.single_pages() && forall|c: int| #[trigger] post.queue(c) == pre.queue(c);
    &&& (forall|j: int| 0 <= j < pre.segs().len() ==> #[trigger] pre.segs()[j].base_addr() != base) ==> unchanged
    &&& forall|ks: int| #[trigger] first_seg(pre, base, ks) ==> {
        let sg = pre.segs()[ks];
        let inside = base + HEADER_SLICES * SEGMENT_SLICE_SIZE <= addr < base + sg.nfree() * SEGMENT_SLICE_SIZE;
        let slot = sg.start_of((addr - base) / (SEGMENT_SLICE_SIZE as int));
        let no_single = forall|j: int| 0 <= j < pre.single_pages().len() ==>
            !(#[trigger] pre.single_pages()[j].segment_base() == base && pre.single_pages()[j].slot_index() == slot);
        let no_queued = forall|b: int, j: int| 0 <= b < BIN_COUNT && 0 <= j < pre.queue(b).len() ==>
            !(#[trigger] pre.queue(b)[j].segment_base() == base && pre.queue(b)[j].slot_index() == slot);
        &&& !inside ==> unchanged
        &&& inside ==> forall|k: int| #[trigger] first_single(pre, base, slot, k) ==> {
            &&& post.single_pages() == pre.single_pages().update(k, post.single_pages()[k])
            &&& page_marked(pre.single_pages()[k], post.single_pages()[k])
            &&& forall|c: int| #[trigger] post.queue(c) == pre.queue(c)
        }
        &&& inside && no_single ==> forall|b: int, k: int| #[trigger] first_queued(pre, base, slot, b, k) ==> {
            &&& post.queue(b) == pre.queue(b).update(k, post.queue(b)[k])
            &&& page_marked(pre.queue(b)[k], post.queue(b)[k])
            &&& forall|c: int| 0 <= c < BIN_COUNT && c != b ==> #[trigger] post.queue(c) == pre.queue(c)
            &&& post.single_pages() == pre.single_pages()
        }
        &&& inside && no_single && no_queued ==> unchanged
    }
}

/// An address lies in one block of a page at most.
proof fn lemma_in_one_block(p: Page, addr: int, i: int, j: int)
    requires
        p.bsize() >= 1,
        in_block(p, addr, i),
        in_block(p, addr, j),
    ensures
        i == j,
{
    let b = p.bsize();
    let d = addr - p.area_addr();
    assert(i * b <= d < i * b + b);
    assert(j * b <= d < j * b + b);
    assert(i == j) by (nonlinear_arith)
        requires i * b <= d, d < i * b + b, j * b <= d, d < j * b + b, b >= 1;
}

/// Where the free path finds a sole page's block: every segment at the
/// page's base backs it, holds the address in its carved slices, and leads
/// the address back to the page's slice.
proof fn lemma_sole_located(h: Heap, b: int, k: int, i: int, addr: int)
    requires
        h.wf(),
        sole_queued_page(h, b, k),
        in_block(h.queue(b)[k], addr, i),
    ensures
        forall|j: int| 0 <= j < h.segs().len() && #[trigger] h.segs()[j].base_addr() == h.queue(b)[k].segment_base() ==> {
            &&& backed_by(h.queue(b)[k], h.segs()[j])
            &&& h.segs()[j].base_addr() + HEADER_SLICES * SEGMENT_SLICE_SIZE <= addr
            &&& addr < h.segs()[j].base_addr() + h.segs()[j].nfree() * SEGMENT_SLICE_SIZE
            &&& h.segs()[j].start_of((addr - h.segs()[j].base_addr()) / (SEGMENT_SLICE_SIZE as int))
                == h.queue(b)[k].slot_index()
        },
{
    let p = h.queue(b)[k];
    let ks = choose|ks: int| 0 <= ks < h.segs().len() && #[trigger] backed_by(p, h.segs()[ks]);
    assert forall|j: int| 0 <= j < h.segs().len() && #[trigger] h.segs()[j].base_addr() == p.segment_base() implies {
        &&& backed_by(p, h.segs()[j])
        &&& h.segs()[j].base_addr() + HEADER_SLICES * SEGMENT_SLICE_SIZE <= addr
        &&& addr < h.segs()[j].base_addr() + h.segs()[j].nfree() * SEGMENT_SLICE_SIZE
        &&& h.segs()[j].start_of((addr - h.segs()[j].base_addr()) / (SEGMENT_SLICE_SIZE as int)) == p.slot_index()
    } by {
        assert(h.segs()[ks].base_addr() == p.segment_base());
        assert(j == ks);
        let seg = h.segs()[ks];
        assert(seg.wf());
        seg.lemma_span_bounds(p.slot_index());
        let slot = p.slot_index();
        let n = p.slices();
        let base = seg.base_addr();
        let area = p.area_addr();
        let bs = p.bsize();
        assert(b == BIN_FULL || (1 <= b < BIN_HUGE)) by {
            if b == 0 || b == BIN_HUGE {
                assert(h.queue(b).len() == 0);
            }
        }
        if b == BIN_FULL {
            assert(binned_ok(p, p.bin_of()));
        } else {
            assert(binned_ok(p, b));
        }
        assert(p.wf());
        assert(0 <= i < p.cap());
        assert(i * bs + bs <= p.rsv() * bs) by (nonlinear_arith)
            requires 0 <= i < p.cap(), p.cap() <= p.rsv(), bs >= 1;
        assert(area + i * bs <= addr < area + i * bs + bs);
        let d = addr - base;
        assert(slot * SEGMENT_SLICE_SIZE <= d < (slot + n) * SEGMENT_SLICE_SIZE) by (nonlinear_arith)
            requires d == addr - base, area == base + slot * SEGMENT_SLICE_SIZE, area <= addr,
                addr < area + p.rsv() * bs, p.rsv() * bs <= n * SEGMENT_SLICE_SIZE;
        let q = d / (SEGMENT_SLICE_SIZE as int);
        vstd::arithmetic::div_mod::lemma_fundamental_div_mod(d, SEGMENT_SLICE_SIZE as int);
        assert(slot <= q < slot + n) by (nonlinear_arith)
            requires slot * SEGMENT_SLICE_SIZE <= d, d < (slot + n) * SEGMENT_SLICE_SIZE,
                d == SEGMENT_SLICE_SIZE * q + d % (SEGMENT_SLICE_SIZE as int),
                0 <= d % (SEGMENT_SLICE_SIZE as int) < SEGMENT_SLICE_SIZE;
        seg.lemma_start_of_in_span(slot, q);
        assert(HEADER_SLICES * SEGMENT_SLICE_SIZE <= d) by (nonlinear_arith)
            requires HEADER_SLICES <= slot, slot * SEGMENT_SLICE_SIZE <= d;
        assert(d < seg.nfree() * SEGMENT_SLICE_SIZE) by (nonlinear_arith)
            requires slot + n <= seg.nfree(), d < (slot + n) * SEGMENT_SLICE_SIZE;
    }
}

impl Heap {
    /// Drop the huge block at position `k` and release its segment (kept
    /// when its memory is found free already, or its arena run would not
    /// fit).
    fn free_huge(&mut self, src: &mut Sources, options: &Options, k: usize)
        requires
            old(self).wf(),
            old(src).ready(*options),
            k < old(self).huges().len(),
        ensures
            final(self).wf(),
            old(src).kept(*final(src), *options),
            huge_freed(*old(self), *final(self), k as int),
            final(self).delayed@ == old(self).delayed@,
    {
        let ghost pre = *self;
        let hb = self.huge.remove(k);
        let seg = hb.seg;
        proof {
            assert(seg == pre.huges()[k as int].seg);
            assert(seg.wf());
            seg.lemma_wf_geometry();
            crate::prim::fixed::lemma_region_align_pow2();
        }
        let base = seg.base();
        let total = seg.total_size();
        if total <= usize::MAX - (FIXED_PAGE - 1) {
            let placed = crate::prim::align_up(total, FIXED_PAGE);
            if base <= usize::MAX - placed && src.region.range_not_free(base, total)
                && src.arenas.run_fits(base, total / SEGMENT_SIZE) {
                let _ = crate::segment::huge_free(seg, &mut src.arenas, &mut src.region, &mut src.map);
            }
        }
        self.stats.frees = inc(self.stats.frees);
        proof {
            assert(self.huges() =~= pre.huges().remove(k as int));
            assert forall|j: int| 0 <= j < self.huges().len() implies {
                &&& (#[trigger] self.huges()[j]).seg.wf()
                &&& self.huges()[j].seg.seg_kind() == SegmentKind::Huge
            } by {
                if j < k {
                    assert(self.huges()[j] == pre.huges()[j]);
                } else {
                    assert(self.huges()[j] == pre.huges()[j + 1]);
                }
            }
            assert forall|j: int| 0 <= j < self.single_pages().len() implies {
                &&& (#[trigger] self.single_pages()[j]).wf()
                &&& self.single_pages()[j].rsv() == 1
                &&& self.single_pages()[j].bin_of() == BIN_HUGE
            } by {
                assert(self.single_pages()[j] == pre.single_pages()[j]);
            }
            Self::lemma_wf_singles_huges(pre, *self);
        }
    }

    /// Retire the large page at position `k`, whose one block is handed
    /// out.
    fn free_single(&mut self, src: &mut Sources, options: &Options, k: usize)
        requires
            old(self).wf(),
            old(src).ready(*options),
            k < old(self).single_pages().len(),
            old(self).single_pages()[k as int].is_allocated(0),
        ensures
            final(self).wf(),
            old(src).kept(*final(src), *options),
            single_freed(*old(self), *final(self), k as int),
            final(self).delayed@ == old(self).delayed@,
    {
        let ghost pre = *self;
        let pg = self.singles.remove(k);
        let pos = pg.position();
        self.stats.frees = inc(self.stats.frees);
        proof {
            assert(pg == pre.single_pages()[k as int]);
            assert(self.single_pages() =~= pre.single_pages().remove(k as int));
            assert forall|j: int| 0 <= j < self.single_pages().len() implies {
                &&& (#[trigger] self.single_pages()[j]).wf()
                &&& self.single_pages()[j].rsv() == 1
                &&& self.single_pages()[j].bin_of() == BIN_HUGE
            } by {
                if j < k {
                    assert(self.single_pages()[j] == pre.single_pages()[j]);
                } else {
                    assert(self.single_pages()[j] == pre.single_pages()[j + 1]);
                }
            }
            Self::lemma_wf_singles_huges(pre, *self);
        }
        let ghost mid = *self;
        self.retire_page(src, options, pos.0, pos.1);
        proof {
            assert(mid.segs() == pre.segs());
            assert(mid.parked_empty() == pre.parked_empty());
            assert forall|b: int| #[trigger] self.queue(b) == pre.queue(b) by {
                assert(mid.queue(b) == pre.queue(b));
            }
        }
    }

    /// Free the block holding `addr`, which this heap's thread owns: a huge
    /// block drops its segment; a large page is retired; a queued page takes
    /// the block on its owner's free list, moves back from the full queue
    /// when parked there, and is retired when it empties and is not the only
    /// page of its bin. `AlreadyFree`, and no change, for a block not handed
    /// out; `NotOurs`, and no change, for an address in no block of the heap.
    #[verifier::spinoff_prover]
    #[verifier::rlimit(60)]
    pub fn free_local(&mut self, src: &mut Sources, options: &Options, addr: usize) -> (r: FreeOutcome)
        requires
            old(self).wf(),
            old(src).ready(*options),
        ensures
            final(self).wf(),
            old(src).kept(*final(src), *options),
            free_outcome(*old(self), *final(self), addr as int, r),
            final(self).delayed_list() == old(self).delayed_list(),
            forall|b: int, k: int, i: int| free_candidate(*old(self), addr as int, b, k, i)
                ==> r == FreeOutcome::Released && #[trigger] queued_freed(*old(self), *final(self), b, k, i),
    {
        let ghost pre = *self;
        let base = crate::segment::segment_of(addr);
        if let Some(k) = self.find_huge(base) {
            proof {
                assert forall|b: int, kk: int, i: int| !#[trigger] free_candidate(pre, addr as int, b, kk, i) by {
                    if free_candidate(pre, addr as int, b, kk, i) {
                        assert(pre.huges()[k as int].seg.base_addr() != pre.queue(b)[kk].segment_base());
                    }
                }
            }
            self.free_huge(src, options, k);
            return FreeOutcome::Released;
        }
        let ks = match self.find_segment(base) {
            Some(ks) => ks,
            None => {
                proof {
                    assert forall|b: int, kk: int, i: int| !#[trigger] free_candidate(pre, addr as int, b, kk, i) by {
                        if free_candidate(pre, addr as int, b, kk, i) {
                            let p = pre.queue(b)[kk];
                            let w = choose|w: int| 0 <= w < pre.segs().len() && #[trigger] backed_by(p, pre.segs()[w]);
                            assert(pre.segs()[w].base_addr() != base);
                        }
                    }
                }
                return FreeOutcome::NotOurs;
            },
        };
        proof {
            assert(pre.segs()[ks as int].wf());
            pre.segs()[ks as int].lemma_wf_geometry();
        }
        let nfree = self.segments[ks].carved_slices();
        proof {
            assert(nfree * SEGMENT_SLICE_SIZE <= SEGMENT_SIZE) by (nonlinear_arith)
                requires nfree <= SLICES_PER_SEGMENT, SEGMENT_SIZE == SLICES_PER_SEGMENT * SEGMENT_SLICE_SIZE;
        }
        if addr < base + HEADER_SLICES * SEGMENT_SLICE_SIZE || addr >= base + nfree * SEGMENT_SLICE_SIZE {
            proof {
                assert forall|b: int, kk: int, i: int| !#[trigger] free_candidate(pre, addr as int, b, kk, i) by {
                    if free_candidate(pre, addr as int, b, kk, i) {
                        lemma_sole_located(pre, b, kk, i, addr as int);
                        assert(pre.segs()[ks as int].base_addr() == pre.queue(b)[kk].segment_base());
                    }
                }
            }
            return FreeOutcome::NotOurs;
        }
        let slot = self.segments[ks].page_of(addr);
        proof {
            assert forall|b: int, kk: int, i: int| #[trigger] free_candidate(pre, addr as int, b, kk, i)
                implies pre.queue(b)[kk].slot_index() == slot by {
                lemma_sole_located(pre, b, kk, i, addr as int);
                assert(pre.segs()[ks as int].base_addr() == pre.queue(b)[kk].segment_base());
            }
        }
        if let Some(k) = self.find_single(base, slot) {
            proof {
                assert(pre.single_pages()[k as int].wf());
                assert forall|b: int, kk: int, i: int| !#[trigger] free_candidate(pre, addr as int, b, kk, i) by {
                    if free_candidate(pre, addr as int, b, kk, i) {
                        assert(pre.queue(b)[kk].slot_index() == slot);
                        assert(!(pre.single_pages()[k as int].segment_base() == pre.queue(b)[kk].segment_base()
                            && pre.single_pages()[k as int].slot_index() == pre.queue(b)[kk].slot_index()));
                    }
                }
            }
            match block_of(&self.singles[k], addr) {
                None => {
                    return FreeOutcome::NotOurs;
                },
                Some(i) => {
                    proof {
                        assert(pre.single_pages()[k as int].rsv() == 1);
                        assert(i == 0);
                    }
                    if !self.singles[k].block_is_allocated(0) {
                        return FreeOutcome::AlreadyFree;
                    }
                    self.free_single(src, options, k);
                    proof {
                        assert(single_freed(pre, *self, k as int));
                        assert(in_block(pre.single_pages()[k as int], addr as int, 0));
                    }
                    return FreeOutcome::Released;
                },
            }
        }
        match self.find_queued(base, slot) {
            None => {
                proof {
                    assert forall|b: int, kk: int, i: int| !#[trigger] free_candidate(pre, addr as int, b, kk, i) by {
                        if free_candidate(pre, addr as int, b, kk, i) {
                            assert(pre.queue(b)[kk].slot_index() == slot);
                            assert(pre.queue(b)[kk].segment_base() == base);
                        }
                    }
                }
                FreeOutcome::NotOurs
            },
            Some((b, k)) => {
                proof {
                    if b == 0 || b == BIN_HUGE {
                        assert(pre.queue(b as int).len() == 0);
                    }
                    if b == BIN_FULL {
                        assert(binned_ok(pre.queue(b as int)[k as int], pre.queue(b as int)[k as int].bin_of()));
                    } else {
                        assert(binned_ok(pre.queue(b as int)[k as int], b as int));
                    }
                    assert forall|bb: int, kk: int, i: int| #[trigger] free_candidate(pre, addr as int, bb, kk, i)
                        implies bb == b && kk == k by {
                        assert(pre.queue(bb)[kk].slot_index() == slot);
                        if bb != b || kk != k {
                            assert(!(pre.queue(b as int)[k as int].segment_base() == pre.queue(bb)[kk].segment_base()
                                && pre.queue(b as int)[k as int].slot_index() == pre.queue(bb)[kk].slot_index()));
                        }
                    }
                }
                match block_of(self.queues.get(b, k), addr) {
                    None => {
                        proof {
                            assert forall|bb: int, kk: int, i: int| !#[trigger] free_candidate(pre, addr as int, bb, kk, i) by {
                                if free_candidate(pre, addr as int, bb, kk, i) {
                                    assert(bb == b && kk == k);
                                    assert(in_block(pre.queue(b as int)[k as int], addr as int, i));
                                }
                            }
                        }
                        FreeOutcome::NotOurs
                    },
                    Some(i) => {
                        proof {
                            assert forall|bb: int, kk: int, ii: int| #[trigger] free_candidate(pre, addr as int, bb, kk, ii)
                                implies bb == b && kk == k && ii == i by {
                                assert(bb == b && kk == k);
                                lemma_in_one_block(pre.queue(b as int)[k as int], addr as int, i as int, ii);
                            }
                        }
                        if !self.queues.get(b, k).block_is_allocated(i) {
                            return FreeOutcome::AlreadyFree;
                        }
                        self.free_queued(src, options, b, k, i);
                        proof {
                            assert(queued_freed(pre, *self, b as int, k as int, i as int));
                            assert(in_block(pre.queue(b as int)[k as int], addr as int, i as int));
                        }
                        FreeOutcome::Released
                    },
                }
            },
        }
    }
}


/// A huge allocation of `size` bytes placed so that `(block + offset) %
/// align == 0`: a new huge block at the front, in a dedicated segment that
/// holds it after its header slice.
pub open spec fn huge_outcome(pre: Heap, post: Heap, size: int, align: int, offset: int,
    r: Option<(usize, bool)>) -> bool
{
    &&& r matches Some((addr, zero)) ==> {
        let h = post.huges()[0];
        &&& post.huges() == seq![h] + pre.huges()
        &&& h.block == addr
        &&& h.size == size
        &&& (addr + offset) % align == 0
        &&& h.seg.base_addr() + SEGMENT_SLICE_SIZE <= addr
        &&& addr + size <= h.seg.base_addr() + h.seg.total()
        &&& h.seg.owner() == pre.owner()
        &&& zero == h.seg.zero_mem()
    }
    &&& r is None ==> post.huges() == pre.huges()
}

/// A guarded object of `size` bytes: a huge block of its size in whole
/// pages plus one guard page, page-aligned; the backend cannot protect the
/// guard page, so the block's start is handed out, known zero.
pub open spec fn guarded_outcome(pre: Heap, post: Heap, size: int, r: Option<(usize, bool)>) -> bool {
    let payload = crate::os::spec_page_align_up(size);
    &&& r matches Some((addr, zero)) && zero
        && huge_outcome(pre, post, payload + FIXED_PAGE, FIXED_PAGE as int, 0,
            Some((addr, post.huges()[0].seg.zero_mem())))
    &&& forall|b: int| #[trigger] post.queue(b) == pre.queue(b)
    &&& post.single_pages() == pre.single_pages()
}

/// What a request of `size` bytes did by its size class: a binned block,
/// a large page, or a huge block with the default alignment; `None` for a
/// huge size past the address space.
pub open spec fn sized_outcome(pre: Heap, post: Heap, size: int, r: Option<(usize, bool)>) -> bool {
    if size <= MEDIUM_OBJ_SIZE_MAX {
        &&& binned_outcome(pre, post, size, r)
        &&& forall|c: int| 0 <= c < BIN_COUNT && c != spec_bin(size) && c != BIN_FULL
            ==> #[trigger] post.queue(c) == pre.queue(c)
        &&& post.single_pages() == pre.single_pages()
        &&& post.huges() == pre.huges()
    } else if size <= LARGE_OBJ_SIZE_MAX {
        &&& large_outcome(pre, post, size, r)
        &&& forall|c: int| #[trigger] post.queue(c) == pre.queue(c)
        &&& post.huges() == pre.huges()
    } else {
        &&& huge_outcome(pre, post, size, 8, 0, r)
        &&& forall|c: int| #[trigger] post.queue(c) == pre.queue(c)
        &&& post.single_pages() == pre.single_pages()
        &&& size + SEGMENT_SLICE_SIZE + 8 + 2 * SEGMENT_SIZE > usize::MAX ==> r is None
    }
}

/// What the general path did for `size` bytes: a guarded object when the
/// sampler picked it and one could be had, else the request served by its
/// size class.
pub open spec fn generic_outcome(pre: Heap, post: Heap, size: int, r: Option<(usize, bool)>) -> bool {
    ||| pre.grate() != 0 && pre.gmin() <= size <= pre.gmax() && pre.gcount() <= 1 && guarded_outcome(pre, post, size, r)
    ||| sized_outcome(pre, post, size, r)
}

/// No Normal segment could be had for heap arena `arena_id`: on the way,
/// the sources refused one and were left as `post`.
pub open spec fn no_segment(post: Sources, options: Options, arena_id: int) -> bool {
    exists|mid: Sources| #[trigger] crate::segment::segment_refused(mid.arenas, options, mid.region, post.arenas,
        post.region, arena_id)
}

/// No huge segment of `want` bytes could be had: on the way, both sources
/// refused one and were left as `post`.
pub open spec fn no_huge_segment(post: Sources, options: Options, want: int) -> bool {
    exists|mid: Sources| #[trigger] crate::segment::huge_refused(mid.arenas, options, mid.region, post.arenas,
        post.region, want)
}

/// Why a request of `size` bytes got no memory, the sources left as `post`:
/// up to `LARGE_OBJ_SIZE_MAX` bytes, no Normal segment could be had; above,
/// the size leaves the address space or no huge segment could be had.
pub open spec fn sized_refused(post: Sources, options: Options, arena_id: int, size: int) -> bool {
    if size <= LARGE_OBJ_SIZE_MAX {
        no_segment(post, options, arena_id)
    } else {
        ||| size > usize::MAX - (SEGMENT_SLICE_SIZE + 8 + 2 * SEGMENT_SIZE)
        ||| no_huge_segment(post, options, crate::segment::huge_want(size, 8, 0))
    }
}

/// What `malloc` of `size` bytes did: the general path's outcome, or, when
/// other threads' frees were pending, the size class's outcome from the
/// heap those frees left.
pub open spec fn malloc_result(pre: Heap, post: Heap, size: int, r: Option<(usize, bool)>) -> bool {
    ||| generic_outcome(pre, post, size, r)
    ||| (pre.delayed_list().len() > 0 && exists|mid: Heap| mid.wf() && #[trigger] sized_outcome(mid, post, size, r))
}

/// Bytes that hold `size` bytes (at least 1) at any alignment `align`.
pub open spec fn aligned_oversize(size: int, align: int) -> int {
    (if size > 1 { size } else { 1 }) + align - 1
}

/// How an aligned request of `size` bytes came to nothing, from heap `pre`
/// and sources `spre` to `post` and `spost`, `s1` being `size` or 1 if less:
/// an allocation of `size` bytes, of `s1` rounded up to the alignment, or
/// of `s1 + align - 1` bytes (this one from the heap as it was but for its
/// counters) found no memory; or the last gave a block too near the top of
/// the address space to move up to the alignment; or neither source had a
/// huge segment for the request; or the size is too large for one.
pub open spec fn aligned_refused(pre: Heap, post: Heap, spre: Sources, spost: Sources, options: Options, size: int,
    align: int, offset: int) -> bool
{
    let s1 = if size > 1 { size } else { 1 };
    ||| malloc_result(pre, post, size, None) && sized_refused(spost, options, post.arena() as int, size)
    ||| malloc_result(pre, post, crate::prim::spec_align_up(s1, align), None)
        && sized_refused(spost, options, post.arena() as int, crate::prim::spec_align_up(s1, align))
    ||| (exists|mid: Heap| mid.same_but_stats(pre) && #[trigger] malloc_result(mid, post, aligned_oversize(size, align), None))
        && sized_refused(spost, options, post.arena() as int, aligned_oversize(size, align))
    ||| exists|mid: Heap, b: usize, z: bool| mid.same_but_stats(pre)
        && #[trigger] malloc_result(mid, post, aligned_oversize(size, align), Some((b, z))) && b + align > usize::MAX
    ||| same_contents(pre, post) && crate::segment::huge_refused(spre.arenas, options, spre.region, spost.arenas,
        spost.region, crate::segment::huge_want(size, align, offset))
    ||| same_contents(pre, post) && size > usize::MAX - (SEGMENT_SLICE_SIZE + align + 2 * SEGMENT_SIZE)
}

/// The stream state a non-zero sampling `seed` sets: its low 32 bits, a
/// few mixes of them, and the seed as the stream number.
pub open spec fn guard_seed_state(seed: usize) -> Seq<u32> {
    let s = (seed & 0xffff_ffff) as u32;
    let r = (s << 7u32) | (s >> 25u32);
    seq![0x6170_7865u32, 0x3320_646eu32, 0x7962_2d32u32, 0x6b20_6574u32]
        + seq![s, s ^ 0x9E37u32, r, s ^ 0xA5A5u32, s, s, s, s]
        + seq![0u32, 0u32, ((seed as u64) % 0x1_0000_0000) as u32, ((seed as u64) / 0x1_0000_0000) as u32]
}

/// The stream the sample rate's countdown is drawn from: the heap's own
/// when `seed` is 0, else the one `seed` sets, nothing of it drawn yet.
pub open spec fn sampling_stream(h: Heap, seed: usize, r0: Random) -> bool {
    if seed == 0 {
        r0 == h.rng_of()
    } else {
        r0.state@ == guard_seed_state(seed) && r0.used == 16
    }
}

impl Heap {
    /// The same heap apart from its counters.
    pub closed spec fn same_but_stats(&self, other: Heap) -> bool {
        &&& self.queues == other.queues
        &&& self.singles == other.singles
        &&& self.segments == other.segments
        &&& self.huge == other.huge
        &&& self.empty_segments == other.empty_segments
        &&& self.arena_id == other.arena_id
        &&& self.tag == other.tag
        &&& self.thread_id == other.thread_id
        &&& self.rng == other.rng
        &&& self.delayed == other.delayed
        &&& self.guarded_rate == other.guarded_rate
        &&& self.guarded_count == other.guarded_count
        &&& self.guarded_min == other.guarded_min
        &&& self.guarded_max == other.guarded_max
    }

    /// A dedicated huge block of `size` bytes with `(block + offset) %
    /// align == 0`, in a segment of its own; its address and whether it is
    /// known zero. `None` when no memory can be had.
    fn huge_alloc(&mut self, src: &mut Sources, options: &Options, size: usize, align: usize, offset: usize)
        -> (r: Option<(usize, bool)>)
        requires
            old(self).wf(),
            old(src).ready(*options),
            is_power_of_two(align as int),
            1 <= align <= SEGMENT_SIZE / 2,
            SEGMENT_SLICE_SIZE + size + align + 2 * SEGMENT_SIZE <= usize::MAX,
        ensures
            final(self).wf(),
            old(src).kept(*final(src), *options),
            huge_outcome(*old(self), *final(self), size as int, align as int, offset as int, r),
            r is None ==> crate::segment::huge_refused(old(src).arenas, *options, old(src).region, final(src).arenas,
                final(src).region, crate::segment::huge_want(size as int, align as int, offset as int)),
            final(self).arena() == old(self).arena(),
            final(self).queues == old(self).queues,
            final(self).singles@ == old(self).singles@,
            final(self).segments@ == old(self).segments@,
            final(self).thread_id == old(self).thread_id,
            final(self).guarded_rate == old(self).guarded_rate,
            final(self).guarded_count == old(self).guarded_count,
            final(self).guarded_min == old(self).guarded_min,
            final(self).guarded_max == old(self).guarded_max,
            final(self).delayed@ == old(self).delayed@,
    {
        let ghost pre = *self;
        match crate::segment::huge_alloc(&mut src.arenas, &mut src.region, options, &mut src.map, size, align,
            offset, self.thread_id) {
            Err(_) => None,
            Ok((seg, block)) => {
                let zero = seg.mem_is_zero();
                let ghost hb = HugeBlock { seg, block, size };
                self.huge.insert(0, HugeBlock { seg, block, size });
                self.stats.allocs = inc(self.stats.allocs);
                self.stats.huge_allocs = inc(self.stats.huge_allocs);
                proof {
                    assert(self.huges() =~= seq![hb] + pre.huges());
                    assert forall|j: int| 0 <= j < self.huges().len() implies {
                        &&& (#[trigger] self.huges()[j]).seg.wf()
                        &&& self.huges()[j].seg.seg_kind() == SegmentKind::Huge
                    } by {
                        if j > 0 {
                            assert(self.huges()[j] == pre.huges()[j - 1]);
                        }
                    }
                    assert forall|j: int| 0 <= j < self.single_pages().len() implies {
                        &&& (#[trigger] self.single_pages()[j]).wf()
                        &&& self.single_pages()[j].rsv() == 1
                        &&& self.single_pages()[j].bin_of() == BIN_HUGE
                    } by {
                        assert(self.single_pages()[j] == pre.single_pages()[j]);
                    }
                    Self::lemma_wf_singles_huges(pre, *self);
                }
                Some((block, zero))
            },
        }
    }

    /// A guarded object of `size` bytes: a page-aligned huge block of its
    /// size in whole pages and one page more, whose last page is to be
    /// made inaccessible so an overflow faults. The backend has no MMU, so
    /// the block's start is handed out as plain memory. `None` when no
    /// memory can be had.
    fn guarded_alloc(&mut self, src: &mut Sources, options: &Options, size: usize) -> (r: Option<(usize, bool)>)
        requires
            old(self).wf(),
            old(src).ready(*options),
        ensures
            final(self).wf(),
            old(src).kept(*final(src), *options),
            r is Some ==> guarded_outcome(*old(self), *final(self), size as int, r),
            r is None ==> huge_outcome(*old(self), *final(self), 0, 1, 0, r),
            (if size > 1 { size as int } else { 1 }) > usize::MAX - (SEGMENT_SLICE_SIZE + 3 * FIXED_PAGE + 2 * SEGMENT_SIZE)
                ==> r is None,
            r is None && (if size > 1 { size as int } else { 1 })
                <= usize::MAX - (SEGMENT_SLICE_SIZE + 3 * FIXED_PAGE + 2 * SEGMENT_SIZE)
                ==> crate::segment::huge_refused(old(src).arenas, *options, old(src).region, final(src).arenas,
                final(src).region, crate::segment::huge_want(crate::os::spec_page_align_up(size as int) + FIXED_PAGE,
                FIXED_PAGE as int, 0)),
            final(self).queues == old(self).queues,
            final(self).singles@ == old(self).singles@,
            final(self).segments@ == old(self).segments@,
            final(self).thread_id == old(self).thread_id,
            final(self).guarded_rate == old(self).guarded_rate,
            final(self).guarded_count == old(self).guarded_count,
            final(self).guarded_min == old(self).guarded_min,
            final(self).guarded_max == old(self).guarded_max,
            final(self).delayed@ == old(self).delayed@,
    {
        let ps = crate::os::page_size();
        let s1 = if size > 1 { size } else { 1 };
        if s1 > usize::MAX - (SEGMENT_SLICE_SIZE + 3 * FIXED_PAGE + 2 * SEGMENT_SIZE) {
            return None;
        }
        let payload = crate::os::page_align_up(s1);
        proof {
            vstd::arithmetic::power2::lemma2_to64();
            assert(is_power_of_two(FIXED_PAGE as int)) by {
                assert(vstd::arithmetic::power2::pow2(12) == FIXED_PAGE);
            }
            assert(crate::os::spec_page_align_up(size as int) == crate::os::spec_page_align_up(s1 as int));
        }
        let ghost pre = *self;
        match self.huge_alloc(src, options, payload + ps, ps, 0) {
            None => None,
            Some((block, _z)) => {
                proof {
                    let h = self.huges()[0];
                    assert(h.seg.wf());
                    h.seg.lemma_wf_geometry();
                }
                if crate::os::protect(block + payload, ps, true).is_err() {
                    proof {
                        assert(guarded_outcome(pre, *self, size as int, Some((block, true))));
                    }
                    return Some((block, true));
                }
                self.stats.guarded = inc(self.stats.guarded);
                Some((block + payload - s1, true))
            },
        }
    }
}


impl Heap {
    /// The general path for `size` bytes: a guarded object when the sampler
    /// picks this one; else a huge block for more than `LARGE_OBJ_SIZE_MAX`
    /// bytes, a large page for more than a medium block, and the size's bin
    /// otherwise. The block's address and whether it is known zero; `None`
    /// when no memory can be had.
    #[verifier::spinoff_prover]
    #[verifier::rlimit(40)]
    pub fn malloc_generic(&mut self, src: &mut Sources, options: &Options, size: usize) -> (r: Option<(usize, bool)>)
        requires
            old(self).wf(),
            old(src).ready(*options),
        ensures
            final(self).wf(),
            old(src).kept(*final(src), *options),
            malloc_result(*old(self), *final(self), size as int, r),
            r is None ==> sized_refused(*final(src), *options, final(self).arena() as int, size as int),
            r matches Some((p, _)) ==> (p as int) % 8 == 0,
            r matches Some((p, _)) ==> holds_bytes(*final(self), p as int, size as int),
    {
        let ghost pre = *self;
        self.stats.generic = inc(self.stats.generic);
        proof {
            Self::lemma_wf_frame(pre, *self);
        }
        let ghost s0 = *self;
        let sample = if self.guarded_rate != 0 { self.guarded_should_sample(size) } else { false };
        proof {
            assert forall|b: int| #[trigger] self.queue(b) == pre.queue(b) by {
                assert(self.queue(b) == s0.queue(b));
            }
            assert(sample == (pre.grate() != 0 && pre.gmin() <= size <= pre.gmax() && pre.gcount() <= 1));
        }
        if sample {
            let ghost s1 = *self;
            match self.guarded_alloc(src, options, size) {
                Some(x) => {
                    proof {
                        assert forall|b: int| #[trigger] s1.queue(b) == pre.queue(b) by {}
                        assert forall|b: int| #[trigger] self.queue(b) == pre.queue(b) by {
                            assert(self.queue(b) == s1.queue(b));
                        }
                        assert(guarded_outcome(pre, *self, size as int, Some(x)));
                        lemma_word_aligned(pre, *self, size as int, x.0, x.1);
                        lemma_malloc_holds(pre, *self, size as int, x.0, x.1);
                    }
                    return Some(x);
                },
                None => {
                    proof {
                        assert forall|b: int| #[trigger] self.queue(b) == pre.queue(b) by {
                            assert(self.queue(b) == s1.queue(b));
                        }
                    }
                },
            }
        }
        if self.delayed.len() > 0 {
            let ghost d0 = *self;
            self.process_delayed(src, options);
            let ghost d1 = *self;
            let r = self.malloc_sized(src, options, size);
            proof {
                assert(d1.wf());
                assert(sized_outcome(d1, *self, size as int, r));
                assert(pre.delayed_list().len() > 0);
                if let Some((p, z)) = r {
                    lemma_word_aligned(pre, *self, size as int, p, z);
                    lemma_malloc_holds(pre, *self, size as int, p, z);
                }
            }
            return r;
        }
        let ghost mid = *self;
        let r = self.malloc_sized(src, options, size);
        proof {
            assert forall|b: int| #[trigger] mid.queue(b) == pre.queue(b) by {}
            assert(mid.single_pages() == pre.single_pages());
            assert(mid.huges() == pre.huges());
            assert(mid.owner() == pre.owner());
            Self::lemma_sized_same(mid, pre, *self, size as int, r);
            if let Some((p, z)) = r {
                lemma_word_aligned(pre, *self, size as int, p, z);
                lemma_malloc_holds(pre, *self, size as int, p, z);
            }
        }
        r
    }

    /// A request of `size` bytes served by its size class: a huge block for
    /// more than `LARGE_OBJ_SIZE_MAX` bytes (`None` past the address
    /// space), a large page for more than a medium block, the size's bin
    /// otherwise.
    #[verifier::spinoff_prover]
    #[verifier::rlimit(40)]
    fn malloc_sized(&mut self, src: &mut Sources, options: &Options, size: usize) -> (r: Option<(usize, bool)>)
        requires
            old(self).wf(),
            old(src).ready(*options),
        ensures
            final(self).wf(),
            old(src).kept(*final(src), *options),
            sized_outcome(*old(self), *final(self), size as int, r),
            r is None ==> sized_refused(*final(src), *options, old(self).arena() as int, size as int),
            final(self).arena() == old(self).arena(),
    {
        let ghost pre = *self;
        let ghost s0 = *src;
        if size > MEDIUM_OBJ_SIZE_MAX {
            if size <= LARGE_OBJ_SIZE_MAX {
                let r = self.large_alloc(src, options, size);
                proof {
                    if r is None {
                        assert(crate::segment::segment_refused(s0.arenas, *options, s0.region, src.arenas,
                            src.region, pre.arena() as int));
                    }
                    assert forall|b: int| #[trigger] self.queue(b) == pre.queue(b) by {}
                    assert(large_outcome(pre, *self, size as int, r));
                }
                return r;
            }
            if size > usize::MAX - (SEGMENT_SLICE_SIZE + 8 + 2 * SEGMENT_SIZE) {
                return None;
            }
            proof {
                vstd::arithmetic::power2::lemma2_to64();
                assert(is_power_of_two(8)) by {
                    assert(vstd::arithmetic::power2::pow2(3) == 8);
                }
            }
            let r = self.huge_alloc(src, options, size, 8, 0);
            proof {
                assert forall|b: int| #[trigger] self.queue(b) == pre.queue(b) by {}
                assert(huge_outcome(pre, *self, size as int, 8, 0, r));
                if r is None {
                    assert(crate::segment::huge_refused(s0.arenas, *options, s0.region, src.arenas,
                        src.region, crate::segment::huge_want(size as int, 8, 0)));
                }
            }
            return r;
        }
        let r = self.malloc_binned(src, options, size);
        proof {
            assert(binned_outcome(pre, *self, size as int, r));
        }
        r
    }

    /// Allocate `size` bytes: a small request pops the first free block of
    /// the front page of its bin when it has one; everything else takes the
    /// general path. The block's address and whether it is known zero;
    /// `None` when no memory can be had.
    #[verifier::spinoff_prover]
    #[verifier::rlimit(40)]
    pub fn malloc(&mut self, src: &mut Sources, options: &Options, size: usize) -> (r: Option<(usize, bool)>)
        requires
            old(self).wf(),
            old(src).ready(*options),
        ensures
            final(self).wf(),
            old(src).kept(*final(src), *options),
            malloc_result(*old(self), *final(self), size as int, r),
            r is None ==> sized_refused(*final(src), *options, final(self).arena() as int, size as int),
            r matches Some((p, _)) ==> (p as int) % 8 == 0,
            r matches Some((p, _)) ==> holds_bytes(*final(self), p as int, size as int),
    {
        if size <= SMALL_SIZE_MAX {
            proof {
                lemma_bin_size_inverts_bin(size as int);
            }
            let bin = crate::bins::bin(size);
            if self.queues.len(bin) > 0 && self.queues.get(bin, 0).free_count() > 0 {
                let ghost pre = *self;
                let ghost q = pre.queue(bin as int);
                let ghost f = pre.queue(BIN_FULL as int);
                let mut pg = self.queues.take(bin, 0);
                let ghost pe = pg;
                proof {
                    assert(pe == q[0]);
                    assert(binned_ok(pe, bin as int));
                }
                let got = pg.pop();
                let zero = pg.free_is_zero();
                let ghost p1 = pg;
                self.queues.put(bin, 0, pg);
                let ghost after_put = *self;
                self.stats.allocs = inc(self.stats.allocs);
                let addr = got.unwrap();
                proof {
                    assert(binned_ok(p1, bin as int));
                    assert(self.queue(bin as int) =~= seq![p1] + q.subrange(1, q.len() as int));
                    assert forall|k: int| 0 <= k < self.queue(bin as int).len() implies
                        #[trigger] binned_ok(self.queue(bin as int)[k], bin as int) by {
                        if k > 0 {
                            assert(self.queue(bin as int)[k] == q[k]);
                        }
                    }
                    assert forall|k: int| 0 <= k < self.queue(BIN_FULL as int).len() implies
                        #[trigger] binned_ok(self.queue(BIN_FULL as int)[k], self.queue(BIN_FULL as int)[k].bin_of()) by {
                        assert(self.queue(BIN_FULL as int)[k] == f[k]);
                    }
                    Self::lemma_wf_queues_change(pre, *self, bin as int, BIN_FULL as int);
                    assert(f.subrange(0, f.len() as int) =~= f);
                    assert(parked_prefix(q, 0, f, self.queue(BIN_FULL as int)));
                    let ii = pe.free_list().last() as int;
                    assert(took_block(q[0], p1, ii));
                    assert(pe.listed()[pe.free_list().len() - 1] == pe.free_list().last());
                    assert(ii < pe.cap());
                    assert(0 <= ii * pe.bsize() <= pe.rsv() * pe.bsize()) by (nonlinear_arith)
                        requires 0 <= ii < pe.cap(), pe.cap() <= pe.rsv(), pe.bsize() >= 1;
                    assert(addr == pe.block_addr(ii) as usize);
                    assert(0 <= pe.block_addr(ii) <= usize::MAX);
                    assert(addr == p1.block_addr(ii));
                    assert(self.queue(bin as int)[0] == p1);
                    assert(self.queue(bin as int).drop_first() =~= q.subrange(1, q.len() as int));
                    assert(binned_outcome(pre, *self, size as int, Some((addr, zero))));
                    assert forall|c: int| 0 <= c < BIN_COUNT && c != spec_bin(size as int) && c != BIN_FULL
                        implies #[trigger] self.queue(c) == pre.queue(c) by {
                        assert(self.queue(c) == after_put.queue(c));
                    }
                    assert(malloc_result(pre, *self, size as int, Some((addr, zero))));
                    lemma_word_aligned(pre, *self, size as int, addr, zero);
                    lemma_malloc_holds(pre, *self, size as int, addr, zero);
                }
                return Some((addr, zero));
            }
        }
        self.malloc_generic(src, options, size)
    }
}


/// What another thread's free of `addr` did: the block of a queued page
/// that takes such frees itself went on its cross-thread list; a block of
/// a page that routes them to its owner, or of a huge block, went on the
/// heap's delayed list; otherwise nothing changed.
pub open spec fn remote_outcome(pre: Heap, post: Heap, addr: int, r: FreeOutcome) -> bool {
    let base = spec_segment_of(addr);
    match r {
        FreeOutcome::Released => {
            ||| same_contents(pre, post) && post.delayed_list() == pre.delayed_list().push(addr as usize)
            ||| exists|b: int, k: int, i: int| {
                &&& 0 <= b < BIN_COUNT
                &&& 0 <= k < pre.queue(b).len()
                &&& pre.queue(b)[k].segment_base() == base
                &&& in_block(pre.queue(b)[k], addr, i)
                &&& pre.queue(b)[k].xflag_of() != XFlag::Delayed
                &&& #[trigger] remote_pushed(pre, post, b, k, i)
            }
        },
        _ => same_contents(pre, post) && post.delayed_list() == pre.delayed_list(),
    }
}

/// Block `i` of the page at position `k` of queue `b` went on the page's
/// cross-thread list, all else the same.
pub open spec fn remote_pushed(pre: Heap, post: Heap, b: int, k: int, i: int) -> bool {
    let p = pre.queue(b)[k];
    let q = post.queue(b)[k];
    &&& post.queue(b) == pre.queue(b).update(k, q)
    &&& forall|c: int| 0 <= c < BIN_COUNT && c != b ==> #[trigger] post.queue(c) == pre.queue(c)
    &&& q.same_geometry(p)
    &&& q.xthread_list() == p.xthread_list().push(i as u32)
    &&& q.free_list() == p.free_list()
    &&& q.local_list() == p.local_list()
    &&& !q.is_allocated(i)
    &&& forall|j: int| j != i ==> #[trigger] q.is_allocated(j) == p.is_allocated(j)
    &&& post.single_pages() == pre.single_pages()
    &&& post.segs() == pre.segs()
    &&& post.huges() == pre.huges()
    &&& post.delayed_list() == pre.delayed_list()
}

impl Heap {
    /// A thread other than the owner frees the block holding `addr`: a
    /// queued page that takes such frees itself puts the block on its
    /// cross-thread list, for the owner's next collect; a page that routes
    /// them to its owner (a full or large one), and a huge block, put the
    /// address on the heap's delayed list, which the owner's general path
    /// drains. `AlreadyFree` and `NotOurs` as for the owner's free.
    pub fn free_remote(&mut self, addr: usize) -> (r: FreeOutcome)
        requires
            old(self).wf(),
        ensures
            final(self).wf(),
            remote_outcome(*old(self), *final(self), addr as int, r),
            (exists|k: int| 0 <= k < old(self).huges().len()
                && #[trigger] old(self).huges()[k].seg.base_addr() == spec_segment_of(addr as int)) ==> {
                &&& r == FreeOutcome::Released
                &&& same_contents(*old(self), *final(self))
                &&& final(self).delayed_list() == old(self).delayed_list().push(addr)
            },
            forall|b: int, k: int, i: int| #[trigger] free_candidate(*old(self), addr as int, b, k, i) ==> {
                &&& r == FreeOutcome::Released
                &&& old(self).queue(b)[k].xflag_of() != XFlag::Delayed ==> remote_pushed(*old(self), *final(self), b, k, i)
                &&& old(self).queue(b)[k].xflag_of() == XFlag::Delayed ==> {
                    &&& same_contents(*old(self), *final(self))
                    &&& final(self).delayed_list() == old(self).delayed_list().push(addr)
                }
            },
    {
        let ghost pre = *self;
        let base = crate::segment::segment_of(addr);
        if let Some(hk) = self.find_huge(base) {
            self.delayed.push(addr);
            proof {
                assert forall|b: int, kk: int, i: int| !#[trigger] free_candidate(pre, addr as int, b, kk, i) by {
                    if free_candidate(pre, addr as int, b, kk, i) {
                        assert(pre.huges()[hk as int].seg.base_addr() != pre.queue(b)[kk].segment_base());
                    }
                }
                Self::lemma_wf_frame(pre, *self);
                assert forall|b: int| #[trigger] self.queue(b) == pre.queue(b) by {}
            }
            return FreeOutcome::Released;
        }
        let ks = match self.find_segment(base) {
            Some(ks) => ks,
            None => {
                proof {
                    assert forall|b: int, kk: int, i: int| !#[trigger] free_candidate(pre, addr as int, b, kk, i) by {
                        if free_candidate(pre, addr as int, b, kk, i) {
                            let p = pre.queue(b)[kk];
                            let w = choose|w: int| 0 <= w < pre.segs().len() && #[trigger] backed_by(p, pre.segs()[w]);
                            assert(pre.segs()[w].base_addr() != base);
                        }
                    }
                }
                return FreeOutcome::NotOurs;
            },
        };
        proof {
            assert(pre.segs()[ks as int].wf());
            pre.segs()[ks as int].lemma_wf_geometry();
        }
        let nfree = self.segments[ks].carved_slices();
        proof {
            assert(nfree * SEGMENT_SLICE_SIZE <= SEGMENT_SIZE) by (nonlinear_arith)
                requires nfree <= SLICES_PER_SEGMENT, SEGMENT_SIZE == SLICES_PER_SEGMENT * SEGMENT_SLICE_SIZE;
        }
        if addr < base + HEADER_SLICES * SEGMENT_SLICE_SIZE || addr >= base + nfree * SEGMENT_SLICE_SIZE {
            proof {
                assert forall|b: int, kk: int, i: int| !#[trigger] free_candidate(pre, addr as int, b, kk, i) by {
                    if free_candidate(pre, addr as int, b, kk, i) {
                        lemma_sole_located(pre, b, kk, i, addr as int);
                        assert(pre.segs()[ks as int].base_addr() == pre.queue(b)[kk].segment_base());
                    }
                }
            }
            return FreeOutcome::NotOurs;
        }
        let slot = self.segments[ks].page_of(addr);
        proof {
            assert forall|b: int, kk: int, i: int| #[trigger] free_candidate(pre, addr as int, b, kk, i)
                implies pre.queue(b)[kk].slot_index() == slot by {
                lemma_sole_located(pre, b, kk, i, addr as int);
                assert(pre.segs()[ks as int].base_addr() == pre.queue(b)[kk].segment_base());
            }
        }
        if let Some(k) = self.find_single(base, slot) {
            proof {
                assert(pre.single_pages()[k as int].wf());
                assert forall|b: int, kk: int, i: int| !#[trigger] free_candidate(pre, addr as int, b, kk, i) by {
                    if free_candidate(pre, addr as int, b, kk, i) {
                        assert(pre.queue(b)[kk].slot_index() == slot);
                        assert(!(pre.single_pages()[k as int].segment_base() == pre.queue(b)[kk].segment_base()
                            && pre.single_pages()[k as int].slot_index() == pre.queue(b)[kk].slot_index()));
                    }
                }
            }
            match block_of(&self.singles[k], addr) {
                None => {
                    return FreeOutcome::NotOurs;
                },
                Some(_) => {
                    if !self.singles[k].block_is_allocated(0) {
                        return FreeOutcome::AlreadyFree;
                    }
                    self.delayed.push(addr);
                    proof {
                        Self::lemma_wf_frame(pre, *self);
                        assert forall|b: int| #[trigger] self.queue(b) == pre.queue(b) by {}
                    }
                    return FreeOutcome::Released;
                },
            }
        }
        match self.find_queued(base, slot) {
            None => {
                proof {
                    assert forall|b: int, kk: int, i: int| !#[trigger] free_candidate(pre, addr as int, b, kk, i) by {
                        if free_candidate(pre, addr as int, b, kk, i) {
                            assert(pre.queue(b)[kk].slot_index() == slot);
                            assert(pre.queue(b)[kk].segment_base() == base);
                        }
                    }
                }
                FreeOutcome::NotOurs
            },
            Some((b, k)) => {
                proof {
                    if b == 0 || b == BIN_HUGE {
                        assert(pre.queue(b as int).len() == 0);
                    }
                    if b == BIN_FULL {
                        assert(binned_ok(pre.queue(b as int)[k as int], pre.queue(b as int)[k as int].bin_of()));
                    } else {
                        assert(binned_ok(pre.queue(b as int)[k as int], b as int));
                    }
                    assert forall|bb: int, kk: int, i: int| #[trigger] free_candidate(pre, addr as int, bb, kk, i)
                        implies bb == b && kk == k by {
                        assert(pre.queue(bb)[kk].slot_index() == slot);
                        if bb != b || kk != k {
                            assert(!(pre.queue(b as int)[k as int].segment_base() == pre.queue(bb)[kk].segment_base()
                                && pre.queue(b as int)[k as int].slot_index() == pre.queue(bb)[kk].slot_index()));
                        }
                    }
                }
                match block_of(self.queues.get(b, k), addr) {
                    None => {
                        proof {
                            assert forall|bb: int, kk: int, i: int| !#[trigger] free_candidate(pre, addr as int, bb, kk, i) by {
                                if free_candidate(pre, addr as int, bb, kk, i) {
                                    assert(bb == b && kk == k);
                                    assert(in_block(pre.queue(b as int)[k as int], addr as int, i));
                                }
                            }
                        }
                        FreeOutcome::NotOurs
                    },
                    Some(i) => {
                        proof {
                            assert forall|bb: int, kk: int, ii: int| #[trigger] free_candidate(pre, addr as int, bb, kk, ii)
                                implies bb == b && kk == k && ii == i by {
                                assert(bb == b && kk == k);
                                lemma_in_one_block(pre.queue(b as int)[k as int], addr as int, i as int, ii);
                            }
                        }
                        if !self.queues.get(b, k).block_is_allocated(i) {
                            return FreeOutcome::AlreadyFree;
                        }
                        let mut pg = self.queues.take(b, k);
                        let ghost p0 = pg;
                        let on_page = pg.remote_free(i);
                        let ghost q = pg;
                        self.queues.put(b, k, pg);
                        let ghost after_put = *self;
                        proof {
                            assert(self.queue(b as int) =~= pre.queue(b as int).update(k as int, q));
                            assert forall|j: int| 0 <= j < self.queue(b as int).len() implies
                                #[trigger] binned_ok(self.queue(b as int)[j], self.queue(b as int)[j].bin_of()) by {
                                if j != k {
                                    assert(self.queue(b as int)[j] == pre.queue(b as int)[j]);
                                    if b != BIN_FULL {
                                        assert(binned_ok(pre.queue(b as int)[j], b as int));
                                    }
                                }
                            }
                            if b != BIN_FULL {
                                assert forall|j: int| 0 <= j < self.queue(b as int).len() implies
                                    #[trigger] binned_ok(self.queue(b as int)[j], b as int) by {
                                    if j != k {
                                        assert(self.queue(b as int)[j] == pre.queue(b as int)[j]);
                                    }
                                }
                                assert forall|j: int| 0 <= j < self.queue(BIN_FULL as int).len() implies
                                    #[trigger] binned_ok(self.queue(BIN_FULL as int)[j], self.queue(BIN_FULL as int)[j].bin_of()) by {
                                    assert(self.queue(BIN_FULL as int)[j] == pre.queue(BIN_FULL as int)[j]);
                                }
                                Self::lemma_wf_queues_change(pre, *self, b as int, BIN_FULL as int);
                            } else {
                                let bb = 1int;
                                assert forall|j: int| 0 <= j < self.queue(bb).len() implies
                                    #[trigger] binned_ok(self.queue(bb)[j], bb) by {
                                    assert(self.queue(bb)[j] == pre.queue(bb)[j]);
                                }
                                Self::lemma_wf_queues_change(pre, *self, bb, BIN_FULL as int);
                            }
                            assert forall|c: int| 0 <= c < BIN_COUNT && c != b implies #[trigger] self.queue(c) == pre.queue(c) by {}
                        }
                        if !on_page {
                            self.delayed.push(addr);
                            proof {
                                assert(q == p0);
                                assert(self.queue(b as int) =~= pre.queue(b as int));
                                Self::lemma_wf_frame(after_put, *self);
                            }
                            return FreeOutcome::Released;
                        }
                        proof {
                            assert(remote_pushed(pre, *self, b as int, k as int, i as int));
                            assert(in_block(pre.queue(b as int)[k as int], addr as int, i as int));
                        }
                        FreeOutcome::Released
                    },
                }
            },
        }
    }

    /// Drain the delayed list: the owner frees each block other threads
    /// handed it.
    pub fn process_delayed(&mut self, src: &mut Sources, options: &Options)
        requires
            old(self).wf(),
            old(src).ready(*options),
        ensures
            final(self).wf(),
            old(src).kept(*final(src), *options),
            final(self).delayed_list().len() == 0,
            old(self).delayed_list().len() == 0 ==> final(self).huges() == old(self).huges(),
    {
        let ghost s0 = *src;
        while self.delayed.len() > 0
            invariant
                self.wf(),
                src.ready(*options),
                s0.kept(*src, *options),
                s0.ready(*options),
                old(self).delayed_list().len() == 0 ==> self.huges() == old(self).huges() && self.delayed@.len() == 0,
            decreases self.delayed@.len(),
        {
            let ghost before = *self;
            let a = self.delayed.pop().unwrap();
            proof {
                Self::lemma_wf_frame(before, *self);
            }
            let ghost s1 = *src;
            let _ = self.free_local(src, options, a);
            let ghost after = *self;
            self.stats.delayed_frees = inc(self.stats.delayed_frees);
            proof {
                Self::lemma_wf_frame(after, *self);
                assert(self.delayed@.len() < before.delayed@.len());
            }
        }
    }
}


impl Heap {
    /// A size-class outcome reads only the queues, the unqueued pages, the
    /// huge blocks and the owner of the state it starts from.
    proof fn lemma_sized_same(a: Heap, b: Heap, post: Heap, size: int, r: Option<(usize, bool)>)
        requires
            sized_outcome(a, post, size, r),
            forall|c: int| #[trigger] a.queue(c) == b.queue(c),
            a.single_pages() == b.single_pages(),
            a.huges() == b.huges(),
            a.owner() == b.owner(),
        ensures
            sized_outcome(b, post, size, r),
    {
        if size <= MEDIUM_OBJ_SIZE_MAX {
            assert(a.queue(spec_bin(size)) == b.queue(spec_bin(size)));
            assert(a.queue(BIN_FULL as int) == b.queue(BIN_FULL as int));
            assert(binned_outcome(b, post, size, r));
        }
    }
}


/// Page `p` has a block handed out.
pub open spec fn in_use(p: Page) -> bool {
    exists|i: int| #[trigger] p.is_allocated(i)
}

/// Queue `post` is queue `pre` collected: each page left is a page of
/// `pre`, with the same blocks handed out and no cross-thread frees
/// pending; every page of `pre` with a block handed out is left; a
/// non-empty queue stays non-empty.
pub open spec fn collected_queue(pre: Seq<Page>, post: Seq<Page>) -> bool {
    &&& forall|m: int| 0 <= m < post.len() ==> {
        &&& (#[trigger] post[m]).xthread_list().len() == 0
        &&& exists|j: int| 0 <= j < pre.len() && #[trigger] same_blocks(pre[j], post[m])
    }
    &&& forall|j: int| 0 <= j < pre.len() && #[trigger] in_use(pre[j])
        ==> exists|m: int| 0 <= m < post.len() && #[trigger] same_blocks(pre[j], post[m])
    &&& pre.len() > 0 ==> post.len() > 0
}

/// Collecting queue `pq`, now `cur`: its first `k` pages are collected
/// pages of the first `jj` of `pq`, which kept every one in use; the rest
/// are the rest of `pq` as they were.
#[verifier::opaque]
pub open spec fn collect_inv(pq: Seq<Page>, cur: Seq<Page>, k: int, jj: int) -> bool {
    &&& 0 <= jj <= pq.len()
    &&& 0 <= k <= cur.len()
    &&& cur.len() - k == pq.len() - jj
    &&& forall|m: int| k <= m < cur.len() ==> #[trigger] cur[m] == pq[jj + m - k]
    &&& forall|m: int| 0 <= m < k ==> {
        &&& (#[trigger] cur[m]).xthread_list().len() == 0
        &&& exists|j: int| 0 <= j < jj && #[trigger] same_blocks(pq[j], cur[m])
    }
    &&& forall|j: int| 0 <= j < jj && #[trigger] in_use(pq[j])
        ==> exists|m: int| 0 <= m < k && #[trigger] same_blocks(pq[j], cur[m])
    &&& pq.len() > 0 ==> cur.len() > 0
}

impl Heap {
    /// Collect every page of queue `b` (a bin's queue), retiring the
    /// emptied ones unless one is the queue's only page.
    #[verifier::spinoff_prover]
    #[verifier::rlimit(100)]
    fn collect_queue(&mut self, src: &mut Sources, options: &Options, b: usize)
        requires
            old(self).wf(),
            old(src).ready(*options),
            1 <= b < BIN_HUGE,
        ensures
            final(self).wf(),
            old(src).kept(*final(src), *options),
            final(self).delayed@ == old(self).delayed@,
            final(self).singles@ == old(self).singles@,
            final(self).huge@ == old(self).huge@,
            forall|c: int| 0 <= c < BIN_COUNT && c != b ==> #[trigger] final(self).queue(c) == old(self).queue(c),
            collected_queue(old(self).queue(b as int), final(self).queue(b as int)),
    {
        let ghost pre = *self;
        let ghost pq = pre.queue(b as int);
        let ghost s0 = *src;
        let mut jj: Ghost<int> = Ghost(0int);
        let mut k: usize = 0;
        proof {
            reveal(collect_inv);
        }
        while k < self.queues.len(b)
            invariant
                self.wf(),
                1 <= b < BIN_HUGE,
                pq == pre.queue(b as int),
                src.ready(*options),
                s0.kept(*src, *options),
                s0.ready(*options),
                self.delayed@ == pre.delayed@,
                self.singles@ == pre.singles@,
                self.huge@ == pre.huge@,
                forall|c: int| 0 <= c < BIN_COUNT && c != b ==> #[trigger] self.queue(c) == pre.queue(c),
                collect_inv(pq, self.queue(b as int), k as int, jj@),
            decreases self.queue(b as int).len() - k,
        {
            let ghost before = *self;
            let ghost bq = before.queue(b as int);
            let ghost oj = jj@;
            proof {
                reveal(collect_inv);
            }
            let mut pg = self.queues.take(b, k);
            let ghost p0 = pg;
            proof {
                assert(p0 == pq[oj]);
                assert(binned_ok(p0, b as int));
            }
            pg.collect();
            let ghost p1 = pg;
            proof {
                assert(same_blocks(p0, p1));
                assert(binned_ok(p1, b as int));
            }
            if pg.all_free() && self.queues.len(b) >= 1 {
                let pos = pg.position();
                proof {
                    assert(self.queue(b as int) == bq.remove(k as int));
                    assert forall|j: int| 0 <= j < self.queue(b as int).len() implies
                        #[trigger] binned_ok(self.queue(b as int)[j], b as int) by {
                        if j < k {
                            assert(self.queue(b as int)[j] == bq[j]);
                        } else {
                            assert(self.queue(b as int)[j] == bq[j + 1]);
                        }
                    }
                    assert forall|j: int| 0 <= j < self.queue(BIN_FULL as int).len() implies
                        #[trigger] binned_ok(self.queue(BIN_FULL as int)[j], self.queue(BIN_FULL as int)[j].bin_of()) by {
                        assert(self.queue(BIN_FULL as int)[j] == before.queue(BIN_FULL as int)[j]);
                    }
                    Self::lemma_wf_queues_change(before, *self, b as int, BIN_FULL as int);
                    assert(!in_use(p0)) by {
                        if in_use(p0) {
                            let i = choose|i: int| #[trigger] p0.is_allocated(i);
                            assert(p1.is_allocated(i));
                            crate::page::lemma_used_covers(p1, i);
                        }
                    }
                }
                let ghost mid = *self;
                self.retire_page(src, options, pos.0, pos.1);
                proof {
                    assert forall|c: int| 0 <= c < BIN_COUNT && c != b implies #[trigger] self.queue(c) == pre.queue(c) by {
                        assert(self.queue(c) == mid.queue(c));
                        assert(mid.queue(c) == before.queue(c));
                    }
                    assert(self.queue(b as int) == bq.remove(k as int));
                    assert forall|m: int| k <= m < self.queue(b as int).len() implies
                        #[trigger] self.queue(b as int)[m] == pq[(oj + 1) + m - k] by {
                        assert(self.queue(b as int)[m] == bq[m + 1]);
                    }
                    assert forall|m: int| 0 <= m < k implies {
                        &&& (#[trigger] self.queue(b as int)[m]).xthread_list().len() == 0
                        &&& exists|j: int| 0 <= j < oj + 1 && #[trigger] same_blocks(pq[j], self.queue(b as int)[m])
                    } by {
                        assert(self.queue(b as int)[m] == bq[m]);
                        let j = choose|j: int| 0 <= j < oj && #[trigger] same_blocks(pq[j], bq[m]);
                        assert(same_blocks(pq[j], self.queue(b as int)[m]));
                    }
                    assert forall|j: int| 0 <= j < oj + 1 && #[trigger] in_use(pq[j])
                        implies exists|m: int| 0 <= m < k && #[trigger] same_blocks(pq[j], self.queue(b as int)[m]) by {
                        if j < oj {
                            let m = choose|m: int| 0 <= m < k && #[trigger] same_blocks(pq[j], bq[m]);
                            assert(self.queue(b as int)[m] == bq[m]);
                        }
                    }
                }
                jj = Ghost(oj + 1);
                proof {
                    reveal(collect_inv);
                    assert(collect_inv(pq, self.queue(b as int), k as int, jj@));
                }
                continue;
            } else {
                self.queues.put(b, k, pg);
                proof {
                    assert(self.queue(b as int) =~= bq.update(k as int, p1));
                    assert forall|j: int| 0 <= j < self.queue(b as int).len() implies
                        #[trigger] binned_ok(self.queue(b as int)[j], b as int) by {
                        if j != k {
                            assert(self.queue(b as int)[j] == bq[j]);
                        }
                    }
                    assert forall|j: int| 0 <= j < self.queue(BIN_FULL as int).len() implies
                        #[trigger] binned_ok(self.queue(BIN_FULL as int)[j], self.queue(BIN_FULL as int)[j].bin_of()) by {
                        assert(self.queue(BIN_FULL as int)[j] == before.queue(BIN_FULL as int)[j]);
                    }
                    Self::lemma_wf_queues_change(before, *self, b as int, BIN_FULL as int);
                    assert forall|c: int| 0 <= c < BIN_COUNT && c != b implies #[trigger] self.queue(c) == pre.queue(c) by {
                        assert(self.queue(c) == before.queue(c));
                    }
                    assert forall|m: int| k + 1 <= m < self.queue(b as int).len() implies
                        #[trigger] self.queue(b as int)[m] == pq[(oj + 1) + m - (k + 1)] by {
                        assert(self.queue(b as int)[m] == bq[m]);
                    }
                    assert forall|m: int| 0 <= m < k + 1 implies {
                        &&& (#[trigger] self.queue(b as int)[m]).xthread_list().len() == 0
                        &&& exists|j: int| 0 <= j < oj + 1 && #[trigger] same_blocks(pq[j], self.queue(b as int)[m])
                    } by {
                        if m < k {
                            assert(self.queue(b as int)[m] == bq[m]);
                            let j = choose|j: int| 0 <= j < oj && #[trigger] same_blocks(pq[j], bq[m]);
                            assert(same_blocks(pq[j], self.queue(b as int)[m]));
                        } else {
                            assert(self.queue(b as int)[m] == p1);
                            assert(same_blocks(pq[oj], p1));
                        }
                    }
                    assert forall|j: int| 0 <= j < oj + 1 && #[trigger] in_use(pq[j])
                        implies exists|m: int| 0 <= m < k + 1 && #[trigger] same_blocks(pq[j], self.queue(b as int)[m]) by {
                        if j < oj {
                            let m = choose|m: int| 0 <= m < k && #[trigger] same_blocks(pq[j], bq[m]);
                            assert(self.queue(b as int)[m] == bq[m]);
                        } else {
                            assert(same_blocks(pq[j], self.queue(b as int)[k as int]));
                        }
                    }
                }
                jj = Ghost(oj + 1);

                k = k + 1;
                proof {
                    reveal(collect_inv);
                    assert(collect_inv(pq, self.queue(b as int), k as int, jj@));
                }
            }
        }
        proof {
            reveal(collect_inv);
            assert(jj@ == pq.len());
        }
    }

    /// Collect the heap: with `force`, first adopt the segments finished
    /// threads left behind, latest first, at most `MAX_RECLAIM` of them;
    /// then sweep as `collect_for_teardown` does.
    pub fn collect(&mut self, src: &mut Sources, options: &Options, force: bool)
        requires
            old(self).wf(),
            old(src).ready(*options),
        ensures
            final(self).wf(),
            old(src).served(*final(src), *options),
            final(self).delayed_list().len() == 0,
            !force ==> final(src).abandoned@ == old(src).abandoned@,
            force ==> {
                &&& final(src).abandoned@.len() <= old(src).abandoned@.len()
                &&& final(src).abandoned@ == old(src).abandoned@.take(final(src).abandoned@.len() as int)
                &&& (final(src).abandoned@.len() == 0
                    || final(src).abandoned@.len() + MAX_RECLAIM == old(src).abandoned@.len())
            },
    {
        let ghost s0 = *src;
        if force {
            let mut t: usize = 0;
            while t < MAX_RECLAIM && src.abandoned.len() > 0
                invariant
                    self.wf(),
                    src.ready(*options),
                    s0.served(*src, *options),
                    s0.ready(*options),
                    t <= MAX_RECLAIM,
                    t <= s0.abandoned@.len(),
                    src.abandoned@ == s0.abandoned@.take(s0.abandoned@.len() - t),
                decreases MAX_RECLAIM - t,
            {
                let ghost a0 = src.abandoned@;
                let ab = src.abandoned.pop().unwrap();
                proof {
                    assert(src.abandoned@ =~= s0.abandoned@.take(s0.abandoned@.len() - t - 1));
                }
                let _ = self.adopt_segment(src, options, ab);
                t = t + 1;
            }
        }
        self.collect_for_teardown(src, options);
    }

    /// Collect the heap without adopting anything: drain the delayed list,
    /// then collect every bin's pages, retiring the emptied ones unless one
    /// is its bin's only page.
    pub fn collect_for_teardown(&mut self, src: &mut Sources, options: &Options)
        requires
            old(self).wf(),
            old(src).ready(*options),
        ensures
            final(self).wf(),
            old(src).kept(*final(src), *options),
            final(self).delayed_list().len() == 0,
            old(self).delayed_list().len() == 0 ==> final(self).huges() == old(self).huges(),
    {
        let ghost s0 = *src;
        self.process_delayed(src, options);
        let ghost h1 = self.huges();
        let mut b: usize = 1;
        while b <= MAX_NORMAL_BIN
            invariant
                self.wf(),
                1 <= b <= MAX_NORMAL_BIN + 1,
                src.ready(*options),
                s0.kept(*src, *options),
                s0.ready(*options),
                self.delayed_list().len() == 0,
                self.huges() == h1,
            decreases MAX_NORMAL_BIN + 1 - b,
        {
            self.collect_queue(src, options, b);
            b = b + 1;
        }
    }
}


/// What a visitor is told of a page area.
#[derive(Debug, Clone, Copy)]
pub struct AreaInfo {
    /// Start of the area's blocks.
    pub blocks: usize,
    /// Bytes reserved for the area.
    pub reserved: usize,
    /// Bytes usable now (all reserved bytes stay committed).
    pub committed: usize,
    /// Blocks handed out, as the owner counts them.
    pub used: usize,
    /// Block size.
    pub block_size: usize,
    /// Block size with its padding (the same here).
    pub full_block_size: usize,
    /// The tag of the heap that made the area.
    pub heap_tag: i32,
}

/// The area a page describes.
pub open spec fn page_area_of(p: Page) -> AreaInfo {
    AreaInfo {
        blocks: p.area_addr() as usize,
        reserved: (p.slices() * SEGMENT_SLICE_SIZE) as usize,
        committed: (p.slices() * SEGMENT_SLICE_SIZE) as usize,
        used: p.used_count() as usize,
        block_size: p.bsize() as usize,
        full_block_size: p.bsize() as usize,
        heap_tag: p.tag(),
    }
}

/// The area of a huge block: from the block to its segment's end.
pub open spec fn huge_area_of(h: HugeBlock, tag: i32) -> AreaInfo {
    let end = h.seg.base_addr() + h.seg.total();
    let n = if h.block <= end { (end - h.block) as usize } else { 0usize };
    AreaInfo { blocks: h.block, reserved: n, committed: n, used: 1, block_size: n, full_block_size: n, heap_tag: tag }
}

/// A page area reports, as in use, the blocks its owner handed out and has
/// not taken back: with the blocks on the owner's two free lists they make
/// up every block the page has carved.
pub proof fn lemma_area_used_is_live(p: Page)
    requires
        p.wf(),
    ensures
        page_area_of(p).used + p.free_list().len() + p.local_list().len() == p.cap(),
        page_area_of(p).used <= p.cap(),
        page_area_of(p).block_size == p.bsize(),
        page_area_of(p).blocks == p.area_addr(),
{
    crate::page::lemma_counts_fit(p);
}

/// A huge block's area runs from the block to its segment's end: the
/// header slice before the block is not part of it.
pub proof fn lemma_huge_area_ends_at_segment_end(h: HugeBlock, tag: i32)
    requires
        h.seg.base_addr() + SEGMENT_SLICE_SIZE <= h.block,
        h.block <= h.seg.base_addr() + h.seg.total() <= usize::MAX,
        0 <= h.seg.base_addr(),
    ensures
        h.block + huge_area_of(h, tag).block_size == h.seg.base_addr() + h.seg.total(),
        huge_area_of(h, tag).block_size + SEGMENT_SLICE_SIZE <= h.seg.total(),
        huge_area_of(h, tag).blocks == h.block,
{
}

/// `v` lists page `p`'s blocks handed out, lowest address first.
pub open spec fn lists_blocks(p: Page, v: Seq<usize>) -> bool {
    &&& forall|k: int| 0 <= k < v.len() ==> p.area_addr() <= #[trigger] v[k]
        && (v[k] - p.area_addr()) % p.bsize() == 0
        && p.is_allocated((v[k] - p.area_addr()) / p.bsize())
    &&& forall|i: int| #[trigger] p.is_allocated(i) ==> v.contains(p.block_addr(i) as usize)
    &&& forall|a: int, b: int| 0 <= a < b < v.len() ==> v[a] < v[b]
}

/// The pages of queues `0 .. b`, queue by queue, front first.
pub open spec fn queued_upto(h: Heap, b: int) -> Seq<Page>
    decreases b,
{
    if b <= 0 { Seq::empty() } else { queued_upto(h, b - 1) + h.queue(b - 1) }
}

/// Every page of the heap: the queues in bin order, then the unqueued
/// pages.
pub open spec fn heap_pages(h: Heap) -> Seq<Page> {
    queued_upto(h, BIN_COUNT as int) + h.single_pages()
}

/// Entry `e` of a visit describes page `p`, and lists its blocks when
/// `blocks` is asked for.
pub open spec fn visited_page(p: Page, e: (AreaInfo, Vec<usize>), blocks: bool) -> bool {
    &&& e.0 == page_area_of(p)
    &&& blocks ==> lists_blocks(p, e.1@)
    &&& !blocks ==> e.1@.len() == 0
}

/// The area of page `p` and, when asked, its blocks handed out.
fn visit_page(p: &Page, blocks: bool) -> (e: (AreaInfo, Vec<usize>))
    requires
        p.wf(),
    ensures
        visited_page(*p, e, blocks),
{
    proof {
        p.lemma_slices_bounded();
    }
    let n = p.span_slices() as usize * SEGMENT_SLICE_SIZE;
    let info = AreaInfo {
        blocks: p.area(),
        reserved: n,
        committed: n,
        used: p.used() as usize,
        block_size: p.block_size(),
        full_block_size: p.block_size(),
        heap_tag: p.heap_tag(),
    };
    let v = if blocks { p.live_blocks() } else { Vec::new() };
    (info, v)
}

impl Heap {
    /// Walk the heap's areas: each page, queue by queue in bin order and
    /// front first, then the unqueued pages, then the huge blocks; with
    /// each page, when `visit_blocks` is set, the addresses of its blocks
    /// handed out, lowest first; with each huge block, its block.
    pub fn visit_blocks(&self, visit_blocks: bool) -> (v: Vec<(AreaInfo, Vec<usize>)>)
        requires
            self.wf(),
        ensures
            v@.len() == heap_pages(*self).len() + self.huges().len(),
            forall|k: int| 0 <= k < heap_pages(*self).len() ==> #[trigger] visited_page(heap_pages(*self)[k], v@[k], visit_blocks),
            forall|k: int| 0 <= k < self.huges().len() ==> {
                &&& (#[trigger] v@[heap_pages(*self).len() + k]).0 == huge_area_of(self.huges()[k], self.tag_of())
                &&& v@[heap_pages(*self).len() + k].1@ == if visit_blocks { seq![self.huges()[k].block] } else { Seq::<usize>::empty() }
            },
    {
        let mut v: Vec<(AreaInfo, Vec<usize>)> = Vec::new();
        let mut b: usize = 0;
        while b < BIN_COUNT
            invariant
                self.wf(),
                b <= BIN_COUNT,
                v@.len() == queued_upto(*self, b as int).len(),
                forall|k: int| 0 <= k < v@.len() ==> #[trigger] visited_page(queued_upto(*self, b as int)[k], v@[k], visit_blocks),
            decreases BIN_COUNT - b,
        {
            let n = self.queues.len(b);
            let ghost base = v@.len();
            let ghost up = queued_upto(*self, b as int);
            let mut k: usize = 0;
            while k < n
                invariant
                    self.wf(),
                    b < BIN_COUNT,
                    n == self.queue(b as int).len(),
                    k <= n,
                    up == queued_upto(*self, b as int),
                    base == up.len(),
                    v@.len() == base + k,
                    forall|j: int| 0 <= j < base ==> #[trigger] visited_page(up[j], v@[j], visit_blocks),
                    forall|j: int| 0 <= j < k ==> #[trigger] visited_page(self.queue(b as int)[j], v@[base + j], visit_blocks),
                decreases n - k,
            {
                let p = self.queues.get(b, k);
                proof {
                    if b == 0 || b == BIN_HUGE {
                        assert(self.queue(b as int).len() == 0);
                    }
                    if b == BIN_FULL {
                        assert(binned_ok(self.queue(b as int)[k as int], self.queue(b as int)[k as int].bin_of()));
                    } else {
                        assert(binned_ok(self.queue(b as int)[k as int], b as int));
                    }
                    p.lemma_slices_bounded();
                }
                let e = visit_page(p, visit_blocks);
                v.push(e);
                k = k + 1;
            }
            proof {
                let nu = queued_upto(*self, b as int + 1);
                assert(nu == up + self.queue(b as int));
                assert forall|j: int| 0 <= j < v@.len() implies #[trigger] visited_page(nu[j], v@[j], visit_blocks) by {
                    if j >= base {
                        assert(nu[j] == self.queue(b as int)[j - base]);
                        assert(visited_page(self.queue(b as int)[j - base], v@[base + (j - base)], visit_blocks));
                    } else {
                        assert(nu[j] == up[j]);
                        assert(visited_page(up[j], v@[j], visit_blocks));
                    }
                }
            }
            b = b + 1;
        }
        let ghost qn = v@.len();
        let mut k: usize = 0;
        while k < self.singles.len()
            invariant
                self.wf(),
                qn == queued_upto(*self, BIN_COUNT as int).len(),
                v@.len() == qn + k,
                k <= self.single_pages().len(),
                forall|j: int| 0 <= j < qn ==> #[trigger] visited_page(queued_upto(*self, BIN_COUNT as int)[j], v@[j], visit_blocks),
                forall|j: int| 0 <= j < k ==> #[trigger] visited_page(self.single_pages()[j], v@[qn + j], visit_blocks),
            decreases self.single_pages().len() - k,
        {
            let p = &self.singles[k];
            proof {
                assert(self.single_pages()[k as int].wf());
                p.lemma_slices_bounded();
            }
            let e = visit_page(p, visit_blocks);
            v.push(e);
            k = k + 1;
        }
        proof {
            let hp = heap_pages(*self);
            assert forall|j: int| 0 <= j < hp.len() implies #[trigger] visited_page(hp[j], v@[j], visit_blocks) by {
                if j < qn {
                    assert(hp[j] == queued_upto(*self, BIN_COUNT as int)[j]);
                    assert(visited_page(queued_upto(*self, BIN_COUNT as int)[j], v@[j], visit_blocks));
                } else {
                    assert(hp[j] == self.single_pages()[j - qn]);
                    assert(visited_page(self.single_pages()[j - qn], v@[qn + (j - qn)], visit_blocks));
                }
            }
        }
        let ghost pn = v@.len();
        let mut k: usize = 0;
        while k < self.huge.len()
            invariant
                self.wf(),
                pn == heap_pages(*self).len(),
                v@.len() == pn + k,
                k <= self.huges().len(),
                forall|j: int| 0 <= j < pn ==> #[trigger] visited_page(heap_pages(*self)[j], v@[j], visit_blocks),
                forall|j: int| 0 <= j < k ==> {
                    &&& (#[trigger] v@[pn + j]).0 == huge_area_of(self.huges()[j], self.tag_of())
                    &&& v@[pn + j].1@ == if visit_blocks { seq![self.huges()[j].block] } else { Seq::<usize>::empty() }
                },
            decreases self.huges().len() - k,
        {
            let h = &self.huge[k];
            proof {
                assert(self.huges()[k as int].seg.wf());
                h.seg.lemma_wf_geometry();
            }
            let end = h.seg.base() + h.seg.total_size();
            let n = if h.block <= end { end - h.block } else { 0 };
            let info = AreaInfo { blocks: h.block, reserved: n, committed: n, used: 1, block_size: n, full_block_size: n,
                heap_tag: self.tag };
            let mut bl: Vec<usize> = Vec::new();
            if visit_blocks {
                bl.push(h.block);
            }
            proof {
                assert(bl@ == if visit_blocks { seq![h.block] } else { Seq::<usize>::empty() });
            }
            v.push((info, bl));
            k = k + 1;
        }
        v
    }
}


/// The heap holds a segment at `base`: a Normal one or a huge block's.
pub open spec fn holds_segment(h: Heap, base: int) -> bool {
    ||| exists|k: int| 0 <= k < h.segs().len() && #[trigger] h.segs()[k].base_addr() == base
    ||| exists|k: int| 0 <= k < h.huges().len() && #[trigger] h.huges()[k].seg.base_addr() == base
}

impl Heap {
    /// Whether `addr` lies in a segment of this heap.
    pub fn contains_block(&self, addr: usize) -> (b: bool)
        ensures
            b == holds_segment(*self, spec_segment_of(addr as int)),
    {
        let base = crate::segment::segment_of(addr);
        match self.find_segment(base) {
            Some(_) => true,
            None => match self.find_huge(base) {
                Some(_) => true,
                None => false,
            },
        }
    }

    /// Whether `addr` lies in a segment of this heap, in a huge block's
    /// segment or in a carved span that holds a page of the heap.
    pub fn check_owned(&self, addr: usize) -> (b: bool)
        requires
            self.wf(),
        ensures
            b ==> holds_segment(*self, spec_segment_of(addr as int)),
            !holds_segment(*self, spec_segment_of(addr as int)) ==> !b,
            (exists|k: int| 0 <= k < self.huges().len()
                && #[trigger] self.huges()[k].seg.base_addr() == spec_segment_of(addr as int)) ==> b,
    {
        let base = crate::segment::segment_of(addr);
        if let Some(_) = self.find_huge(base) {
            return true;
        }
        let ks = match self.find_segment(base) {
            Some(ks) => ks,
            None => {
                return false;
            },
        };
        proof {
            assert(self.segs()[ks as int].wf());
            self.segs()[ks as int].lemma_wf_geometry();
        }
        let nfree = self.segments[ks].carved_slices();
        proof {
            assert(nfree * SEGMENT_SLICE_SIZE <= SEGMENT_SIZE) by (nonlinear_arith)
                requires nfree <= SLICES_PER_SEGMENT, SEGMENT_SIZE == SLICES_PER_SEGMENT * SEGMENT_SLICE_SIZE;
        }
        if addr < base + HEADER_SLICES * SEGMENT_SLICE_SIZE || addr >= base + nfree * SEGMENT_SLICE_SIZE {
            return false;
        }
        let slot = self.segments[ks].page_of(addr);
        if let Some(_) = self.find_single(base, slot) {
            return true;
        }
        match self.find_queued(base, slot) {
            Some(_) => true,
            None => false,
        }
    }

    /// The bytes usable from `addr` to the end of the block holding it:
    /// the block size for a block's start, less for a pointer into it;
    /// for a huge block, the bytes to its segment's end. `None` when
    /// `addr` is in no block of this heap.
    pub fn usable_size(&self, addr: usize) -> (r: Option<usize>)
        requires
            self.wf(),
        ensures
            r matches Some(n) ==> {
                ||| exists|k: int| 0 <= k < self.huges().len()
                    && #[trigger] self.huges()[k].seg.base_addr() == spec_segment_of(addr as int)
                    && n == huge_area_of(self.huges()[k], self.tag_of()).block_size
                ||| exists|k: int, i: int| 0 <= k < self.single_pages().len()
                    && #[trigger] in_block(self.single_pages()[k], addr as int, i)
                    && n == self.single_pages()[k].block_addr(i) + self.single_pages()[k].bsize() - addr
                    && self.single_pages()[k].segment_base() == spec_segment_of(addr as int)
                ||| exists|b: int, k: int, i: int| 0 <= b < BIN_COUNT && 0 <= k < self.queue(b).len()
                    && #[trigger] in_block(self.queue(b)[k], addr as int, i)
                    && n == self.queue(b)[k].block_addr(i) + self.queue(b)[k].bsize() - addr
                    && self.queue(b)[k].segment_base() == spec_segment_of(addr as int)
            },
            (exists|k: int| 0 <= k < self.huges().len()
                && #[trigger] self.huges()[k].seg.base_addr() == spec_segment_of(addr as int)) ==> r is Some,
            forall|b: int, k: int, i: int| #[trigger] block_candidate(*self, addr as int, b, k, i) ==>
                r == Some((self.queue(b)[k].block_addr(i) + self.queue(b)[k].bsize() - addr) as usize),
    {
        let base = crate::segment::segment_of(addr);
        if let Some(k) = self.find_huge(base) {
            let h = &self.huge[k];
            proof {
                assert(self.huges()[k as int].seg.wf());
                h.seg.lemma_wf_geometry();
            }
            let end = h.seg.base() + h.seg.total_size();
            let n = if h.block <= end { end - h.block } else { 0 };
            return Some(n);
        }
        let ks = match self.find_segment(base) {
            Some(ks) => ks,
            None => {
                proof {
                    assert forall|b: int, kk: int, i: int| !#[trigger] block_candidate(*self, addr as int, b, kk, i) by {
                        if block_candidate(*self, addr as int, b, kk, i) {
                            let p = self.queue(b)[kk];
                            let w = choose|w: int| 0 <= w < self.segs().len() && #[trigger] backed_by(p, self.segs()[w]);
                            assert(self.segs()[w].base_addr() != base);
                        }
                    }
                }
                return None;
            },
        };
        proof {
            assert(self.segs()[ks as int].wf());
            self.segs()[ks as int].lemma_wf_geometry();
        }
        let nfree = self.segments[ks].carved_slices();
        proof {
            assert(nfree * SEGMENT_SLICE_SIZE <= SEGMENT_SIZE) by (nonlinear_arith)
                requires nfree <= SLICES_PER_SEGMENT, SEGMENT_SIZE == SLICES_PER_SEGMENT * SEGMENT_SLICE_SIZE;
        }
        if addr < base + HEADER_SLICES * SEGMENT_SLICE_SIZE || addr >= base + nfree * SEGMENT_SLICE_SIZE {
            proof {
                assert forall|b: int, kk: int, i: int| !#[trigger] block_candidate(*self, addr as int, b, kk, i) by {
                    if block_candidate(*self, addr as int, b, kk, i) {
                        lemma_sole_located(*self, b, kk, i, addr as int);
                        assert(self.segs()[ks as int].base_addr() == self.queue(b)[kk].segment_base());
                    }
                }
            }
            return None;
        }
        let slot = self.segments[ks].page_of(addr);
        proof {
            assert forall|b: int, kk: int, i: int| #[trigger] block_candidate(*self, addr as int, b, kk, i)
                implies self.queue(b)[kk].slot_index() == slot by {
                lemma_sole_located(*self, b, kk, i, addr as int);
                assert(self.segs()[ks as int].base_addr() == self.queue(b)[kk].segment_base());
            }
        }
        let ghost mut gsingle: bool = false;
        let ghost mut gb: int = 0;
        let ghost mut gk: int = 0;
        let pg: &Page = if let Some(k) = self.find_single(base, slot) {
            proof {
                assert(self.single_pages()[k as int].wf());
                gsingle = true;
                gk = k as int;
                assert forall|b: int, kk: int, i: int| !#[trigger] block_candidate(*self, addr as int, b, kk, i) by {
                    if block_candidate(*self, addr as int, b, kk, i) {
                        assert(self.queue(b)[kk].slot_index() == slot);
                        assert(!(self.single_pages()[k as int].segment_base() == self.queue(b)[kk].segment_base()
                            && self.single_pages()[k as int].slot_index() == self.queue(b)[kk].slot_index()));
                    }
                }
            }
            &self.singles[k]
        } else {
            match self.find_queued(base, slot) {
                None => {
                    proof {
                        assert forall|b: int, kk: int, i: int| !#[trigger] block_candidate(*self, addr as int, b, kk, i) by {
                            if block_candidate(*self, addr as int, b, kk, i) {
                                assert(self.queue(b)[kk].slot_index() == slot);
                                assert(self.queue(b)[kk].segment_base() == base);
                            }
                        }
                    }
                    return None;
                },
                Some((b, k)) => {
                    proof {
                        gb = b as int;
                        gk = k as int;
                        assert forall|bb: int, kk: int, i: int| #[trigger] block_candidate(*self, addr as int, bb, kk, i)
                            implies bb == b && kk == k by {
                            assert(self.queue(bb)[kk].slot_index() == slot);
                            if bb != b || kk != k {
                                assert(!(self.queue(b as int)[k as int].segment_base() == self.queue(bb)[kk].segment_base()
                                    && self.queue(b as int)[k as int].slot_index() == self.queue(bb)[kk].slot_index()));
                            }
                        }
                        if b == 0 || b == BIN_HUGE {
                            assert(self.queue(b as int).len() == 0);
                        }
                        if b == BIN_FULL {
                            assert(binned_ok(self.queue(b as int)[k as int], self.queue(b as int)[k as int].bin_of()));
                        } else {
                            assert(binned_ok(self.queue(b as int)[k as int], b as int));
                        }
                    }
                    self.queues.get(b, k)
                },
            }
        };
        proof {
            if gsingle {
                assert(*pg == self.single_pages()[gk]);
                assert(pg.segment_base() == base);
            } else {
                assert(*pg == self.queue(gb)[gk]);
                assert(0 <= gb < BIN_COUNT && 0 <= gk < self.queue(gb).len());
                assert(pg.segment_base() == base);
            }
        }
        match block_of(pg, addr) {
            None => {
                proof {
                    assert forall|bb: int, kk: int, i: int| !#[trigger] block_candidate(*self, addr as int, bb, kk, i) by {
                        if block_candidate(*self, addr as int, bb, kk, i) {
                            assert(in_block(*pg, addr as int, i));
                        }
                    }
                }
                None
            },
            Some(i) => {
                proof {
                    assert forall|bb: int, kk: int, ii: int| #[trigger] block_candidate(*self, addr as int, bb, kk, ii)
                        implies bb == gb && kk == gk && ii == i by {
                        lemma_in_one_block(*pg, addr as int, i as int, ii);
                    }
                    assert(pg.area_addr() + pg.rsv() * pg.bsize() <= usize::MAX);
                    assert(i < pg.cap());
                    assert((i + 1) * pg.bsize() <= pg.rsv() * pg.bsize()) by (nonlinear_arith)
                        requires i < pg.cap(), pg.cap() <= pg.rsv(), pg.bsize() >= 1;
                    assert(in_block(*pg, addr as int, i as int));
                }
                let start = pg.area() + i as usize * pg.block_size();
                proof {
                    assert((i + 1) * pg.bsize() == i * pg.bsize() + pg.bsize()) by (nonlinear_arith);
                }
                Some(start + pg.block_size() - addr)
            },
        }
    }
}

/// `count * size` bytes from `heap`, `None` when the product overflows:
/// the block, and whether it is known zero (a caller that needs zeroed
/// memory clears it otherwise).
pub fn calloc(heap: &mut Heap, src: &mut Sources, options: &Options, count: usize, size: usize)
    -> (r: Option<(usize, bool)>)
    requires
        old(heap).wf(),
        old(src).ready(*options),
    ensures
        final(heap).wf(),
        old(src).kept(*final(src), *options),
        count * size > usize::MAX ==> r is None && *final(heap) == *old(heap),
        count * size <= usize::MAX ==> malloc_result(*old(heap), *final(heap), count * size, r),
        count * size <= usize::MAX && r is None ==> sized_refused(*final(src), *options, final(heap).arena() as int,
            count * size),
        r matches Some((p, _)) ==> (p as int) % 8 == 0,
        r matches Some((p, _)) ==> holds_bytes(*final(heap), p as int, count * size),
{
    mallocn(heap, src, options, count, size)
}

/// `count * size` bytes from `heap`, `None` when the product overflows.
pub fn mallocn(heap: &mut Heap, src: &mut Sources, options: &Options, count: usize, size: usize)
    -> (r: Option<(usize, bool)>)
    requires
        old(heap).wf(),
        old(src).ready(*options),
    ensures
        final(heap).wf(),
        old(src).kept(*final(src), *options),
        count * size > usize::MAX ==> r is None && *final(heap) == *old(heap),
        count * size <= usize::MAX ==> malloc_result(*old(heap), *final(heap), count * size, r),
        count * size <= usize::MAX && r is None ==> sized_refused(*final(src), *options, final(heap).arena() as int,
            count * size),
        r matches Some((p, _)) ==> (p as int) % 8 == 0,
        r matches Some((p, _)) ==> holds_bytes(*final(heap), p as int, count * size),
{
    match count.checked_mul(size) {
        Some(total) => heap.malloc(src, options, total),
        None => None,
    }
}

/// A small request, at most `SMALL_SIZE_MAX` bytes.
pub fn malloc_small(heap: &mut Heap, src: &mut Sources, options: &Options, size: usize) -> (r: Option<(usize, bool)>)
    requires
        old(heap).wf(),
        old(src).ready(*options),
        size <= SMALL_SIZE_MAX,
    ensures
        final(heap).wf(),
        old(src).kept(*final(src), *options),
        generic_outcome(*old(heap), *final(heap), size as int, r)
            || (old(heap).delayed_list().len() > 0
                && exists|mid: Heap| mid.wf() && #[trigger] sized_outcome(mid, *final(heap), size as int, r)),
{
    heap.malloc(src, options, size)
}

/// A small request whose block the caller zeroes unless it is known zero.
pub fn zalloc_small(heap: &mut Heap, src: &mut Sources, options: &Options, size: usize) -> (r: Option<(usize, bool)>)
    requires
        old(heap).wf(),
        old(src).ready(*options),
        size <= SMALL_SIZE_MAX,
    ensures
        final(heap).wf(),
        old(src).kept(*final(src), *options),
        generic_outcome(*old(heap), *final(heap), size as int, r)
            || (old(heap).delayed_list().len() > 0
                && exists|mid: Heap| mid.wf() && #[trigger] sized_outcome(mid, *final(heap), size as int, r)),
{
    malloc_small(heap, src, options, size)
}

/// Whether `addr` lies in a registered window of the segment map.
pub fn is_in_heap_region(map: &SegmentMap, addr: usize) -> (b: bool)
    requires
        map.wf(),
    ensures
        b == (addr / SEGMENT_SIZE < crate::segment_map::spec_map_bits()
            && map.registered((addr / SEGMENT_SIZE) as int)),
{
    map.contains(addr)
}

/// Whether `addr` belongs to some heap: its window is registered in the
/// segment map.
pub fn check_owned(map: &SegmentMap, addr: usize) -> (b: bool)
    requires
        map.wf(),
    ensures
        b == (addr / SEGMENT_SIZE < crate::segment_map::spec_map_bits()
            && map.registered((addr / SEGMENT_SIZE) as int)),
{
    is_in_heap_region(map, addr)
}


/// A multiple of `m` is a multiple of every divisor of `m`.
proof fn lemma_divides_trans(x: int, m: int, d: int)
    requires
        x % m == 0,
        m % d == 0,
        m > 0,
        d > 0,
    ensures
        x % d == 0,
{
    vstd::arithmetic::div_mod::lemma_fundamental_div_mod(x, m);
    vstd::arithmetic::div_mod::lemma_fundamental_div_mod(m, d);
    let a = x / m;
    let c = m / d;
    assert(x == d * (c * a)) by (nonlinear_arith)
        requires x == m * a + 0, m == d * c + 0;
    vstd::arithmetic::div_mod::lemma_mod_multiples_basic(c * a, d);
}

/// A bin's block size is a whole number of words.
proof fn lemma_bin_size_words(b: int)
    requires
        1 <= b < BIN_HUGE,
    ensures
        spec_bin_size(b) % 8 == 0,
{
    if b <= 8 {
        vstd::arithmetic::div_mod::lemma_mod_multiples_basic(b, 8);
    } else {
        let t = b + 3;
        let x = (5 + t % 4) * (vstd::arithmetic::power2::pow2((t / 4 - 2) as nat) as int);
        assert(spec_bin_size(b) == x * 8);
        vstd::arithmetic::div_mod::lemma_mod_multiples_basic(x, 8);
    }
}

/// A block a size class hands out for `size` bytes is aligned to `align`
/// when every kind of block it can be is: slice-aligned large blocks,
/// word-aligned huge ones, and binned blocks in slice-aligned areas whose
/// block size `align` divides.
proof fn lemma_sized_aligned(pre: Heap, post: Heap, size: int, addr: usize, zero: bool, align: int)
    requires
        post.wf(),
        sized_outcome(pre, post, size, Some((addr, zero))),
        is_power_of_two(align),
        1 <= align <= SEGMENT_SLICE_SIZE,
        size <= MEDIUM_OBJ_SIZE_MAX ==> spec_bin_size(spec_bin(size)) % align == 0,
        size > LARGE_OBJ_SIZE_MAX ==> align <= 8,
    ensures
        (addr as int) % align == 0,
{
    vstd::arithmetic::power2::lemma2_to64();
    lemma_align_divides(align, 16);
    assert(vstd::arithmetic::power2::pow2(16) == SEGMENT_SLICE_SIZE);
    if size <= MEDIUM_OBJ_SIZE_MAX {
        let b = spec_bin(size);
        assert(binned_outcome(pre, post, size, Some((addr, zero))));
        assert(post.queue(b).len() >= 1);
        let pg = post.queue(b)[0];
        let (j, i) = choose|j: int, i: int|
            #![trigger parked_prefix(pre.queue(b), j, pre.queue(BIN_FULL as int), post.queue(BIN_FULL as int)), post.queue(b)[0].block_addr(i)]
        {
            &&& 0 <= j <= pre.queue(b).len()
            &&& parked_prefix(pre.queue(b), j, pre.queue(BIN_FULL as int), post.queue(BIN_FULL as int))
            &&& addr == post.queue(b)[0].block_addr(i)
            &&& zero == post.queue(b)[0].zero_free()
            &&& j < pre.queue(b).len() ==> {
                &&& took_block(pre.queue(b)[j], post.queue(b)[0], i)
                &&& post.queue(b).drop_first() == pre.queue(b).subrange(j + 1, pre.queue(b).len() as int)
            }
            &&& j == pre.queue(b).len() ==> {
                &&& post.queue(b).len() == 1
                &&& i == 0
                &&& post.queue(b)[0].is_allocated(0)
                &&& forall|x: int| x != 0 ==> !#[trigger] post.queue(b)[0].is_allocated(x)
            }
        };
        lemma_bin_size_inverts_bin(if size < 0 { 0 } else { size });
        assert(1 <= b < BIN_HUGE) by {
            if size < 0 {
                assert(spec_bin(size) == 1);
            }
        }
        assert(binned_ok(pg, b));
        let area = pg.area_addr();
        let bs = pg.bsize();
        lemma_divides_trans(area, SEGMENT_SLICE_SIZE as int, align);
        vstd::arithmetic::div_mod::lemma_fundamental_div_mod(area, align);
        vstd::arithmetic::div_mod::lemma_fundamental_div_mod(bs, align);
        let qa = area / align;
        let qb = bs / align;
        assert(addr == align * (qa + i * qb)) by (nonlinear_arith)
            requires addr == area + i * bs, area == align * qa + 0, bs == align * qb + 0;
        vstd::arithmetic::div_mod::lemma_mod_multiples_basic(qa + i * qb, align);
    } else if size <= LARGE_OBJ_SIZE_MAX {
        assert(large_outcome(pre, post, size, Some((addr, zero))));
        lemma_divides_trans(addr as int, SEGMENT_SLICE_SIZE as int, align);
    } else {
        assert(huge_outcome(pre, post, size, 8, 0, Some((addr, zero))));
        lemma_align_divides(align, 3);
        assert(vstd::arithmetic::power2::pow2(3) == 8);
        lemma_divides_trans(addr as int, 8, align);
    }
}

/// A guarded object is page-aligned.
proof fn lemma_guarded_aligned(pre: Heap, post: Heap, size: int, addr: usize, zero: bool, align: int)
    requires
        guarded_outcome(pre, post, size, Some((addr, zero))),
        is_power_of_two(align),
        1 <= align <= FIXED_PAGE,
    ensures
        (addr as int) % align == 0,
{
    vstd::arithmetic::power2::lemma2_to64();
    lemma_align_divides(align, 12);
    assert(vstd::arithmetic::power2::pow2(12) == FIXED_PAGE);
    lemma_divides_trans(addr as int, FIXED_PAGE as int, align);
}

/// Adding a multiple of `align` keeps a multiple of `align`.
proof fn lemma_aligned_offset(p: int, offset: int, align: int)
    requires
        align > 0,
        p % align == 0,
        offset % align == 0,
    ensures
        (p + offset) % align == 0,
{
    vstd::arithmetic::div_mod::lemma_fundamental_div_mod(p, align);
    vstd::arithmetic::div_mod::lemma_fundamental_div_mod(offset, align);
    let a = p / align;
    let b = offset / align;
    assert(p + offset == align * (a + b)) by (nonlinear_arith)
        requires p == align * a + 0, offset == align * b + 0;
    vstd::arithmetic::div_mod::lemma_mod_multiples_basic(a + b, align);
}

/// A block from the heap's allocation for `size` bytes is aligned to
/// `align` when the sizes' blocks all are and the sampler cannot have
/// handed out a guarded object misaligned for it.
/// The heap has a block that holds `size` bytes from `p`: a huge block at
/// or below `p` whose segment reaches `p + size`, or a block of one of its
/// pages that holds `p` and reaches `p + size`.
pub open spec fn holds_bytes(h: Heap, p: int, size: int) -> bool {
    ||| exists|k: int| #![trigger h.huges()[k]] 0 <= k < h.huges().len() && h.huges()[k].block <= p
        && p + size <= h.huges()[k].seg.base_addr() + h.huges()[k].seg.total()
    ||| exists|k: int, i: int| 0 <= k < h.single_pages().len() && #[trigger] in_block(h.single_pages()[k], p, i)
        && p + size <= h.single_pages()[k].block_addr(i) + h.single_pages()[k].bsize()
    ||| exists|b: int, k: int, i: int| 0 <= b < BIN_COUNT && 0 <= k < h.queue(b).len()
        && #[trigger] in_block(h.queue(b)[k], p, i) && p + size <= h.queue(b)[k].block_addr(i) + h.queue(b)[k].bsize()
}

/// A block holding `over` bytes from `block` holds `size` bytes from any
/// `p` at or above `block` that still ends within it.
pub proof fn lemma_holds_within(h: Heap, block: int, over: int, p: int, size: int)
    requires
        holds_bytes(h, block, over),
        block <= p,
        p + (if size > 1 { size } else { 1 }) <= block + over,
    ensures
        holds_bytes(h, p, size),
{
    if exists|k: int| #![trigger h.huges()[k]] 0 <= k < h.huges().len() && h.huges()[k].block <= block
        && block + over <= h.huges()[k].seg.base_addr() + h.huges()[k].seg.total() {
        let k = choose|k: int| #![trigger h.huges()[k]] 0 <= k < h.huges().len() && h.huges()[k].block <= block
            && block + over <= h.huges()[k].seg.base_addr() + h.huges()[k].seg.total();
        assert(h.huges()[k].block <= p);
    } else if exists|k: int, i: int| 0 <= k < h.single_pages().len() && #[trigger] in_block(h.single_pages()[k], block, i)
        && block + over <= h.single_pages()[k].block_addr(i) + h.single_pages()[k].bsize() {
        let (k, i) = choose|k: int, i: int| 0 <= k < h.single_pages().len() && #[trigger] in_block(h.single_pages()[k], block, i)
            && block + over <= h.single_pages()[k].block_addr(i) + h.single_pages()[k].bsize();
        assert(in_block(h.single_pages()[k], p, i));
    } else {
        let (b, k, i) = choose|b: int, k: int, i: int| 0 <= b < BIN_COUNT && 0 <= k < h.queue(b).len()
            && #[trigger] in_block(h.queue(b)[k], block, i) && block + over <= h.queue(b)[k].block_addr(i) + h.queue(b)[k].bsize();
        assert(in_block(h.queue(b)[k], p, i));
    }
}

/// `b` has `a`'s huge blocks, and the same pages at the same positions up
/// to their lists and flags.
pub open spec fn same_page_geometry(a: Heap, b: Heap) -> bool {
    &&& b.huges() == a.huges()
    &&& b.single_pages().len() == a.single_pages().len()
    &&& forall|k: int| 0 <= k < a.single_pages().len() ==> (#[trigger] b.single_pages()[k]).same_geometry(a.single_pages()[k])
    &&& forall|c: int| 0 <= c < BIN_COUNT ==> #[trigger] b.queue(c).len() == a.queue(c).len()
    &&& forall|c: int, k: int| 0 <= c < BIN_COUNT && 0 <= k < a.queue(c).len()
        ==> (#[trigger] b.queue(c)[k]).same_geometry(a.queue(c)[k])
}

/// A heap keeps its own page geometry.
pub proof fn lemma_same_page_geometry_refl(a: Heap)
    ensures
        same_page_geometry(a, a),
{
}

/// Pages that keep their positions and geometry keep what they hold.
pub proof fn lemma_holds_same_geometry(a: Heap, b: Heap, p: int, size: int)
    requires
        holds_bytes(a, p, size),
        same_page_geometry(a, b),
    ensures
        holds_bytes(b, p, size),
{
    if exists|k: int| #![trigger a.huges()[k]] 0 <= k < a.huges().len() && a.huges()[k].block <= p
        && p + size <= a.huges()[k].seg.base_addr() + a.huges()[k].seg.total() {
        let k = choose|k: int| #![trigger a.huges()[k]] 0 <= k < a.huges().len() && a.huges()[k].block <= p
            && p + size <= a.huges()[k].seg.base_addr() + a.huges()[k].seg.total();
        assert(b.huges()[k] == a.huges()[k]);
    } else if exists|k: int, i: int| 0 <= k < a.single_pages().len() && #[trigger] in_block(a.single_pages()[k], p, i)
        && p + size <= a.single_pages()[k].block_addr(i) + a.single_pages()[k].bsize() {
        let (k, i) = choose|k: int, i: int| 0 <= k < a.single_pages().len() && #[trigger] in_block(a.single_pages()[k], p, i)
            && p + size <= a.single_pages()[k].block_addr(i) + a.single_pages()[k].bsize();
        assert(b.single_pages()[k].same_geometry(a.single_pages()[k]));
        assert(in_block(b.single_pages()[k], p, i));
    } else {
        let (c, k, i) = choose|c: int, k: int, i: int| 0 <= c < BIN_COUNT && 0 <= k < a.queue(c).len()
            && #[trigger] in_block(a.queue(c)[k], p, i) && p + size <= a.queue(c)[k].block_addr(i) + a.queue(c)[k].bsize();
        assert(b.queue(c)[k].same_geometry(a.queue(c)[k]));
        assert(in_block(b.queue(c)[k], p, i));
    }
}

/// A block `malloc` of `size` bytes hands out holds them all.
pub proof fn lemma_malloc_holds(pre: Heap, post: Heap, size: int, addr: usize, zero: bool)
    requires
        post.wf(),
        0 <= size,
        malloc_result(pre, post, size, Some((addr, zero))),
    ensures
        holds_bytes(post, addr as int, size),
{
    let r = Some((addr, zero));
    if pre.grate() != 0 && pre.gmin() <= size <= pre.gmax() && pre.gcount() <= 1 && guarded_outcome(pre, post, size, r) {
        let payload = crate::os::spec_page_align_up(size);
        crate::prim::fixed::lemma_div_ceil_covers(0, 1);
        assert(payload >= size) by {
            crate::prim::lemma_round_up_bounds(if size > 1 { size } else { 1 }, FIXED_PAGE as int);
        }
        assert(post.huges()[0].block == addr);
        assert(post.huges().len() >= 1);
        return;
    }
    let mid = if sized_outcome(pre, post, size, r) { pre } else {
        choose|mid: Heap| mid.wf() && #[trigger] sized_outcome(mid, post, size, r)
    };
    assert(sized_outcome(mid, post, size, r));
    if size <= MEDIUM_OBJ_SIZE_MAX {
        lemma_bin_size_inverts_bin(size);
        let b = spec_bin(size);
        let q = mid.queue(b);
        let j = choose|j: int, i: int|
            #![trigger parked_prefix(q, j, mid.queue(BIN_FULL as int), post.queue(BIN_FULL as int)), post.queue(b)[0].block_addr(i)]
            {
                &&& 0 <= j <= q.len()
                &&& parked_prefix(q, j, mid.queue(BIN_FULL as int), post.queue(BIN_FULL as int))
                &&& addr == post.queue(b)[0].block_addr(i)
                &&& zero == post.queue(b)[0].zero_free()
                &&& j < q.len() ==> {
                    &&& took_block(q[j], post.queue(b)[0], i)
                    &&& post.queue(b).drop_first() == q.subrange(j + 1, q.len() as int)
                }
                &&& j == q.len() ==> {
                    &&& post.queue(b).len() == 1
                    &&& i == 0
                    &&& post.queue(b)[0].is_allocated(0)
                    &&& forall|x: int| x != 0 ==> !#[trigger] post.queue(b)[0].is_allocated(x)
                }
            };
        let (jj, i) = j;
        assert(post.queue(b).len() >= 1);
        assert(binned_ok(post.queue(b)[0], b));
        assert(post.queue(b)[0].bsize() >= 1);
        assert(post.queue(b)[0].is_allocated(i));
        assert(in_block(post.queue(b)[0], addr as int, i));
    } else if size <= LARGE_OBJ_SIZE_MAX {
        let p = post.single_pages()[0];
        assert(p.wf());
        assert(p.is_allocated(0));
        crate::prim::fixed::lemma_div_ceil_covers(size, SEGMENT_SLICE_SIZE as int);
        assert(in_block(p, addr as int, 0));
    } else {
        assert(post.huges()[0].block == addr);
    }
}

/// A block `malloc` hands out is word-aligned.
proof fn lemma_word_aligned(pre: Heap, post: Heap, size: int, addr: usize, zero: bool)
    requires
        post.wf(),
        0 <= size,
        malloc_result(pre, post, size, Some((addr, zero))),
    ensures
        (addr as int) % 8 == 0,
{
    vstd::arithmetic::power2::lemma2_to64();
    assert(is_power_of_two(8)) by {
        assert(vstd::arithmetic::power2::pow2(3) == 8);
    }
    if size <= MEDIUM_OBJ_SIZE_MAX {
        lemma_bin_size_inverts_bin(size);
        lemma_bin_size_words(spec_bin(size));
    }
    lemma_malloc_aligned(pre, post, size, addr, zero, 8);
}

proof fn lemma_malloc_aligned(pre: Heap, post: Heap, size: int, addr: usize, zero: bool, align: int)
    requires
        post.wf(),
        generic_outcome(pre, post, size, Some((addr, zero)))
            || (pre.delayed_list().len() > 0
                && exists|mid: Heap| mid.wf() && #[trigger] sized_outcome(mid, post, size, Some((addr, zero)))),
        is_power_of_two(align),
        1 <= align <= SEGMENT_SLICE_SIZE,
        align <= FIXED_PAGE || pre.grate() == 0,
        size <= MEDIUM_OBJ_SIZE_MAX ==> spec_bin_size(spec_bin(size)) % align == 0,
        size > LARGE_OBJ_SIZE_MAX ==> align <= 8,
    ensures
        (addr as int) % align == 0,
{
    if generic_outcome(pre, post, size, Some((addr, zero))) {
        if pre.grate() != 0 && pre.gmin() <= size <= pre.gmax() && pre.gcount() <= 1
            && guarded_outcome(pre, post, size, Some((addr, zero))) {
            lemma_guarded_aligned(pre, post, size, addr, zero, align);
        } else {
            lemma_sized_aligned(pre, post, size, addr, zero, align);
        }
    } else {
        let mid = choose|mid: Heap| mid.wf() && #[trigger] sized_outcome(mid, post, size, Some((addr, zero)));
        lemma_sized_aligned(mid, post, size, addr, zero, align);
    }
}

impl Heap {
    /// Mark the page holding `addr` as holding a pointer into a block
    /// rather than its start.
    fn mark_aligned(&mut self, addr: usize)
        requires
            old(self).wf(),
        ensures
            final(self).wf(),
            final(self).segs() == old(self).segs(),
            final(self).huges() == old(self).huges(),
            final(self).delayed_list() == old(self).delayed_list(),
            aligned_marked(*old(self), *final(self), addr as int),
            same_page_geometry(*old(self), *final(self)),
    {
        let ghost pre = *self;
        let base = crate::segment::segment_of(addr);
        let ks = match self.find_segment(base) {
            Some(ks) => ks,
            None => {
                proof {
                    lemma_same_page_geometry_refl(pre);
                }
                return;
            },
        };
        proof {
            assert(pre.segs()[ks as int].wf());
            pre.segs()[ks as int].lemma_wf_geometry();
        }
        let nfree = self.segments[ks].carved_slices();
        proof {
            assert(nfree * SEGMENT_SLICE_SIZE <= SEGMENT_SIZE) by (nonlinear_arith)
                requires nfree <= SLICES_PER_SEGMENT, SEGMENT_SIZE == SLICES_PER_SEGMENT * SEGMENT_SLICE_SIZE;
        }
        if addr < base + HEADER_SLICES * SEGMENT_SLICE_SIZE || addr >= base + nfree * SEGMENT_SLICE_SIZE {
            proof {
                lemma_same_page_geometry_refl(pre);
            }
            return;
        }
        let slot = self.segments[ks].page_of(addr);
        if let Some(k) = self.find_single(base, slot) {
            let mut pg = self.singles.remove(k);
            proof {
                assert(pg == pre.single_pages()[k as int]);
            }
            let f = pg.flags();
            pg.set_flags(f | HAS_ALIGNED);
            let ghost q = pg;
            self.singles.insert(k, pg);
            proof {
                assert(self.single_pages() =~= pre.single_pages().update(k as int, q));
                assert forall|j: int| 0 <= j < self.single_pages().len() implies {
                    &&& (#[trigger] self.single_pages()[j]).wf()
                    &&& self.single_pages()[j].rsv() == 1
                    &&& self.single_pages()[j].bin_of() == BIN_HUGE
                } by {
                    if j != k {
                        assert(self.single_pages()[j] == pre.single_pages()[j]);
                    }
                }
                assert forall|j: int| 0 <= j < self.huges().len() implies {
                    &&& (#[trigger] self.huges()[j]).seg.wf()
                    &&& self.huges()[j].seg.seg_kind() == SegmentKind::Huge
                } by {
                    assert(self.huges()[j] == pre.huges()[j]);
                }
                Self::lemma_wf_singles_huges(pre, *self);
                assert forall|j: int| 0 <= j < pre.single_pages().len() implies
                    (#[trigger] self.single_pages()[j]).same_geometry(pre.single_pages()[j]) by {
                    if j != k {
                        assert(self.single_pages()[j] == pre.single_pages()[j]);
                    }
                }
                assert forall|c: int, j: int| 0 <= c < BIN_COUNT && 0 <= j < pre.queue(c).len()
                    implies (#[trigger] self.queue(c)[j]).same_geometry(pre.queue(c)[j]) by {
                    assert(self.queue(c) == pre.queue(c));
                }
            }
            return;
        }
        if let Some((b, k)) = self.find_queued(base, slot) {
            proof {
                if b == 0 || b == BIN_HUGE {
                    assert(pre.queue(b as int).len() == 0);
                }
            }
            proof {
                if b == BIN_FULL {
                    assert(binned_ok(pre.queue(b as int)[k as int], pre.queue(b as int)[k as int].bin_of()));
                } else {
                    assert(binned_ok(pre.queue(b as int)[k as int], b as int));
                }
            }
            let mut pg = self.queues.take(b, k);
            let ghost p0 = pg;
            let f = pg.flags();
            pg.set_flags(f | HAS_ALIGNED);
            let ghost q = pg;
            self.queues.put(b, k, pg);
            proof {
                assert(self.queue(b as int) =~= pre.queue(b as int).update(k as int, q));
                let bb: int = if b == BIN_FULL { 1 } else { b as int };
                assert forall|j: int| 0 <= j < self.queue(bb).len() implies
                    #[trigger] binned_ok(self.queue(bb)[j], bb) by {
                    if j != k || bb != b {
                        assert(self.queue(bb)[j] == pre.queue(bb)[j]);
                    } else {
                        assert(binned_ok(p0, bb));
                    }
                }
                assert forall|j: int| 0 <= j < self.queue(BIN_FULL as int).len() implies
                    #[trigger] binned_ok(self.queue(BIN_FULL as int)[j], self.queue(BIN_FULL as int)[j].bin_of()) by {
                    if j != k || b != BIN_FULL {
                        assert(self.queue(BIN_FULL as int)[j] == pre.queue(BIN_FULL as int)[j]);
                    } else {
                        assert(binned_ok(p0, p0.bin_of()));
                    }
                }
                Self::lemma_wf_queues_change(pre, *self, bb, BIN_FULL as int);
            }
            proof {
                assert(p0 == pre.queue(b as int)[k as int]);
                assert(page_marked(p0, q));
                assert forall|ks2: int| #[trigger] first_seg(pre, base as int, ks2) implies ks2 == ks by {
                    if ks2 < ks {
                        assert(pre.segs()[ks2].base_addr() == base);
                    } else if ks2 > ks {
                        assert(pre.segs()[ks as int].base_addr() != base);
                    }
                }
                assert forall|b2: int, k2: int| #[trigger] first_queued(pre, base as int, slot as int, b2, k2)
                    implies b2 == b && k2 == k by {
                    if b2 < b {
                        assert(!(pre.queue(b2)[k2].segment_base() == base && pre.queue(b2)[k2].slot_index() == slot));
                    } else if b2 > b {
                        assert(!(pre.queue(b as int)[k as int].segment_base() == base
                            && pre.queue(b as int)[k as int].slot_index() == slot));
                    } else if k2 < k {
                        assert(!(pre.queue(b2)[k2].segment_base() == base && pre.queue(b2)[k2].slot_index() == slot));
                    } else if k2 > k {
                        assert(!(pre.queue(b as int)[k as int].segment_base() == base
                            && pre.queue(b as int)[k as int].slot_index() == slot));
                    }
                }
                assert forall|c: int| 0 <= c < BIN_COUNT && c != b implies #[trigger] self.queue(c) == pre.queue(c) by {}
                assert(self.single_pages() == pre.single_pages());
                assert forall|j: int| 0 <= j < pre.single_pages().len() implies
                    (#[trigger] self.single_pages()[j]).same_geometry(pre.single_pages()[j]) by {}
                assert forall|c: int| 0 <= c < BIN_COUNT implies #[trigger] self.queue(c).len() == pre.queue(c).len() by {
                    if c != b {
                        assert(self.queue(c) == pre.queue(c));
                    }
                }
                assert forall|c: int, j: int| 0 <= c < BIN_COUNT && 0 <= j < pre.queue(c).len()
                    implies (#[trigger] self.queue(c)[j]).same_geometry(pre.queue(c)[j]) by {
                    if c != b || j != k {
                        if c != b {
                            assert(self.queue(c) == pre.queue(c));
                        }
                        assert(self.queue(c)[j] == pre.queue(c)[j]);
                    }
                }
            }
            return;
        }
        proof {
            lemma_same_page_geometry_refl(pre);
            assert forall|ks2: int| #[trigger] first_seg(pre, base as int, ks2) implies ks2 == ks by {
                if ks2 < ks {
                    assert(pre.segs()[ks2].base_addr() == base);
                } else if ks2 > ks {
                    assert(pre.segs()[ks as int].base_addr() != base);
                }
            }
            assert forall|c: int| #[trigger] self.queue(c) == pre.queue(c) by {}
        }
    }

    /// A block of `size` bytes at an address `p` with `(p + offset) %
    /// align == 0`, `align` a power of two no larger than half a segment
    /// (`None` otherwise): an ordinary allocation when the alignment is a
    /// word's and the offset 0; the next block of the bin's front page
    /// when it happens to be aligned; an ordinary allocation when the
    /// bin's block size, or that of the size rounded up to the alignment,
    /// keeps every block aligned; a huge block placed exactly for huge
    /// sizes; else a block `align - 1` bytes larger, handed out at its
    /// first aligned position, its page marked as holding such pointers.
    /// Whether the memory is known zero comes with it.
    #[verifier::spinoff_prover]
    #[verifier::rlimit(60)]
    pub fn malloc_aligned_at(&mut self, src: &mut Sources, options: &Options, size: usize, align: usize, offset: usize)
        -> (r: Option<(usize, bool)>)
        requires
            old(self).wf(),
            old(src).ready(*options),
        ensures
            final(self).wf(),
            old(src).kept(*final(src), *options),
            !(is_power_of_two(align as int) && 1 <= align <= SEGMENT_SIZE / 2) ==> r is None && *final(self) == *old(self),
            r matches Some((p, _)) ==> (p + offset) % (align as int) == 0,
            r matches Some((p, _)) ==> holds_bytes(*final(self), p as int, size as int),
            r is None && is_power_of_two(align as int) && 1 <= align <= SEGMENT_SIZE / 2 ==> aligned_refused(*old(self),
                *final(self), *old(src), *final(src), *options, size as int, align as int, offset as int),
    {
        if align == 0 {
            return None;
        }
        proof {
            crate::bins::lemma_pow2_mask_test(align);
        }
        if align & (align - 1) != 0 || align > SEGMENT_SIZE / 2 {
            return None;
        }
        let ghost pre = *self;
        if align <= 8 && offset == 0 {
            let r = self.malloc(src, options, size);
            proof {
                if r is None {
                    assert(malloc_result(pre, *self, size as int, None));
                }
                if let Some((p, z)) = r {
                    vstd::arithmetic::power2::lemma2_to64();
                    lemma_align_divides(align as int, 3);
                    assert(vstd::arithmetic::power2::pow2(3) == 8);
                    if size <= MEDIUM_OBJ_SIZE_MAX {
                        lemma_bin_size_inverts_bin(size as int);
                        lemma_bin_size_words(spec_bin(size as int));
                        lemma_divides_trans(spec_bin_size(spec_bin(size as int)), 8, align as int);
                    }
                    lemma_malloc_aligned(pre, *self, size as int, p, z, align as int);
                }
            }
            return r;
        }
        if offset == 0 && size <= SMALL_SIZE_MAX {
            proof {
                lemma_bin_size_inverts_bin(size as int);
            }
            let bin = crate::bins::bin(size);
            if self.queues.len(bin) > 0 {
                proof {
                    assert(binned_ok(self.queue(bin as int)[0], bin as int));
                }
                let head = self.queues.get(bin, 0).peek();
                if let Some(h) = head {
                    if h & (align - 1) == 0 {
                        let ghost q = self.queue(bin as int);
                        let mut pg = self.queues.take(bin, 0);
                        proof {
                            assert(binned_ok(q[0], bin as int));
                        }
                        let got = pg.pop();
                        let zero = pg.free_is_zero();
                        let ghost p1 = pg;
                        self.queues.put(bin, 0, pg);
                        let ghost after_put = *self;
                        self.stats.allocs = inc(self.stats.allocs);
                        proof {
                            assert(binned_ok(p1, bin as int));
                            assert(self.queue(bin as int) =~= q.update(0, p1));
                            assert forall|k: int| 0 <= k < self.queue(bin as int).len() implies
                                #[trigger] binned_ok(self.queue(bin as int)[k], bin as int) by {
                                if k > 0 {
                                    assert(self.queue(bin as int)[k] == q[k]);
                                }
                            }
                            assert forall|k: int| 0 <= k < self.queue(BIN_FULL as int).len() implies
                                #[trigger] binned_ok(self.queue(BIN_FULL as int)[k], self.queue(BIN_FULL as int)[k].bin_of()) by {
                                assert(self.queue(BIN_FULL as int)[k] == pre.queue(BIN_FULL as int)[k]);
                            }
                            Self::lemma_wf_queues_change(pre, *self, bin as int, BIN_FULL as int);
                            let hh = h;
                            let a = align;
                            crate::prim::lemma_mask_round_down(hh, a);
                            assert((hh & !((a - 1) as usize)) == hh) by (bit_vector)
                                requires hh & ((a - 1) as usize) == 0;
                            vstd::arithmetic::div_mod::lemma_mod_multiples_basic((hh / a) as int, a as int);
                        }
                        let addr = got.unwrap();
                        proof {
                            let i = q[0].free_list().last() as int;
                            assert(p1.is_allocated(i));
                            assert(p1.block_addr(i) == q[0].block_addr(i));
                            assert(p1.bsize() == spec_bin_size(bin as int));
                            assert(p1.wf());
                            assert(0 <= i < p1.cap());
                            assert(0 <= i * p1.bsize() <= p1.rsv() * p1.bsize()) by (nonlinear_arith)
                                requires 0 <= i < p1.cap(), p1.cap() <= p1.rsv(), p1.bsize() >= 1;
                            assert(addr as int == p1.block_addr(i));
                            assert(self.queue(bin as int)[0] == p1);
                            assert(in_block(self.queue(bin as int)[0], addr as int, i));
                            assert(holds_bytes(*self, addr as int, size as int));
                        }
                        return Some((addr, zero));
                    }
                }
            }
        }
        if offset % align == 0 && size <= MEDIUM_OBJ_SIZE_MAX && align <= SEGMENT_SLICE_SIZE
            && (align <= FIXED_PAGE || self.guarded_rate == 0) {
            let g = crate::bins::good_size(size);
            if g % align == 0 {
                let r = self.malloc(src, options, size);
                proof {
                    if r is None {
                        assert(malloc_result(pre, *self, size as int, None));
                    }
                    if let Some((p, z)) = r {
                        if align <= FIXED_PAGE || pre.grate() == 0 {
                            lemma_bin_size_inverts_bin(size as int);
                            lemma_malloc_aligned(pre, *self, size as int, p, z, align as int);
                            lemma_aligned_offset(p as int, offset as int, align as int);
                        }
                    }
                }
                return r;
            }
        }
        self.malloc_aligned_slow(src, options, size, align, offset)
    }

    /// The rest of [`Heap::malloc_aligned_at`]: a size rounded up to the
    /// alignment whose bin keeps blocks aligned; a huge block placed
    /// exactly; else a larger block handed out at its first position with
    /// `(p + offset) % align == 0`.
    #[verifier::spinoff_prover]
    #[verifier::rlimit(60)]
    fn malloc_aligned_slow(&mut self, src: &mut Sources, options: &Options, size: usize, align: usize, offset: usize)
        -> (r: Option<(usize, bool)>)
        requires
            old(self).wf(),
            old(src).ready(*options),
            is_power_of_two(align as int),
            1 <= align <= SEGMENT_SIZE / 2,
        ensures
            final(self).wf(),
            old(src).kept(*final(src), *options),
            r matches Some((p, _)) ==> (p + offset) % (align as int) == 0,
            r matches Some((p, _)) ==> holds_bytes(*final(self), p as int, size as int),
            r is None ==> aligned_refused(*old(self), *final(self), *old(src), *final(src), *options, size as int,
                align as int, offset as int),
    {
        let ghost pre = *self;
        let s1 = if size > 1 { size } else { 1 };
        if offset % align == 0 && size <= MEDIUM_OBJ_SIZE_MAX && align <= SEGMENT_SLICE_SIZE {
            let asize = crate::prim::align_up(s1, align);
            proof {
                assert(asize < s1 + align);
            }
            if asize <= MEDIUM_OBJ_SIZE_MAX && (align <= FIXED_PAGE || self.guarded_rate == 0) {
                let g = crate::bins::good_size(asize);
                if g % align == 0 {
                    let r = self.malloc(src, options, asize);
                    proof {
                        if r is None {
                            assert(malloc_result(pre, *self, asize as int, None));
                            assert(asize == crate::prim::spec_align_up(s1 as int, align as int));
                        }
                        if let Some((p, _)) = r {
                            lemma_holds_within(*self, p as int, asize as int, p as int, size as int);
                        }
                        if let Some((p, z)) = r {
                            if align <= FIXED_PAGE || pre.grate() == 0 {
                                lemma_bin_size_inverts_bin(asize as int);
                                lemma_malloc_aligned(pre, *self, asize as int, p, z, align as int);
                                lemma_aligned_offset(p as int, offset as int, align as int);
                            }
                        }
                    }
                    return r;
                }
            }
        }
        self.stats.generic = inc(self.stats.generic);
        proof {
            Self::lemma_wf_frame(pre, *self);
        }
        if size > LARGE_OBJ_SIZE_MAX || s1 > LARGE_OBJ_SIZE_MAX - (align - 1) {
            let ghost mid = *self;
            proof {
                assert(mid.same_but_stats(pre));
            }
            if size > usize::MAX - (SEGMENT_SLICE_SIZE + align + 2 * SEGMENT_SIZE) {
                proof {
                    assert(same_contents(pre, *self));
                }
                return None;
            }
            let r = self.huge_alloc(src, options, size, align, offset);
            proof {
                if let Some((a, _)) = r {
                    assert(self.huges()[0].block == a);
                    assert(holds_bytes(*self, a as int, size as int));
                }
                if r is None {
                    assert forall|b: int| #[trigger] self.queue(b) == pre.queue(b) by {}
                    assert(same_contents(pre, *self));
                }
            }
            return r;
        }
        let oversize = s1 + align - 1;
        let ghost mid = *self;
        proof {
            assert(mid.same_but_stats(pre));
        }
        let got = self.malloc(src, options, oversize);
        proof {
            if got is None {
                assert(malloc_result(mid, *self, oversize as int, None));
                assert(oversize as int == aligned_oversize(size as int, align as int));
            }
        }
        match got {
            None => None,
            Some((block, zero)) => {
                let m = (block % align + offset % align) % align;
                let delta = (align - m) % align;
                proof {
                    vstd::arithmetic::div_mod::lemma_add_mod_noop(block as int, offset as int, align as int);
                    vstd::arithmetic::div_mod::lemma_fundamental_div_mod((block + offset) as int, align as int);
                    lemma_delta_aligns(block as int, offset as int, align as int, m as int, delta as int);
                }
                if block > usize::MAX - delta {
                    proof {
                        assert(malloc_result(mid, *self, oversize as int, Some((block, zero))));
                        assert(oversize as int == aligned_oversize(size as int, align as int));
                        assert(block + align > usize::MAX);
                    }
                    return None;
                }
                let p = block + delta;
                let ghost b4 = *self;
                if p != block {
                    self.mark_aligned(block);
                }
                proof {
                    if p != block {
                        lemma_holds_same_geometry(b4, *self, block as int, oversize as int);
                    }
                    lemma_holds_within(*self, block as int, oversize as int, p as int, size as int);
                }
                Some((p, zero))
            },
        }
    }

}


/// Moving `block` up by `delta`, the distance from `(block + offset) %
/// align` to the next multiple, makes `block + delta + offset` a multiple
/// of `align`.
proof fn lemma_delta_aligns(block: int, offset: int, align: int, m: int, delta: int)
    requires
        align > 0,
        block >= 0,
        offset >= 0,
        m == (block + offset) % align,
        delta == (align - m) % align,
    ensures
        (block + delta + offset) % align == 0,
        0 <= delta < align,
{
    vstd::arithmetic::div_mod::lemma_fundamental_div_mod(block + offset, align);
    let q = (block + offset) / align;
    if m == 0 {
        assert(delta == 0) by {
            vstd::arithmetic::div_mod::lemma_mod_self_0(align);
        }
        assert((block + delta + offset) % align == 0);
    } else {
        assert(0 < align - m < align);
        vstd::arithmetic::div_mod::lemma_small_mod((align - m) as nat, align as nat);
        assert(delta == align - m);
        assert(block + delta + offset == align * (q + 1)) by (nonlinear_arith)
            requires block + offset == align * q + m, delta == align - m;
        vstd::arithmetic::div_mod::lemma_mod_multiples_basic(q + 1, align);
    }
}


/// `size` bytes at an address `p` with `p % align == 0`.
pub fn malloc_aligned(heap: &mut Heap, src: &mut Sources, options: &Options, size: usize, align: usize)
    -> (r: Option<(usize, bool)>)
    requires
        old(heap).wf(),
        old(src).ready(*options),
    ensures
        final(heap).wf(),
        old(src).kept(*final(src), *options),
        !(is_power_of_two(align as int) && 1 <= align <= SEGMENT_SIZE / 2) ==> r is None && *final(heap) == *old(heap),
        r matches Some((p, _)) ==> (p as int) % (align as int) == 0,
        r is None && is_power_of_two(align as int) && 1 <= align <= SEGMENT_SIZE / 2 ==> aligned_refused(*old(heap),
            *final(heap), *old(src), *final(src), *options, size as int, align as int, 0),
        r matches Some((p, _)) ==> holds_bytes(*final(heap), p as int, size as int),
{
    heap.malloc_aligned_at(src, options, size, align, 0)
}

/// An aligned block the caller zeroes unless it is known zero.
pub fn zalloc_aligned(heap: &mut Heap, src: &mut Sources, options: &Options, size: usize, align: usize)
    -> (r: Option<(usize, bool)>)
    requires
        old(heap).wf(),
        old(src).ready(*options),
    ensures
        final(heap).wf(),
        old(src).kept(*final(src), *options),
        !(is_power_of_two(align as int) && 1 <= align <= SEGMENT_SIZE / 2) ==> r is None && *final(heap) == *old(heap),
        r matches Some((p, _)) ==> (p as int) % (align as int) == 0,
        r is None && is_power_of_two(align as int) && 1 <= align <= SEGMENT_SIZE / 2 ==> aligned_refused(*old(heap),
            *final(heap), *old(src), *final(src), *options, size as int, align as int, 0),
        r matches Some((p, _)) ==> holds_bytes(*final(heap), p as int, size as int),
{
    malloc_aligned(heap, src, options, size, align)
}

/// `count * size` bytes at an address `p` with `(p + offset) % align ==
/// 0`, `None` when the product overflows; the caller zeroes the block
/// unless it is known zero.
pub fn calloc_aligned_at(heap: &mut Heap, src: &mut Sources, options: &Options, count: usize, size: usize,
    align: usize, offset: usize) -> (r: Option<(usize, bool)>)
    requires
        old(heap).wf(),
        old(src).ready(*options),
    ensures
        final(heap).wf(),
        old(src).kept(*final(src), *options),
        count * size > usize::MAX ==> r is None && *final(heap) == *old(heap),
        !(is_power_of_two(align as int) && 1 <= align <= SEGMENT_SIZE / 2) ==> r is None && *final(heap) == *old(heap),
        r matches Some((p, _)) ==> (p + offset) % (align as int) == 0,
        r is None && count * size <= usize::MAX && is_power_of_two(align as int) && 1 <= align <= SEGMENT_SIZE / 2
            ==> aligned_refused(*old(heap), *final(heap), *old(src), *final(src), *options, count * size, align as int,
            offset as int),
        r matches Some((p, _)) ==> holds_bytes(*final(heap), p as int, count * size),
{
    match count.checked_mul(size) {
        Some(total) => heap.malloc_aligned_at(src, options, total, align, offset),
        None => None,
    }
}

/// `count * size` bytes at an address `p` with `p % align == 0`.
pub fn calloc_aligned(heap: &mut Heap, src: &mut Sources, options: &Options, count: usize, size: usize, align: usize)
    -> (r: Option<(usize, bool)>)
    requires
        old(heap).wf(),
        old(src).ready(*options),
    ensures
        final(heap).wf(),
        old(src).kept(*final(src), *options),
        count * size > usize::MAX ==> r is None && *final(heap) == *old(heap),
        !(is_power_of_two(align as int) && 1 <= align <= SEGMENT_SIZE / 2) ==> r is None && *final(heap) == *old(heap),
        r matches Some((p, _)) ==> (p as int) % (align as int) == 0,
        r is None && count * size <= usize::MAX && is_power_of_two(align as int) && 1 <= align <= SEGMENT_SIZE / 2
            ==> aligned_refused(*old(heap), *final(heap), *old(src), *final(src), *options, count * size, align as int, 0),
        r matches Some((p, _)) ==> holds_bytes(*final(heap), p as int, count * size),
{
    calloc_aligned_at(heap, src, options, count, size, align, 0)
}

/// Counters summed, each modulo `2^64`.
pub open spec fn stats_plus(a: Stats, b: Stats) -> Stats {
    Stats {
        allocs: a.allocs.wrapping_add(b.allocs),
        frees: a.frees.wrapping_add(b.frees),
        generic: a.generic.wrapping_add(b.generic),
        pages_fresh: a.pages_fresh.wrapping_add(b.pages_fresh),
        segments: a.segments.wrapping_add(b.segments),
        huge_allocs: a.huge_allocs.wrapping_add(b.huge_allocs),
        extends: a.extends.wrapping_add(b.extends),
        large_allocs: a.large_allocs.wrapping_add(b.large_allocs),
        pages_retired: a.pages_retired.wrapping_add(b.pages_retired),
        segments_freed: a.segments_freed.wrapping_add(b.segments_freed),
        realloc_in_place: a.realloc_in_place.wrapping_add(b.realloc_in_place),
        realloc_moved: a.realloc_moved.wrapping_add(b.realloc_moved),
        delayed_frees: a.delayed_frees.wrapping_add(b.delayed_frees),
        reclaims: a.reclaims.wrapping_add(b.reclaims),
        guarded: a.guarded.wrapping_add(b.guarded),
        purges: a.purges.wrapping_add(b.purges),
    }
}

/// The counters of `s` summed, from all zero.
pub open spec fn merged_spec(s: Seq<Stats>) -> Stats
    decreases s.len(),
{
    if s.len() == 0 { Stats::new_spec() } else { stats_plus(merged_spec(s.drop_last()), s.last()) }
}

/// `b`'s counters added to `a`'s.
fn stats_add(a: Stats, b: Stats) -> (r: Stats)
    ensures
        r == stats_plus(a, b),
{
    Stats {
        allocs: a.allocs.wrapping_add(b.allocs),
        frees: a.frees.wrapping_add(b.frees),
        generic: a.generic.wrapping_add(b.generic),
        pages_fresh: a.pages_fresh.wrapping_add(b.pages_fresh),
        segments: a.segments.wrapping_add(b.segments),
        huge_allocs: a.huge_allocs.wrapping_add(b.huge_allocs),
        extends: a.extends.wrapping_add(b.extends),
        large_allocs: a.large_allocs.wrapping_add(b.large_allocs),
        pages_retired: a.pages_retired.wrapping_add(b.pages_retired),
        segments_freed: a.segments_freed.wrapping_add(b.segments_freed),
        realloc_in_place: a.realloc_in_place.wrapping_add(b.realloc_in_place),
        realloc_moved: a.realloc_moved.wrapping_add(b.realloc_moved),
        delayed_frees: a.delayed_frees.wrapping_add(b.delayed_frees),
        reclaims: a.reclaims.wrapping_add(b.reclaims),
        guarded: a.guarded.wrapping_add(b.guarded),
        purges: a.purges.wrapping_add(b.purges),
    }
}

/// The counters of several heaps summed, each modulo `2^64`.
pub fn merged(all: &Vec<Stats>) -> (t: Stats)
    ensures
        t == merged_spec(all@),
{
    let mut t = Stats::new();
    let mut k: usize = 0;
    while k < all.len()
        invariant
            k <= all@.len(),
            t == merged_spec(all@.subrange(0, k as int)),
        decreases all@.len() - k,
    {
        let s = all[k];
        proof {
            let sub = all@.subrange(0, k as int + 1);
            assert(sub.drop_last() =~= all@.subrange(0, k as int));
            assert(sub.last() == s);
        }
        t = stats_add(t, s);
        k = k + 1;
    }
    proof {
        assert(all@.subrange(0, all@.len() as int) =~= all@);
    }
    t
}


/// The owner's free of an address the heap just handed out for a binned
/// size releases exactly that block of the page that served it, when that
/// page is the sole page of its segment at its slice: `free_local` of
/// `malloc`'s address gives `Released`, and the block is on its page's
/// free list again.
pub proof fn lemma_free_releases_malloc_block(h0: Heap, h1: Heap, h2: Heap, size: int, addr: usize, zero: bool,
    r: FreeOutcome)
    requires
        h1.wf(),
        0 <= size <= MEDIUM_OBJ_SIZE_MAX,
        binned_outcome(h0, h1, size, Some((addr, zero))),
        sole_queued_page(h1, spec_bin(size), 0),
        forall|b: int, k: int, i: int| free_candidate(h1, addr as int, b, k, i)
            ==> r == FreeOutcome::Released && #[trigger] queued_freed(h1, h2, b, k, i),
    ensures
        r == FreeOutcome::Released,
        exists|i: int| #[trigger] queued_freed(h1, h2, spec_bin(size), 0, i) && h1.queue(spec_bin(size))[0].block_addr(i) == addr,
{
    let b = spec_bin(size);
    let q = h0.queue(b);
    let (j, i) = choose|j: int, i: int|
        #![trigger parked_prefix(q, j, h0.queue(BIN_FULL as int), h1.queue(BIN_FULL as int)), h1.queue(b)[0].block_addr(i)]
    {
        &&& 0 <= j <= q.len()
        &&& parked_prefix(q, j, h0.queue(BIN_FULL as int), h1.queue(BIN_FULL as int))
        &&& addr == h1.queue(b)[0].block_addr(i)
        &&& zero == h1.queue(b)[0].zero_free()
        &&& j < q.len() ==> {
            &&& took_block(q[j], h1.queue(b)[0], i)
            &&& h1.queue(b).drop_first() == q.subrange(j + 1, q.len() as int)
        }
        &&& j == q.len() ==> {
            &&& h1.queue(b).len() == 1
            &&& i == 0
            &&& h1.queue(b)[0].is_allocated(0)
            &&& forall|x: int| x != 0 ==> !#[trigger] h1.queue(b)[0].is_allocated(x)
        }
    };
    let p = h1.queue(b)[0];
    lemma_bin_size_inverts_bin(size);
    assert(binned_ok(p, b));
    assert(p.is_allocated(i));
    assert(in_block(p, addr as int, i));
    lemma_sole_located(h1, b, 0, i, addr as int);
    let ks = choose|ks: int| 0 <= ks < h1.segs().len() && #[trigger] backed_by(p, h1.segs()[ks]);
    let seg = h1.segs()[ks];
    assert(seg.base_addr() == p.segment_base());
    assert(seg.wf());
    seg.lemma_wf_geometry();
    let base = seg.base_addr();
    assert(base <= addr < base + SEGMENT_SIZE) by (nonlinear_arith)
        requires base + HEADER_SLICES * SEGMENT_SLICE_SIZE <= addr, addr < base + seg.nfree() * SEGMENT_SLICE_SIZE,
            seg.nfree() <= SLICES_PER_SEGMENT, SEGMENT_SIZE == SLICES_PER_SEGMENT * SEGMENT_SLICE_SIZE;
    vstd::arithmetic::div_mod::lemma_fundamental_div_mod(base, SEGMENT_SIZE as int);
    let qb = base / (SEGMENT_SIZE as int);
    vstd::arithmetic::div_mod::lemma_fundamental_div_mod_converse(addr as int, SEGMENT_SIZE as int, qb, addr - base);
    assert(spec_segment_of(addr as int) == base);
    assert(free_candidate(h1, addr as int, b, 0, i));
    assert(queued_freed(h1, h2, b, 0, i));
}


/// A page a segment can carry while no thread owns it: a binned page of
/// its own bin, or a large page of one block.
pub open spec fn adoptable_page(p: Page) -> bool {
    ||| binned_ok(p, p.bin_of())
    ||| p.wf() && p.rsv() == 1 && p.bin_of() == BIN_HUGE
}

/// Some segment of `v` is the huge block `h`'s segment, handed back with
/// the block.
pub open spec fn handed_back(v: Seq<AbandonedSegment>, h: HugeBlock) -> bool {
    exists|j: int| {
        &&& 0 <= j < v.len()
        &&& #[trigger] v[j].segment().base_addr() == h.seg.base_addr()
        &&& v[j].segment().seg_kind() == SegmentKind::Huge
        &&& v[j].huge_block() == (h.block, h.size)
    }
}

/// Some segment of `v` is the Normal segment at `base`.
pub open spec fn segment_handed_back(v: Seq<AbandonedSegment>, base: int) -> bool {
    exists|j: int| 0 <= j < v.len() && #[trigger] v[j].segment().base_addr() == base
        && v[j].segment().seg_kind() == SegmentKind::Normal
}

/// Pages carved from the segment at `base`.
pub open spec fn carved_at(base: usize) -> spec_fn(Page) -> bool {
    |p: Page| p.segment_base() == base
}

/// Pages carved from another segment than the one at `base`.
pub open spec fn carved_elsewhere(base: usize) -> spec_fn(Page) -> bool {
    |p: Page| p.segment_base() != base
}

/// `q` is page `p` collected and set to take other threads' frees itself,
/// as a page of an abandoned segment does.
pub open spec fn parked_for_adoption(p: Page, q: Page) -> bool {
    &&& q.same_geometry(p)
    &&& q.xflag_of() == XFlag::Never
    &&& q.flag_bits() == p.flag_bits()
    &&& q.xthread_list().len() == 0
    &&& q.used_count() == p.used_count() - p.xthread_list().len()
    &&& forall|j: int| #[trigger] q.is_allocated(j) == p.is_allocated(j)
}

/// A segment a finished thread left behind, with the pages carved from it
/// (none for a huge block's segment, which carries its block instead).
pub struct AbandonedSegment {
    seg: Segment,
    pages: Vec<Page>,
    block: usize,
    size: usize,
    freed: bool,
}

impl AbandonedSegment {
    /// The segment.
    pub closed spec fn segment(&self) -> Segment {
        self.seg
    }

    /// Its pages.
    pub closed spec fn page_list(&self) -> Seq<Page> {
        self.pages@
    }

    /// A huge segment's block and the size asked for it.
    pub closed spec fn huge_block(&self) -> (usize, usize) {
        (self.block, self.size)
    }

    /// A huge segment's block was freed while the segment was abandoned.
    pub closed spec fn block_freed(&self) -> bool {
        self.freed
    }

    /// No thread owns it; a Normal segment carries pages of its own, a huge
    /// one none.
    pub open spec fn wf(&self) -> bool {
        &&& self.segment().wf()
        &&& self.segment().owner() == 0
        &&& self.segment().seg_kind() == SegmentKind::Normal ==> {
            &&& self.segment().total() == SEGMENT_SIZE
            &&& forall|k: int| 0 <= k < self.page_list().len() ==> {
                &&& adoptable_page(#[trigger] self.page_list()[k])
                &&& self.page_list()[k].segment_base() == self.segment().base_addr()
                &&& self.page_list()[k].xflag_of() == XFlag::Never
            }
        }
        &&& self.segment().seg_kind() == SegmentKind::Huge ==> self.page_list().len() == 0
    }

    /// Every value of the type is well formed.
    #[verifier::type_invariant]
    spec fn inv(&self) -> bool {
        self.wf()
    }

    /// The segment's base address.
    pub fn base(&self) -> (b: usize)
        ensures
            b == self.segment().base_addr(),
    {
        self.seg.base()
    }

    /// Pages it carries.
    pub fn page_count(&self) -> (n: usize)
        ensures
            n == self.page_list().len(),
    {
        self.pages.len()
    }
}

impl Heap {
    /// The invariant holds once every queue and the unqueued pages are
    /// empty, segments and huge blocks well formed.
    proof fn lemma_wf_empty_pages(b: Heap)
        requires
            b.queues.count() == BIN_COUNT,
            forall|c: int| 0 <= c < BIN_COUNT ==> #[trigger] b.queue(c).len() == 0,
            b.single_pages().len() == 0,
            b.rng.wf(),
            forall|k: int| 0 <= k < b.segs().len() ==> {
                &&& (#[trigger] b.segs()[k]).wf()
                &&& b.segs()[k].seg_kind() == SegmentKind::Normal
                &&& b.segs()[k].total() == SEGMENT_SIZE
            },
            forall|k: int| 0 <= k < b.huges().len() ==> {
                &&& (#[trigger] b.huges()[k]).seg.wf()
                &&& b.huges()[k].seg.seg_kind() == SegmentKind::Huge
            },
        ensures
            b.wf(),
    {
        assert(b.queue(BIN_FULL as int).len() == 0);
        assert forall|bb: int| (bb == 0 || bb == BIN_HUGE) implies #[trigger] b.queue(bb).len() == 0 by {}
    }

    /// Take every page out of the queues and the unqueued pages.
    fn drain_pages(&mut self) -> (all: Vec<Page>)
        requires
            old(self).wf(),
        ensures
            final(self).wf(),
            forall|c: int| 0 <= c < BIN_COUNT ==> #[trigger] final(self).queue(c).len() == 0,
            final(self).single_pages().len() == 0,
            final(self).segments@ == old(self).segments@,
            final(self).huge@ == old(self).huge@,
            final(self).delayed@ == old(self).delayed@,
            final(self).thread_id == old(self).thread_id,
            forall|k: int| 0 <= k < all@.len() ==> adoptable_page(#[trigger] all@[k]),
    {
        let mut all: Vec<Page> = Vec::new();
        let mut b: usize = 0;
        while b < BIN_COUNT
            invariant
                self.queues.count() == BIN_COUNT,
                self.rng.wf(),
                b <= BIN_COUNT,
                forall|c: int| 0 <= c < b ==> #[trigger] self.queue(c).len() == 0,
                forall|c: int| b <= c < BIN_COUNT ==> #[trigger] self.queue(c) == old(self).queue(c),
                self.singles@ == old(self).singles@,
                self.segments@ == old(self).segments@,
                self.huge@ == old(self).huge@,
                self.delayed@ == old(self).delayed@,
                self.thread_id == old(self).thread_id,
                old(self).wf(),
                forall|k: int| 0 <= k < all@.len() ==> adoptable_page(#[trigger] all@[k]),
            decreases BIN_COUNT - b,
        {
            proof {
                assert forall|k: int| 0 <= k < self.queue(b as int).len() implies adoptable_page(#[trigger] self.queue(b as int)[k]) by {
                    assert(self.queue(b as int) == old(self).queue(b as int));
                    if b == 0 || b == BIN_HUGE {
                        assert(old(self).queue(b as int).len() == 0);
                    } else if b == BIN_FULL {
                        assert(binned_ok(old(self).queue(b as int)[k], old(self).queue(b as int)[k].bin_of()));
                    } else {
                        assert(binned_ok(old(self).queue(b as int)[k], b as int));
                    }
                }
            }
            while self.queues.len(b) > 0
                invariant
                    self.queues.count() == BIN_COUNT,
                    self.rng.wf(),
                    b < BIN_COUNT,
                    forall|c: int| 0 <= c < b ==> #[trigger] self.queue(c).len() == 0,
                    forall|c: int| b < c < BIN_COUNT ==> #[trigger] self.queue(c) == old(self).queue(c),
                    forall|k: int| 0 <= k < self.queue(b as int).len() ==> adoptable_page(#[trigger] self.queue(b as int)[k]),
                    self.singles@ == old(self).singles@,
                    self.segments@ == old(self).segments@,
                    self.huge@ == old(self).huge@,
                    self.delayed@ == old(self).delayed@,
                    self.thread_id == old(self).thread_id,
                    old(self).wf(),
                    forall|k: int| 0 <= k < all@.len() ==> adoptable_page(#[trigger] all@[k]),
                decreases self.queue(b as int).len(),
            {
                let ghost before = *self;
                let p = self.queues.take(b, 0);
                proof {
                    assert(adoptable_page(before.queue(b as int)[0]));
                    assert forall|k: int| 0 <= k < self.queue(b as int).len() implies adoptable_page(#[trigger] self.queue(b as int)[k]) by {
                        assert(self.queue(b as int)[k] == before.queue(b as int)[k + 1]);
                    }
                    assert forall|c: int| b < c < BIN_COUNT implies #[trigger] self.queue(c) == old(self).queue(c) by {
                        assert(self.queue(c) == before.queue(c));
                    }
                    assert forall|c: int| 0 <= c < b implies #[trigger] self.queue(c).len() == 0 by {
                        assert(self.queue(c) == before.queue(c));
                    }
                }
                all.push(p);
            }
            b = b + 1;
        }
        proof {
            assert forall|k: int| 0 <= k < self.single_pages().len() implies {
                &&& (#[trigger] self.single_pages()[k]).wf()
                &&& self.single_pages()[k].rsv() == 1
                &&& self.single_pages()[k].bin_of() == BIN_HUGE
            } by {
                assert(self.single_pages()[k] == old(self).single_pages()[k]);
            }
        }
        while self.singles.len() > 0
            invariant
                self.queues.count() == BIN_COUNT,
                self.rng.wf(),
                forall|c: int| 0 <= c < BIN_COUNT ==> #[trigger] self.queue(c).len() == 0,
                forall|k: int| 0 <= k < self.single_pages().len() ==> {
                    &&& (#[trigger] self.single_pages()[k]).wf()
                    &&& self.single_pages()[k].rsv() == 1
                    &&& self.single_pages()[k].bin_of() == BIN_HUGE
                },
                self.segments@ == old(self).segments@,
                self.huge@ == old(self).huge@,
                self.delayed@ == old(self).delayed@,
                self.thread_id == old(self).thread_id,
                old(self).wf(),
                forall|k: int| 0 <= k < all@.len() ==> adoptable_page(#[trigger] all@[k]),
            decreases self.single_pages().len(),
        {
            let ghost before = *self;
            let p = self.singles.pop().unwrap();
            proof {
                assert(p == before.single_pages()[before.single_pages().len() - 1]);
                assert forall|c: int| 0 <= c < BIN_COUNT implies #[trigger] self.queue(c).len() == 0 by {
                    assert(self.queue(c) == before.queue(c));
                }
            }
            all.push(p);
        }
        proof {
            assert forall|k: int| 0 <= k < self.segs().len() implies {
                &&& (#[trigger] self.segs()[k]).wf()
                &&& self.segs()[k].seg_kind() == SegmentKind::Normal
                &&& self.segs()[k].total() == SEGMENT_SIZE
            } by {
                assert(self.segs()[k] == old(self).segs()[k]);
            }
            assert forall|k: int| 0 <= k < self.huges().len() implies {
                &&& (#[trigger] self.huges()[k]).seg.wf()
                &&& self.huges()[k].seg.seg_kind() == SegmentKind::Huge
            } by {
                assert(self.huges()[k] == old(self).huges()[k]);
            }
            Self::lemma_wf_empty_pages(*self);
        }
        all
    }
}


impl Heap {
    /// The pages of `all` carved from the segment at `base`, collected and
    /// taking other threads' frees themselves, and the rest.
    fn split_pages(all: Vec<Page>, base: usize) -> (r: (Vec<Page>, Vec<Page>))
        requires
            forall|k: int| 0 <= k < all@.len() ==> adoptable_page(#[trigger] all@[k]),
        ensures
            forall|k: int| 0 <= k < r.0@.len() ==> {
                &&& adoptable_page(#[trigger] r.0@[k])
                &&& r.0@[k].segment_base() == base
                &&& r.0@[k].xflag_of() == XFlag::Never
            },
            forall|k: int| 0 <= k < r.1@.len() ==> adoptable_page(#[trigger] r.1@[k]),
            r.1@ == all@.filter(carved_elsewhere(base)),
            r.0@.len() == all@.filter(carved_at(base)).len(),
            forall|k: int| 0 <= k < r.0@.len() ==> parked_for_adoption(all@.filter(carved_at(base))[k], #[trigger] r.0@[k]),
    {
        let ghost orig = all@;
        let mut all = all;
        let mut mine: Vec<Page> = Vec::new();
        let mut rest: Vec<Page> = Vec::new();
        let ghost mut i: int = 0;
        while all.len() > 0
            invariant
                0 <= i <= orig.len(),
                all@ == orig.subrange(i, orig.len() as int),
                forall|k: int| 0 <= k < orig.len() ==> adoptable_page(#[trigger] orig[k]),
                forall|k: int| 0 <= k < mine@.len() ==> {
                    &&& adoptable_page(#[trigger] mine@[k])
                    &&& mine@[k].segment_base() == base
                    &&& mine@[k].xflag_of() == XFlag::Never
                },
                forall|k: int| 0 <= k < rest@.len() ==> adoptable_page(#[trigger] rest@[k]),
                rest@ == orig.take(i).filter(carved_elsewhere(base)),
                mine@.len() == orig.take(i).filter(carved_at(base)).len(),
                forall|k: int| 0 <= k < mine@.len() ==> parked_for_adoption(orig.take(i).filter(carved_at(base))[k], #[trigger] mine@[k]),
            decreases all@.len(),
        {
            let ghost a0 = all@;
            let mut p = all.remove(0);
            let ghost t0 = orig.take(i);
            let ghost t1 = orig.take(i + 1);
            proof {
                assert(p == orig[i]);
                assert(adoptable_page(p));
                assert(all@ =~= orig.subrange(i + 1, orig.len() as int));
                assert(t1.drop_last() =~= t0);
                assert(t1.last() == p);
                assert(t1.len() > 0);
                reveal(Seq::filter);
            }
            if p.position().0 == base {
                let ghost p0 = p;
                p.collect();
                p.set_xflag(XFlag::Never);
                proof {
                    if binned_ok(p0, p0.bin_of()) {
                        assert(binned_ok(p, p.bin_of()));
                    }
                    assert(adoptable_page(p));
                    assert(carved_at(base)(p0));
                    assert(!carved_elsewhere(base)(p0));
                    assert(t1.filter(carved_at(base)) == t0.filter(carved_at(base)).push(p0));
                    assert(t1.filter(carved_elsewhere(base)) == t0.filter(carved_elsewhere(base)));
                    assert(parked_for_adoption(p0, p));
                }
                let ghost m0 = mine@;
                mine.push(p);
                proof {
                    assert forall|k: int| 0 <= k < mine@.len() implies parked_for_adoption(t1.filter(carved_at(base))[k], #[trigger] mine@[k]) by {
                        if k < m0.len() {
                            assert(mine@[k] == m0[k]);
                        }
                    }
                }
            } else {
                proof {
                    assert(!carved_at(base)(p));
                    assert(carved_elsewhere(base)(p));
                    assert(t1.filter(carved_at(base)) == t0.filter(carved_at(base)));
                    assert(t1.filter(carved_elsewhere(base)) == t0.filter(carved_elsewhere(base)).push(p));
                }
                rest.push(p);
            }
            proof {
                i = i + 1;
            }
        }
        proof {
            assert(orig.take(i) =~= orig);
        }
        (mine, rest)
    }

    /// The heap's thread is done: what is already dead is retired, then
    /// every segment is handed back with the pages carved from it, each
    /// page collected and taking other threads' frees itself, and its free
    /// spans purged; a segment with no live page is released instead (and
    /// abandoned when its memory is found free already); huge blocks'
    /// segments are handed back with their blocks. The heap is left with no
    /// segment and no page.
    pub fn abandon_all(&mut self, src: &mut Sources, options: &Options) -> (v: Vec<AbandonedSegment>)
        requires
            old(self).wf(),
            old(src).ready(*options),
        ensures
            final(self).wf(),
            old(src).kept(*final(src), *options),
            final(self).segs().len() == 0,
            final(self).huges().len() == 0,
            final(self).single_pages().len() == 0,
            forall|c: int| 0 <= c < BIN_COUNT ==> #[trigger] final(self).queue(c).len() == 0,
            forall|k: int| 0 <= k < v@.len() ==> (#[trigger] v@[k]).wf() && !v@[k].block_freed(),
            old(self).delayed_list().len() == 0 ==> forall|k: int| 0 <= k < old(self).huges().len()
                ==> #[trigger] handed_back(v@, old(self).huges()[k]),
    {
        self.collect_for_teardown(src, options);
        self.abandon_collected(src, options)
    }

    /// Hand back everything the heap holds, as `abandon_all` does once the
    /// heap is collected: every Normal segment with a live page goes back
    /// (one with none is released, or handed back when its memory is found
    /// free already), and every huge block's segment with its block. The
    /// heap is left with no segment and no page.
    #[verifier::spinoff_prover]
    #[verifier::rlimit(60)]
    pub fn abandon_collected(&mut self, src: &mut Sources, options: &Options) -> (v: Vec<AbandonedSegment>)
        requires
            old(self).wf(),
            old(src).ready(*options),
        ensures
            final(self).wf(),
            old(src).kept(*final(src), *options),
            final(self).segs().len() == 0,
            final(self).huges().len() == 0,
            final(self).single_pages().len() == 0,
            forall|c: int| 0 <= c < BIN_COUNT ==> #[trigger] final(self).queue(c).len() == 0,
            forall|k: int| 0 <= k < v@.len() ==> (#[trigger] v@[k]).wf() && !v@[k].block_freed(),
            forall|k: int| 0 <= k < old(self).huges().len() ==> #[trigger] handed_back(v@, old(self).huges()[k]),
            forall|k: int| 0 <= k < old(self).segs().len() && #[trigger] old(self).segs()[k].used() > 0
                ==> segment_handed_back(v@, old(self).segs()[k].base_addr()),
    {
        let ghost s0 = *src;
        let ghost hm = self.huges();
        let ghost sm = self.segs();
        let mut all = self.drain_pages();
        let mut out: Vec<AbandonedSegment> = Vec::new();
        while self.segments.len() > 0
            invariant
                self.wf(),
                forall|c: int| 0 <= c < BIN_COUNT ==> #[trigger] self.queue(c).len() == 0,
                self.single_pages().len() == 0,
                src.ready(*options),
                s0.kept(*src, *options),
                s0.ready(*options),
                forall|k: int| 0 <= k < all@.len() ==> adoptable_page(#[trigger] all@[k]),
                forall|k: int| 0 <= k < out@.len() ==> (#[trigger] out@[k]).wf() && !out@[k].block_freed(),
                self.huges() == hm,
                self.segs().len() <= sm.len(),
                self.segs() == sm.take(self.segs().len() as int),
                forall|k: int| self.segs().len() <= k < sm.len() && #[trigger] sm[k].used() > 0
                    ==> segment_handed_back(out@, sm[k].base_addr()),
            decreases self.segs().len(),
        {
            let ghost before = *self;
            let ghost o0 = out@;
            let mut seg = self.segments.pop().unwrap();
            proof {
                assert(seg == before.segs()[before.segs().len() - 1]);
                assert forall|j: int| 0 <= j < self.segs().len() implies {
                    &&& (#[trigger] self.segs()[j]).wf()
                    &&& self.segs()[j].seg_kind() == SegmentKind::Normal
                    &&& self.segs()[j].total() == SEGMENT_SIZE
                } by {
                    assert(self.segs()[j] == before.segs()[j]);
                }
                Self::lemma_wf_segments(before, *self);
                seg.lemma_wf_geometry();
                assert forall|c: int| 0 <= c < BIN_COUNT implies #[trigger] self.queue(c).len() == 0 by {
                    assert(self.queue(c) == before.queue(c));
                }
            }
            let base = seg.base();
            let (mine, rest) = Self::split_pages(all, base);
            all = rest;
            if seg.used_pages() == 0 {
                proof {
                    crate::segment::lemma_page_align_segments(1);
                    assert(FixedRegion::placed_size(SEGMENT_SIZE as int) == SEGMENT_SIZE) by {
                        assert(crate::os::spec_page_align_up(SEGMENT_SIZE as int)
                            == crate::prim::spec_align_up(SEGMENT_SIZE as int, FIXED_PAGE as int));
                    }
                }
                if src.region.range_not_free(base, SEGMENT_SIZE) {
                    let _ = crate::segment::segment_free(seg, &mut src.arenas, &mut src.region, &mut src.map);
                    let ghost b1 = *self;
                    self.stats.segments_freed = inc(self.stats.segments_freed);
                    proof {
                        Self::lemma_wf_frame(b1, *self);
                        assert forall|c: int| 0 <= c < BIN_COUNT implies #[trigger] self.queue(c).len() == 0 by {
                            assert(self.queue(c) == b1.queue(c));
                        }
                        let n = before.segs().len();
                        assert(self.segs() =~= sm.take(n - 1));
                        assert(sm[n - 1].used() == 0);
                    }
                    continue;
                }
            }
            seg.purge_free_spans(options);
            seg.set_thread_id(0);
            let ab = AbandonedSegment { seg, pages: mine, block: 0, size: 0, freed: false };
            proof {
                assert(ab.wf());
            }
            out.push(ab);
            proof {
                assert forall|k: int| 0 <= k < out@.len() implies (#[trigger] out@[k]).wf() && !out@[k].block_freed() by {
                    if k < out@.len() - 1 {
                    }
                }
                let n = before.segs().len();
                assert(self.segs() =~= sm.take(n - 1));
                assert(out@[o0.len() as int] == ab);
                assert(ab.segment().base_addr() == base);
                assert forall|k: int| self.segs().len() <= k < sm.len() && #[trigger] sm[k].used() > 0
                    implies segment_handed_back(out@, sm[k].base_addr()) by {
                    if k == n - 1 {
                        assert(out@[o0.len() as int].segment().base_addr() == sm[k].base_addr());
                    } else {
                        let j = choose|j: int| 0 <= j < o0.len() && #[trigger] o0[j].segment().base_addr() == sm[k].base_addr()
                            && o0[j].segment().seg_kind() == SegmentKind::Normal;
                        assert(out@[j] == o0[j]);
                    }
                }
            }
        }
        proof {
            assert(self.huges() =~= hm.take(hm.len() as int));
        }
        while self.huge.len() > 0
            invariant
                self.wf(),
                self.segs().len() == 0,
                forall|c: int| 0 <= c < BIN_COUNT ==> #[trigger] self.queue(c).len() == 0,
                self.single_pages().len() == 0,
                forall|k: int| 0 <= k < out@.len() ==> (#[trigger] out@[k]).wf() && !out@[k].block_freed(),
                self.huges().len() <= hm.len(),
                self.huges() == hm.take(self.huges().len() as int),
                forall|k: int| 0 <= k < sm.len() && #[trigger] sm[k].used() > 0
                    ==> segment_handed_back(out@, sm[k].base_addr()),
                forall|k: int| self.huges().len() <= k < hm.len() ==> #[trigger] handed_back(out@, hm[k]),
            decreases self.huges().len(),
        {
            let ghost before = *self;
            let ghost o0 = out@;
            let hb = self.huge.pop().unwrap();
            proof {
                assert(hb == before.huges()[before.huges().len() - 1]);
                assert forall|j: int| 0 <= j < self.huges().len() implies {
                    &&& (#[trigger] self.huges()[j]).seg.wf()
                    &&& self.huges()[j].seg.seg_kind() == SegmentKind::Huge
                } by {
                    assert(self.huges()[j] == before.huges()[j]);
                }
                Self::lemma_wf_singles_huges(before, *self);
                assert forall|c: int| 0 <= c < BIN_COUNT implies #[trigger] self.queue(c).len() == 0 by {
                    assert(self.queue(c) == before.queue(c));
                }
            }
            let mut seg = hb.seg;
            seg.set_thread_id(0);
            let ab = AbandonedSegment { seg, pages: Vec::new(), block: hb.block, size: hb.size, freed: false };
            proof {
                assert(ab.page_list().len() == 0);
                assert(ab.wf());
            }
            out.push(ab);
            proof {
                let n = before.huges().len();
                assert(hb == hm[n - 1]);
                assert(self.huges() =~= hm.take(n - 1));
                assert(out@[out@.len() - 1] == ab);
                assert(ab.segment().base_addr() == hb.seg.base_addr());
                assert forall|k: int| 0 <= k < sm.len() && #[trigger] sm[k].used() > 0
                    implies segment_handed_back(out@, sm[k].base_addr()) by {
                    let j = choose|j: int| 0 <= j < o0.len() && #[trigger] o0[j].segment().base_addr() == sm[k].base_addr()
                        && o0[j].segment().seg_kind() == SegmentKind::Normal;
                    assert(out@[j] == o0[j]);
                }
                assert forall|k: int| self.huges().len() <= k < hm.len() implies #[trigger] handed_back(out@, hm[k]) by {
                    if k == n - 1 {
                        assert(out@[o0.len() as int].segment().base_addr() == hm[k].seg.base_addr());
                    } else {
                        assert(handed_back(o0, hm[k]));
                        let j = choose|j: int| {
                            &&& 0 <= j < o0.len()
                            &&& #[trigger] o0[j].segment().base_addr() == hm[k].seg.base_addr()
                            &&& o0[j].segment().seg_kind() == SegmentKind::Huge
                            &&& o0[j].huge_block() == (hm[k].block, hm[k].size)
                        };
                        assert(out@[j] == o0[j]);
                    }
                }
            }
        }
        let ghost b2 = *self;
        self.empty_segments = 0;
        proof {
            Self::lemma_wf_frame(b2, *self);
            assert forall|c: int| 0 <= c < BIN_COUNT implies #[trigger] self.queue(c).len() == 0 by {
                assert(self.queue(c) == b2.queue(c));
            }
            assert(b2.huges().len() == 0);
        }
        out
    }
}


impl Heap {
    /// The position of the first unqueued page of the segment at `base`
    /// with no block in use.
    fn find_dead_single(&self, base: usize) -> (r: Option<usize>)
        ensures
            r matches Some(k) ==> k < self.single_pages().len() && self.single_pages()[k as int].segment_base() == base
                && self.single_pages()[k as int].used_count() == 0
                && forall|j: int| 0 <= j < k ==> !(#[trigger] self.single_pages()[j].segment_base() == base
                    && self.single_pages()[j].used_count() == 0),
            r is None ==> forall|j: int| 0 <= j < self.single_pages().len() ==>
                !(#[trigger] self.single_pages()[j].segment_base() == base && self.single_pages()[j].used_count() == 0),
    {
        let n = self.singles.len();
        let mut k: usize = 0;
        while k < n
            invariant
                n == self.single_pages().len(),
                k <= n,
                forall|j: int| 0 <= j < k ==> !(#[trigger] self.single_pages()[j].segment_base() == base
                    && self.single_pages()[j].used_count() == 0),
            decreases n - k,
        {
            if self.singles[k].position().0 == base && self.singles[k].used() == 0 {
                return Some(k);
            }
            k = k + 1;
        }
        None
    }

    /// Adopt a segment a finished thread left behind: this heap's thread
    /// owns it from now. A huge block joins the heap's huge blocks, or, when
    /// it was freed meanwhile, its segment is released. A
    /// Normal segment goes first in the segment list, its binned pages to
    /// the front of their bins' queues (no longer parked, taking other
    /// threads' frees themselves) and its large pages to the unqueued ones
    /// (routing such frees to the delayed list), each collected; then its
    /// first large page with no block in use is retired, and a segment left
    /// with no live page is parked when none is, else released. `false`
    /// when the segment was released.
    #[verifier::spinoff_prover]
    #[verifier::rlimit(60)]
    pub fn adopt_segment(&mut self, src: &mut Sources, options: &Options, ab: AbandonedSegment) -> (kept: bool)
        requires
            old(self).wf(),
            old(src).ready(*options),
        ensures
            final(self).wf(),
            old(src).kept(*final(src), *options),
            ab.segment().seg_kind() == SegmentKind::Huge ==> kept == !ab.block_freed(),
            ab.segment().seg_kind() == SegmentKind::Huge && ab.block_freed() ==> {
                &&& final(self).huges() == old(self).huges()
                &&& final(self).segs() == old(self).segs()
            },
            ab.segment().seg_kind() == SegmentKind::Huge && !ab.block_freed() ==> {
                &&& final(self).huges().len() == old(self).huges().len() + 1
                &&& final(self).huges()[0].seg.base_addr() == ab.segment().base_addr()
                &&& final(self).huges()[0].seg.owner() == old(self).owner()
                &&& (final(self).huges()[0].block, final(self).huges()[0].size) == ab.huge_block()
                &&& final(self).huges().drop_first() == old(self).huges()
            },
            ab.segment().seg_kind() == SegmentKind::Normal && kept ==> exists|k: int|
                0 <= k < final(self).segs().len() && #[trigger] final(self).segs()[k].base_addr() == ab.segment().base_addr(),
            ab.segment().seg_kind() == SegmentKind::Normal && ab.segment().used() >= 2 ==> kept,
    {
        proof {
            use_type_invariant(&ab);
        }
        let ghost pre = *self;
        let AbandonedSegment { seg, pages, block, size, freed } = ab;
        let mut seg = seg;
        seg.set_thread_id(self.thread_id);
        let base = seg.base();
        let ghost s0 = *src;
        if seg.kind() == SegmentKind::Huge {
            let ghost hb = HugeBlock { seg, block, size };
            self.huge.insert(0, HugeBlock { seg, block, size });
            self.stats.reclaims = inc(self.stats.reclaims);
            proof {
                assert(self.huges() =~= seq![hb] + pre.huges());
                assert forall|j: int| 0 <= j < self.huges().len() implies {
                    &&& (#[trigger] self.huges()[j]).seg.wf()
                    &&& self.huges()[j].seg.seg_kind() == SegmentKind::Huge
                } by {
                    if j > 0 {
                        assert(self.huges()[j] == pre.huges()[j - 1]);
                    }
                }
                assert forall|j: int| 0 <= j < self.single_pages().len() implies {
                    &&& (#[trigger] self.single_pages()[j]).wf()
                    &&& self.single_pages()[j].rsv() == 1
                    &&& self.single_pages()[j].bin_of() == BIN_HUGE
                } by {
                    assert(self.single_pages()[j] == pre.single_pages()[j]);
                }
                Self::lemma_wf_singles_huges(pre, *self);
                assert(self.huges().drop_first() =~= pre.huges());
            }
            if freed {
                let ghost mid = *self;
                self.free_huge(src, options, 0);
                proof {
                    assert(self.huges() =~= pre.huges());
                }
                return false;
            }
            return true;
        }
        let ghost sg = seg;
        self.segments.insert(0, seg);
        self.stats.reclaims = inc(self.stats.reclaims);
        proof {
            assert(self.segs() =~= seq![sg] + pre.segs());
            assert forall|j: int| 0 <= j < self.segs().len() implies {
                &&& (#[trigger] self.segs()[j]).wf()
                &&& self.segs()[j].seg_kind() == SegmentKind::Normal
                &&& self.segs()[j].total() == SEGMENT_SIZE
            } by {
                if j > 0 {
                    assert(self.segs()[j] == pre.segs()[j - 1]);
                }
            }
            Self::lemma_wf_segments(pre, *self);
            assert(self.segs()[0].base_addr() == base);
        }
        let mut pages = pages;
        proof {
            assert(pages@ == ab.page_list());
            assert(ab.segment().seg_kind() == SegmentKind::Normal);
            assert forall|k: int| 0 <= k < pages@.len() implies adoptable_page(#[trigger] pages@[k]) by {
                assert(adoptable_page(ab.page_list()[k]));
            }
        }
        while pages.len() > 0
            invariant
                self.wf(),
                self.segs().len() >= 1,
                self.segs()[0].base_addr() == base,
                self.segs()[0].used() == ab.segment().used(),
                base == sg.base_addr(),
                forall|k: int| 0 <= k < pages@.len() ==> adoptable_page(#[trigger] pages@[k]),
            decreases pages@.len(),
        {
            let ghost before = *self;
            let ghost pv = pages@;
            let mut p = pages.pop().unwrap();
            proof {
                assert(p == pv[pv.len() - 1]);
                assert(adoptable_page(p));
                assert forall|k: int| 0 <= k < pages@.len() implies adoptable_page(#[trigger] pages@[k]) by {
                    assert(pages@[k] == pv[k]);
                }
            }
            if (p.bin() as usize) < BIN_HUGE {
                let f = p.flags();
                p.set_flags(f & !IN_FULL);
                p.set_xflag(XFlag::Normal);
                p.collect();
                let bin = p.bin() as usize;
                let ghost q = p;
                proof {
                    assert(binned_ok(q, bin as int));
                }
                self.queues.put(bin, 0, p);
                proof {
                    assert(self.queue(bin as int) =~= seq![q] + before.queue(bin as int));
                    assert forall|j: int| 0 <= j < self.queue(bin as int).len() implies
                        #[trigger] binned_ok(self.queue(bin as int)[j], bin as int) by {
                        if j > 0 {
                            assert(self.queue(bin as int)[j] == before.queue(bin as int)[j - 1]);
                        }
                    }
                    assert forall|j: int| 0 <= j < self.queue(BIN_FULL as int).len() implies
                        #[trigger] binned_ok(self.queue(BIN_FULL as int)[j], self.queue(BIN_FULL as int)[j].bin_of()) by {
                        assert(self.queue(BIN_FULL as int)[j] == before.queue(BIN_FULL as int)[j]);
                    }
                    Self::lemma_wf_queues_change(before, *self, bin as int, BIN_FULL as int);
                }
            } else {
                p.set_xflag(XFlag::Delayed);
                p.collect();
                let ghost q = p;
                self.singles.insert(0, p);
                proof {
                    assert(self.single_pages() =~= seq![q] + before.single_pages());
                    assert forall|j: int| 0 <= j < self.single_pages().len() implies {
                        &&& (#[trigger] self.single_pages()[j]).wf()
                        &&& self.single_pages()[j].rsv() == 1
                        &&& self.single_pages()[j].bin_of() == BIN_HUGE
                    } by {
                        if j > 0 {
                            assert(self.single_pages()[j] == before.single_pages()[j - 1]);
                        }
                    }
                    assert forall|j: int| 0 <= j < self.huges().len() implies {
                        &&& (#[trigger] self.huges()[j]).seg.wf()
                        &&& self.huges()[j].seg.seg_kind() == SegmentKind::Huge
                    } by {
                        assert(self.huges()[j] == before.huges()[j]);
                    }
                    Self::lemma_wf_singles_huges(before, *self);
                }
            }
        }
        if let Some(k) = self.find_dead_single(base) {
            let ghost before = *self;
            let pg = self.singles.remove(k);
            let pos = pg.position();
            proof {
                assert(self.single_pages() =~= before.single_pages().remove(k as int));
                assert forall|j: int| 0 <= j < self.single_pages().len() implies {
                    &&& (#[trigger] self.single_pages()[j]).wf()
                    &&& self.single_pages()[j].rsv() == 1
                    &&& self.single_pages()[j].bin_of() == BIN_HUGE
                } by {
                    if j < k {
                        assert(self.single_pages()[j] == before.single_pages()[j]);
                    } else {
                        assert(self.single_pages()[j] == before.single_pages()[j + 1]);
                    }
                }
                assert forall|j: int| 0 <= j < self.huges().len() implies {
                    &&& (#[trigger] self.huges()[j]).seg.wf()
                    &&& self.huges()[j].seg.seg_kind() == SegmentKind::Huge
                } by {
                    assert(self.huges()[j] == before.huges()[j]);
                }
                Self::lemma_wf_singles_huges(before, *self);
            }
            let ghost b4 = *self;
            self.retire_page(src, options, pos.0, pos.1);
            proof {
                if ab.segment().used() >= 2 {
                    assert(b4.segs()[0].base_addr() == base);
                    if exists|k: int| 0 <= k < b4.segs().len() && #[trigger] b4.segs()[k].base_addr() == pos.0
                        && retire_outcome(b4, *self, k, pos.1 as int) {
                        let k = choose|k: int| 0 <= k < b4.segs().len() && #[trigger] b4.segs()[k].base_addr() == pos.0
                            && retire_outcome(b4, *self, k, pos.1 as int);
                        if k == 0 {
                            assert(self.segs()[0].base_addr() == base);
                            assert(self.segs()[0].used() >= 1);
                        } else {
                            assert(self.segs()[0] == b4.segs()[0]);
                        }
                    }
                    assert(self.segs().len() >= 1);
                    assert(self.segs()[0].base_addr() == base);
                    assert(self.segs()[0].used() >= 1);
                }
            }
        } else {
            proof {
                assert(self.segs()[0].used() == ab.segment().used());
            }
        }
        match self.find_segment(base) {
            None => false,
            Some(k) => {
                proof {
                    assert(self.segs()[k as int].wf());
                    self.segs()[k as int].lemma_wf_geometry();
                }
                if self.segments[k].used_pages() == 0 {
                    if self.empty_segments == 0 {
                        let ghost b1 = *self;
                        self.empty_segments = 1;
                        proof {
                            Self::lemma_wf_frame(b1, *self);
                        }
                        return true;
                    }
                    proof {
                        crate::segment::lemma_page_align_segments(1);
                        assert(FixedRegion::placed_size(SEGMENT_SIZE as int) == SEGMENT_SIZE) by {
                            assert(crate::os::spec_page_align_up(SEGMENT_SIZE as int)
                                == crate::prim::spec_align_up(SEGMENT_SIZE as int, FIXED_PAGE as int));
                        }
                    }
                    if src.region.range_not_free(base, SEGMENT_SIZE) {
                        let ghost b2 = *self;
                        let seg = self.segments.remove(k);
                        proof {
                            assert(seg == b2.segs()[k as int]);
                            assert forall|j: int| 0 <= j < self.segs().len() implies {
                                &&& (#[trigger] self.segs()[j]).wf()
                                &&& self.segs()[j].seg_kind() == SegmentKind::Normal
                                &&& self.segs()[j].total() == SEGMENT_SIZE
                            } by {
                                if j < k {
                                    assert(self.segs()[j] == b2.segs()[j]);
                                } else {
                                    assert(self.segs()[j] == b2.segs()[j + 1]);
                                }
                            }
                            Self::lemma_wf_segments(b2, *self);
                        }
                        let _ = crate::segment::segment_free(seg, &mut src.arenas, &mut src.region, &mut src.map);
                        let ghost b3 = *self;
                        self.stats.segments_freed = inc(self.stats.segments_freed);
                        proof {
                            Self::lemma_wf_frame(b3, *self);
                        }
                        return false;
                    }
                }
                true
            },
        }
    }
}


/// Page `k` is the first of `pages` carved at slice `slot`.
pub open spec fn first_at_slot(pages: Seq<Page>, slot: int, k: int) -> bool {
    &&& 0 <= k < pages.len()
    &&& pages[k].slot_index() == slot
    &&& forall|j: int| 0 <= j < k ==> #[trigger] pages[j].slot_index() != slot
}

/// What another thread's free of `addr` did to page `k` of `pre`, giving
/// `post`: `NotOurs` when no block of the page holds `addr`, `AlreadyFree`
/// when that block is free; else the block went on the page's cross-thread
/// list and is free, every other block and page as before.
pub open spec fn page_freed(pre: Seq<Page>, post: Seq<Page>, k: int, addr: int, r: FreeOutcome) -> bool {
    &&& (forall|i: int| !#[trigger] in_block(pre[k], addr, i)) ==> r == FreeOutcome::NotOurs
    &&& forall|i: int| #[trigger] in_block(pre[k], addr, i) ==> {
        &&& !pre[k].is_allocated(i) ==> r == FreeOutcome::AlreadyFree
        &&& pre[k].is_allocated(i) ==> {
            &&& r == FreeOutcome::Released
            &&& post == pre.update(k, post[k])
            &&& post[k].same_geometry(pre[k])
            &&& post[k].xthread_list() == pre[k].xthread_list().push(i as u32)
            &&& !post[k].is_allocated(i)
            &&& forall|j: int| j != i ==> #[trigger] post[k].is_allocated(j) == pre[k].is_allocated(j)
        }
    }
}

/// What a free of `addr` did to the abandoned segment `pre`, giving `post`.
/// An address outside the segment is `NotOurs`. In a huge segment it frees
/// the block, once (`AlreadyFree` after). In a Normal one: `NotOurs` outside
/// the carved slices or when no page is carved at the address's slice, else
/// as `page_freed` on the first page carved there. Nothing changes but
/// what a `Released` says.
pub open spec fn abandoned_freed(pre: AbandonedSegment, post: AbandonedSegment, addr: int, r: FreeOutcome) -> bool {
    let s = pre.segment();
    let base = s.base_addr();
    let inside = base + HEADER_SLICES * SEGMENT_SLICE_SIZE <= addr < base + s.nfree() * SEGMENT_SLICE_SIZE;
    let slot = s.start_of((addr - base) / (SEGMENT_SLICE_SIZE as int));
    &&& post.segment() == s
    &&& post.huge_block() == pre.huge_block()
    &&& r != FreeOutcome::Released ==> post.page_list() == pre.page_list() && post.block_freed() == pre.block_freed()
    &&& spec_segment_of(addr) != base ==> r == FreeOutcome::NotOurs
    &&& spec_segment_of(addr) == base && s.seg_kind() == SegmentKind::Huge ==> {
        &&& r == (if pre.block_freed() { FreeOutcome::AlreadyFree } else { FreeOutcome::Released })
        &&& post.block_freed()
        &&& post.page_list() == pre.page_list()
    }
    &&& spec_segment_of(addr) == base && s.seg_kind() == SegmentKind::Normal ==> {
        &&& post.block_freed() == pre.block_freed()
        &&& !inside ==> r == FreeOutcome::NotOurs
        &&& inside && (forall|k: int| 0 <= k < pre.page_list().len() ==> #[trigger] pre.page_list()[k].slot_index() != slot)
            ==> r == FreeOutcome::NotOurs
        &&& inside ==> forall|k: int| #[trigger] first_at_slot(pre.page_list(), slot, k)
            ==> page_freed(pre.page_list(), post.page_list(), k, addr, r)
    }
}

impl AbandonedSegment {
    /// A thread frees the block holding `addr` while no thread owns the
    /// segment, as `abandoned_freed` says: a Normal segment's block goes on
    /// its page's cross-thread list, for whoever adopts the segment; a huge
    /// segment's block is marked freed.
    #[verifier::spinoff_prover]
    #[verifier::rlimit(60)]
    pub fn free_block(&mut self, addr: usize) -> (r: FreeOutcome)
        ensures
            final(self).wf(),
            abandoned_freed(*old(self), *final(self), addr as int, r),
    {
        proof {
            use_type_invariant(&*self);
        }
        let ghost pre = *self;
        let base = self.seg.base();
        if crate::segment::segment_of(addr) != base {
            return FreeOutcome::NotOurs;
        }
        if self.seg.kind() == SegmentKind::Huge {
            if self.freed {
                return FreeOutcome::AlreadyFree;
            }
            self.freed = true;
            return FreeOutcome::Released;
        }
        proof {
            pre.seg.lemma_wf_geometry();
        }
        let nfree = self.seg.carved_slices();
        proof {
            assert(nfree * SEGMENT_SLICE_SIZE <= SEGMENT_SIZE) by (nonlinear_arith)
                requires nfree <= SLICES_PER_SEGMENT, SEGMENT_SIZE == SLICES_PER_SEGMENT * SEGMENT_SLICE_SIZE;
        }
        if addr < base + HEADER_SLICES * SEGMENT_SLICE_SIZE || addr >= base + nfree * SEGMENT_SLICE_SIZE {
            return FreeOutcome::NotOurs;
        }
        let slot = self.seg.page_of(addr);
        let n = self.pages.len();
        let mut k: usize = 0;
        while k < n
            invariant
                self.seg == pre.seg,
                self.pages@ == pre.pages@,
                self.block == pre.block,
                self.size == pre.size,
                self.freed == pre.freed,
                pre == *old(self),
                pre.wf(),
                pre.segment().seg_kind() == SegmentKind::Normal,
                n == self.pages@.len(),
                k <= n,
                slot == pre.segment().start_of((addr - base) / (SEGMENT_SLICE_SIZE as int)),
                base == pre.segment().base_addr(),
                spec_segment_of(addr as int) == base,
                base + HEADER_SLICES * SEGMENT_SLICE_SIZE <= addr < base + pre.segment().nfree() * SEGMENT_SLICE_SIZE,
                forall|j: int| 0 <= j < k ==> #[trigger] pre.page_list()[j].slot_index() != slot,
            decreases n - k,
        {
            if self.pages[k].position().1 == slot {
                proof {
                    assert(adoptable_page(pre.page_list()[k as int]));
                    assert(self.pages@[k as int].wf());
                    assert(first_at_slot(pre.page_list(), slot as int, k as int));
                    assert forall|k2: int| #[trigger] first_at_slot(pre.page_list(), slot as int, k2) implies k2 == k by {
                        if k2 < k {
                            assert(pre.page_list()[k2].slot_index() != slot);
                        } else if k2 > k {
                            assert(pre.page_list()[k as int].slot_index() != slot);
                        }
                    }
                }
                let i = match block_of(&self.pages[k], addr) {
                    None => {
                        proof {
                            assert(self.segment() == pre.segment());
                            assert(self.page_list() == pre.page_list());
                        }
                        return FreeOutcome::NotOurs;
                    },
                    Some(i) => i,
                };
                let ghost p0 = pre.page_list()[k as int];
                proof {
                    assert(p0 == self.pages@[k as int]);
                    assert forall|i2: int| #[trigger] in_block(p0, addr as int, i2) implies i2 == i by {
                        lemma_in_one_block(p0, addr as int, i as int, i2);
                    }
                }
                if !self.pages[k].block_is_allocated(i) {
                    proof {
                        assert(self.segment() == pre.segment());
                        assert(self.page_list() == pre.page_list());
                    }
                    return FreeOutcome::AlreadyFree;
                }
                let mut pages: Vec<Page> = Vec::new();
                std::mem::swap(&mut pages, &mut self.pages);
                let mut pg = pages.remove(k);
                let on_page = pg.remote_free(i);
                let ghost p1 = pg;
                pages.insert(k, pg);
                proof {
                    assert(on_page);
                    assert(pages@ =~= pre.pages@.update(k as int, p1));
                    assert forall|j: int| 0 <= j < pages@.len() implies {
                        &&& adoptable_page(#[trigger] pages@[j])
                        &&& pages@[j].segment_base() == pre.segment().base_addr()
                        &&& pages@[j].xflag_of() == XFlag::Never
                    } by {
                        if j != k {
                            assert(pages@[j] == pre.page_list()[j]);
                        } else {
                            assert(adoptable_page(p0));
                            if binned_ok(p0, p0.bin_of()) {
                                assert(binned_ok(p1, p1.bin_of()));
                            }
                        }
                    }
                }
                self.pages = pages;
                proof {
                    assert(self.segment() == pre.segment());
                    assert(self.huge_block() == pre.huge_block());
                    assert(self.page_list() == pre.page_list().update(k as int, self.page_list()[k as int]));
                    assert(p1.same_geometry(p0));
                }
                return FreeOutcome::Released;
            }
            k = k + 1;
        }
        proof {
            assert(self.segment() == pre.segment());
            assert(self.page_list() == pre.page_list());
            assert forall|k2: int| 0 <= k2 < pre.page_list().len() implies #[trigger] pre.page_list()[k2].slot_index() != slot by {}
        }
        FreeOutcome::NotOurs
    }
}

/// Some page of `pages` carved at `slot` makes a first one.
proof fn lemma_first_at_slot_exists(pages: Seq<Page>, slot: int, j: int)
    requires
        0 <= j < pages.len(),
        pages[j].slot_index() == slot,
    ensures
        exists|k: int| #[trigger] first_at_slot(pages, slot, k),
    decreases j,
{
    if forall|m: int| 0 <= m < j ==> #[trigger] pages[m].slot_index() != slot {
        assert(first_at_slot(pages, slot, j));
    } else {
        let m = choose|m: int| 0 <= m < j && #[trigger] pages[m].slot_index() == slot;
        lemma_first_at_slot_exists(pages, slot, m);
    }
}

/// A block of an abandoned segment is freed once: right after a free of
/// `addr` gives `Released`, another free of `addr` gives `AlreadyFree`.
pub proof fn lemma_abandoned_double_free(a: AbandonedSegment, b: AbandonedSegment, c: AbandonedSegment, addr: int, r: FreeOutcome)
    requires
        a.wf(),
        abandoned_freed(a, b, addr, FreeOutcome::Released),
        abandoned_freed(b, c, addr, r),
    ensures
        r == FreeOutcome::AlreadyFree,
{
    let s = a.segment();
    let base = s.base_addr();
    let slot = s.start_of((addr - base) / (SEGMENT_SLICE_SIZE as int));
    if s.seg_kind() == SegmentKind::Normal {
        let j = choose|j: int| 0 <= j < a.page_list().len() && #[trigger] a.page_list()[j].slot_index() == slot;
        lemma_first_at_slot_exists(a.page_list(), slot, j);
        let k = choose|k: int| #[trigger] first_at_slot(a.page_list(), slot, k);
        assert(page_freed(a.page_list(), b.page_list(), k, addr, FreeOutcome::Released));
        let i = choose|i: int| #[trigger] in_block(a.page_list()[k], addr, i);
        let p = a.page_list()[k];
        let q = b.page_list()[k];
        assert(p.is_allocated(i));
        assert(q.same_geometry(p));
        assert(in_block(q, addr, i));
        assert forall|m: int| 0 <= m < k implies #[trigger] b.page_list()[m].slot_index() != slot by {
            assert(b.page_list()[m] == a.page_list()[m]);
            assert(a.page_list()[m].slot_index() != slot);
        }
        assert(first_at_slot(b.page_list(), slot, k));
        assert(page_freed(b.page_list(), c.page_list(), k, addr, r));
    }
}

/// Free the block holding `addr` in the abandoned segments of `list`: as
/// `free_block` on the first whose base is that of `addr`'s segment, the
/// rest left as they were; `NotOurs`, and no change, when there is none.
pub fn free_abandoned(list: &mut Vec<AbandonedSegment>, addr: usize) -> (r: FreeOutcome)
    ensures
        (forall|k: int| 0 <= k < old(list)@.len() ==> #[trigger] old(list)@[k].segment().base_addr() != spec_segment_of(addr as int))
            ==> r == FreeOutcome::NotOurs && final(list)@ == old(list)@,
        forall|k: int| {
            &&& 0 <= k < old(list)@.len()
            &&& #[trigger] old(list)@[k].segment().base_addr() == spec_segment_of(addr as int)
            &&& forall|j: int| 0 <= j < k ==> #[trigger] old(list)@[j].segment().base_addr() != spec_segment_of(addr as int)
        } ==> {
            &&& final(list)@ == old(list)@.update(k, final(list)@[k])
            &&& abandoned_freed(old(list)@[k], final(list)@[k], addr as int, r)
        },
{
    let base = crate::segment::segment_of(addr);
    let n = list.len();
    let mut k: usize = 0;
    while k < n
        invariant
            n == list@.len(),
            list@ == old(list)@,
            k <= n,
            base == spec_segment_of(addr as int),
            forall|j: int| 0 <= j < k ==> #[trigger] old(list)@[j].segment().base_addr() != base,
        decreases n - k,
    {
        if list[k].base() == base {
            let ghost l0 = list@;
            let mut ab = list.remove(k);
            let r = ab.free_block(addr);
            list.insert(k, ab);
            proof {
                assert(list@ =~= l0.update(k as int, ab));
                assert forall|k2: int| {
                    &&& 0 <= k2 < old(list)@.len()
                    &&& #[trigger] old(list)@[k2].segment().base_addr() == spec_segment_of(addr as int)
                    &&& forall|j: int| 0 <= j < k2 ==> #[trigger] old(list)@[j].segment().base_addr() != spec_segment_of(addr as int)
                } implies k2 == k by {
                    if k2 > k {
                        assert(old(list)@[k as int].segment().base_addr() != spec_segment_of(addr as int));
                    }
                }
            }
            return r;
        }
        k = k + 1;
    }
    FreeOutcome::NotOurs
}

/// Whether a block of `usable` bytes serves a resize to `newsize` bytes
/// where it is: it still holds them and stays at least half used.
pub fn realloc_in_place(usable: usize, newsize: usize) -> (b: bool)
    ensures
        b == (newsize <= usable && newsize >= usable / 2),
{
    newsize <= usable && newsize >= usable / 2
}

impl Heap {
    /// Count a resize: one kept in place, or one moved to a new block.
    pub fn count_realloc(&mut self, in_place: bool)
        requires
            old(self).wf(),
        ensures
            final(self).wf(),
            final(self).same_but_stats(*old(self)),
            in_place ==> final(self).stats_of().realloc_in_place == bump(old(self).stats_of().realloc_in_place)
                && final(self).stats_of().realloc_moved == old(self).stats_of().realloc_moved,
            !in_place ==> final(self).stats_of().realloc_moved == bump(old(self).stats_of().realloc_moved)
                && final(self).stats_of().realloc_in_place == old(self).stats_of().realloc_in_place,
    {
        let ghost pre = *self;
        if in_place {
            self.stats.realloc_in_place = inc(self.stats.realloc_in_place);
        } else {
            self.stats.realloc_moved = inc(self.stats.realloc_moved);
        }
        proof {
            Self::lemma_wf_frame(pre, *self);
        }
    }
}

/// The first heap of `heaps` holding `addr`'s segment.
pub open spec fn first_holder(heaps: Seq<(usize, Heap)>, addr: int, k: int) -> bool {
    &&& 0 <= k < heaps.len()
    &&& holds_segment(heaps[k].1, spec_segment_of(addr))
    &&& forall|j: int| 0 <= j < k ==> !holds_segment(#[trigger] heaps[j].1, spec_segment_of(addr))
}

/// Free `addr` on behalf of thread `me`, with `heaps` the threads' heaps
/// (each under its thread's id): the first heap holding the address's
/// segment takes it back, by its owner's free when it is `me`'s, else by a
/// free from another thread; with no heap holding it, the abandoned
/// segments are tried.
pub fn free_dispatch(heaps: &mut Vec<(usize, Heap)>, src: &mut Sources, options: &Options, me: usize, addr: usize)
    -> (r: FreeOutcome)
    requires
        forall|k: int| 0 <= k < old(heaps)@.len() ==> (#[trigger] old(heaps)@[k]).1.wf(),
        old(src).ready(*options),
    ensures
        final(heaps)@.len() == old(heaps)@.len(),
        forall|k: int| 0 <= k < final(heaps)@.len() ==> (#[trigger] final(heaps)@[k]).1.wf()
            && final(heaps)@[k].0 == old(heaps)@[k].0,
        old(src).served(*final(src), *options),
        forall|k: int| #[trigger] first_holder(old(heaps)@, addr as int, k) ==> {
            &&& final(heaps)@ == old(heaps)@.update(k, final(heaps)@[k])
            &&& final(src).abandoned@ == old(src).abandoned@
            &&& old(heaps)@[k].0 == me ==> free_outcome(old(heaps)@[k].1, final(heaps)@[k].1, addr as int, r)
            &&& old(heaps)@[k].0 != me ==> remote_outcome(old(heaps)@[k].1, final(heaps)@[k].1, addr as int, r)
        },
        (forall|k: int| 0 <= k < old(heaps)@.len() ==> !holds_segment(#[trigger] old(heaps)@[k].1, spec_segment_of(addr as int)))
            ==> {
            &&& final(heaps)@ == old(heaps)@
            &&& forall|k: int| 0 <= k < old(src).abandoned@.len() && #[trigger] old(src).abandoned@[k].segment().base_addr()
                == spec_segment_of(addr as int) && (forall|j: int| 0 <= j < k ==> #[trigger] old(src).abandoned@[j].segment().base_addr()
                != spec_segment_of(addr as int))
                ==> final(src).abandoned@ == old(src).abandoned@.update(k, final(src).abandoned@[k])
                    && abandoned_freed(old(src).abandoned@[k], final(src).abandoned@[k], addr as int, r)
            &&& (forall|k: int| 0 <= k < old(src).abandoned@.len() ==> #[trigger] old(src).abandoned@[k].segment().base_addr()
                != spec_segment_of(addr as int)) ==> r == FreeOutcome::NotOurs && final(src).abandoned@ == old(src).abandoned@
        },
{
    let n = heaps.len();
    let mut k: usize = 0;
    while k < n
        invariant
            n == heaps@.len(),
            heaps@ == old(heaps)@,
            *src == *old(src),
            k <= n,
            forall|j: int| 0 <= j < old(heaps)@.len() ==> (#[trigger] old(heaps)@[j]).1.wf(),
            old(src).ready(*options),
            forall|j: int| 0 <= j < k ==> !holds_segment(#[trigger] old(heaps)@[j].1, spec_segment_of(addr as int)),
        decreases n - k,
    {
        if heaps[k].1.contains_block(addr) {
            proof {
                assert(first_holder(old(heaps)@, addr as int, k as int));
                assert forall|k2: int| #[trigger] first_holder(old(heaps)@, addr as int, k2) implies k2 == k by {
                    if k2 < k {
                        assert(!holds_segment(old(heaps)@[k2].1, spec_segment_of(addr as int)));
                    } else if k2 > k {
                        assert(!holds_segment(old(heaps)@[k as int].1, spec_segment_of(addr as int)));
                    }
                }
            }
            let (t, mut h) = heaps.remove(k);
            proof {
                assert((t, h) == old(heaps)@[k as int]);
            }
            let ghost h0 = h;
            let r = if t == me {
                h.free_local(src, options, addr)
            } else {
                h.free_remote(addr)
            };
            heaps.insert(k, (t, h));
            proof {
                assert(heaps@ =~= old(heaps)@.update(k as int, (t, h)));
                assert forall|j: int| 0 <= j < heaps@.len() implies (#[trigger] heaps@[j]).1.wf()
                    && heaps@[j].0 == old(heaps)@[j].0 by {
                    if j != k {
                        assert(heaps@[j] == old(heaps)@[j]);
                    }
                }
            }
            return r;
        }
        k = k + 1;
    }
    free_abandoned(&mut src.abandoned, addr)
}

} // verus!
