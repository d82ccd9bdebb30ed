//! Arenas: reserved regions carved into `SEGMENT_SIZE` chunks that segment
//! alloc/free recycles instead of round-tripping the backend. Each arena
//! tracks its chunks in two bitmaps: `used` (allocated) and `dirty` (ever
//! used, so not known zero).

use vstd::prelude::*;
use crate::bitword::Bitmap;
use crate::types::SEGMENT_SIZE;
use crate::prim::fixed::{FixedRegion, FIXED_PAGE, spec_div_ceil, div_ceil};
use crate::prim::is_power_of_two;
use crate::os::{alloc_aligned, spec_page_align_up};
use crate::options::{Options, ARENA_RESERVE, DISALLOW_ARENA_ALLOC};

verus! {

/// Arenas tracked at once.
pub const MAX_ARENAS: usize = 32;

/// Chunks one arena can track.
pub const MAX_CHUNKS: usize = 1024;

/// Bitmap words for `MAX_CHUNKS` chunks.
const CHUNK_WORDS: usize = 32;

/// One reserved region.
pub struct Arena {
    /// Base address (`SEGMENT_SIZE`-aligned).
    pub base: usize,
    /// Usable bytes at registration (whole chunks).
    pub size: usize,
    /// Chunk count at registration.
    pub chunks: usize,
    /// Live chunk count: the registration value plus in-place extensions.
    chunks_live: usize,
    /// Only heaps created with this arena's id may allocate from it.
    pub exclusive: bool,
    /// The mapping is the allocator's own (not adopted caller memory).
    pub owned: bool,
    /// Advisory NUMA node.
    pub numa_node: i32,
    used: Bitmap,
    dirty: Bitmap,
}

impl Arena {
    /// Only heaps created with this arena's id may use it.
    pub closed spec fn excl(&self) -> bool {
        self.exclusive
    }

    /// The mapping is the allocator's own.
    pub closed spec fn own(&self) -> bool {
        self.owned
    }

    /// Base address.
    pub closed spec fn base_addr(&self) -> int {
        self.base as int
    }

    /// Chunks currently tracked.
    pub closed spec fn live(&self) -> int {
        self.chunks_live as int
    }

    /// Chunk `i` is allocated.
    pub closed spec fn used(&self, i: int) -> bool {
        self.used.is_set(i)
    }

    /// Chunk `i` has ever been used, so it is not known zero.
    pub closed spec fn dirty(&self, i: int) -> bool {
        self.dirty.is_set(i)
    }

    /// The arena's invariant: aligned base, at most `MAX_CHUNKS` chunks, all
    /// of them inside the address space.
    pub closed spec fn wf(&self) -> bool {
        &&& self.used.word_count() == CHUNK_WORDS
        &&& self.dirty.word_count() == CHUNK_WORDS
        &&& self.chunks_live <= MAX_CHUNKS
        &&& self.base % SEGMENT_SIZE == 0
        &&& self.base + self.chunks_live * SEGMENT_SIZE <= usize::MAX
    }

    /// Address of chunk `i`.
    pub closed spec fn chunk_addr(&self, i: int) -> int {
        self.base + i * SEGMENT_SIZE
    }

    /// `i` is the lowest free chunk.
    pub open spec fn first_free(&self, i: int) -> bool {
        &&& 0 <= i < self.live()
        &&& !self.used(i)
        &&& forall|j: int| 0 <= j < i ==> #[trigger] self.used(j)
    }

    /// Some run of `n` chunks is free.
    pub open spec fn has_run(&self, n: int) -> bool {
        exists|s: int| 0 <= s && s + n <= self.live() && #[trigger] self.run_free(s, n)
    }

    /// `addr` lies in the arena's live chunks.
    pub open spec fn holds(&self, addr: int) -> bool {
        self.base_addr() <= addr < self.base_addr() + self.live() * SEGMENT_SIZE
    }

    /// The chunk holding `addr`.
    pub open spec fn chunk_of(&self, addr: int) -> int {
        (addr - self.base_addr()) / (SEGMENT_SIZE as int)
    }

    /// The chunk holding an address of the arena is one of its live chunks.
    pub proof fn lemma_chunk_of_bounded(&self, addr: int)
        requires
            self.wf(),
            self.holds(addr),
        ensures
            0 <= self.chunk_of(addr) < self.live(),
            self.live() <= MAX_CHUNKS,
    {
        let d = addr - self.base_addr();
        vstd::arithmetic::div_mod::lemma_fundamental_div_mod(d, SEGMENT_SIZE as int);
        assert(0 <= d / (SEGMENT_SIZE as int) < self.live()) by (nonlinear_arith)
            requires 0 <= d < self.live() * SEGMENT_SIZE, d == SEGMENT_SIZE * (d / (SEGMENT_SIZE as int)) + d % (SEGMENT_SIZE as int),
                0 <= d % (SEGMENT_SIZE as int) < SEGMENT_SIZE;
    }

    /// `post` is `self` grown in place by `n` chunks, free and dirty.
    pub closed spec fn extended(&self, post: Arena, n: int) -> bool {
        &&& post.live() == self.live() + n
        &&& post.base == self.base
        &&& post.size == self.size
        &&& post.chunks == self.chunks
        &&& post.exclusive == self.exclusive
        &&& post.owned == self.owned
        &&& post.numa_node == self.numa_node
        &&& forall|j: int| 0 <= j < MAX_CHUNKS ==> #[trigger] post.used(j)
            == if self.live() <= j < self.live() + n { false } else { self.used(j) }
        &&& forall|j: int| 0 <= j < MAX_CHUNKS ==> #[trigger] post.dirty(j)
            == if self.live() <= j < self.live() + n { true } else { self.dirty(j) }
    }

    /// A just-registered arena over `[base, base + size)`: no chunk used, and
    /// every live chunk dirty exactly when `dirty`.
    pub closed spec fn fresh_as(&self, base: int, size: int, exclusive: bool, owned: bool, numa_node: i32, dirty: bool) -> bool {
        &&& self.base == base
        &&& self.size == size
        &&& self.chunks == size / (SEGMENT_SIZE as int)
        &&& self.live() == size / (SEGMENT_SIZE as int)
        &&& self.exclusive == exclusive
        &&& self.owned == owned
        &&& self.numa_node == numa_node
        &&& forall|j: int| 0 <= j < MAX_CHUNKS ==> !#[trigger] self.used(j)
        &&& forall|j: int| 0 <= j < MAX_CHUNKS ==> #[trigger] self.dirty(j) == (dirty && j < self.live())
    }

    /// Every chunk is in use.
    pub open spec fn full(&self) -> bool {
        forall|j: int| 0 <= j < self.live() ==> #[trigger] self.used(j)
    }

    /// Chunks `start .. start + n` are all free.
    pub open spec fn run_free(&self, start: int, n: int) -> bool {
        forall|j: int| start <= j < start + n ==> !#[trigger] self.used(j)
    }

    /// `start` begins the lowest run of `n` free chunks.
    pub open spec fn first_run(&self, start: int, n: int) -> bool {
        &&& 0 <= start
        &&& start + n <= self.live()
        &&& self.run_free(start, n)
        &&& forall|s: int| 0 <= s < start ==> !#[trigger] self.run_free(s, n)
    }

    /// `post` is `self` with chunks `start .. start + n` set to `used`
    /// (and marked dirty when `used`), everything else kept.
    pub closed spec fn with_chunks(&self, post: Arena, start: int, n: int, used: bool) -> bool {
        &&& post.base == self.base
        &&& post.size == self.size
        &&& post.chunks == self.chunks
        &&& post.live() == self.live()
        &&& post.exclusive == self.exclusive
        &&& post.owned == self.owned
        &&& post.numa_node == self.numa_node
        &&& forall|j: int| 0 <= j < MAX_CHUNKS ==> #[trigger] post.used(j)
            == if start <= j < start + n { used } else { self.used(j) }
        &&& forall|j: int| 0 <= j < MAX_CHUNKS ==> #[trigger] post.dirty(j)
            == if start <= j < start + n && used { true } else { self.dirty(j) }
    }

    /// `post` is `self` with chunks `0 .. n` marked dirty, everything else
    /// kept.
    pub closed spec fn dirtied(&self, post: Arena, n: int) -> bool {
        &&& post.base == self.base
        &&& post.size == self.size
        &&& post.chunks == self.chunks
        &&& post.live() == self.live()
        &&& post.exclusive == self.exclusive
        &&& post.owned == self.owned
        &&& post.numa_node == self.numa_node
        &&& forall|j: int| 0 <= j < MAX_CHUNKS ==> #[trigger] post.used(j) == self.used(j)
        &&& forall|j: int| 0 <= j < MAX_CHUNKS ==> #[trigger] post.dirty(j) == (j < n || self.dirty(j))
    }

    /// `post` is `self` with the same chunks in use; only dirty bits may
    /// differ.
    pub closed spec fn same_use(&self, post: Arena) -> bool {
        &&& post.base == self.base
        &&& post.size == self.size
        &&& post.chunks == self.chunks
        &&& post.live() == self.live()
        &&& post.exclusive == self.exclusive
        &&& post.owned == self.owned
        &&& post.numa_node == self.numa_node
        &&& forall|j: int| 0 <= j < MAX_CHUNKS ==> #[trigger] post.used(j) == self.used(j)
    }

    /// A fresh arena over `chunks` chunks at `base`: all free, none dirty.
    fn fresh(base: usize, size: usize, chunks: usize, exclusive: bool, owned: bool, numa_node: i32) -> (a: Arena)
        requires
            chunks <= MAX_CHUNKS,
            base % SEGMENT_SIZE == 0,
            base + chunks * SEGMENT_SIZE <= usize::MAX,
        ensures
            a.wf(),
            a.base == base && a.size == size && a.chunks == chunks && a.live() == chunks,
            a.exclusive == exclusive && a.owned == owned && a.numa_node == numa_node,
            forall|j: int| 0 <= j < MAX_CHUNKS ==> !#[trigger] a.used(j) && !a.dirty(j),
    {
        Arena {
            base,
            size,
            chunks,
            chunks_live: chunks,
            exclusive,
            owned,
            numa_node,
            used: Bitmap::new(CHUNK_WORDS),
            dirty: Bitmap::new(CHUNK_WORDS),
        }
    }

    /// Chunks below `n` that are in use.
    pub open spec fn used_below(&self, n: int) -> int
        decreases n,
    {
        if n <= 0 {
            0
        } else {
            self.used_below(n - 1) + if self.used(n - 1) { 1int } else { 0int }
        }
    }

    /// Live chunks in use.
    fn used_count(&self) -> (c: usize)
        requires
            self.wf(),
        ensures
            c == self.used_below(self.live()),
    {
        let mut c: usize = 0;
        let mut i: usize = 0;
        while i < self.chunks_live
            invariant
                self.wf(),
                i <= self.chunks_live,
                c == self.used_below(i as int),
                c <= i,
            decreases self.chunks_live - i,
        {
            if self.used.test(i) {
                c = c + 1;
            }
            i = i + 1;
        }
        c
    }

    /// The lowest free chunk, if any.
    fn find_free(&self) -> (r: Option<usize>)
        requires
            self.wf(),
        ensures
            match r {
                Some(i) => self.first_free(i as int),
                None => self.full(),
            },
    {
        let mut i: usize = 0;
        while i < self.chunks_live
            invariant
                self.wf(),
                i <= self.chunks_live,
                forall|j: int| 0 <= j < i ==> #[trigger] self.used(j),
            decreases self.chunks_live - i,
        {
            if !self.used.test(i) {
                return Some(i);
            }
            i = i + 1;
        }
        None
    }

    /// The lowest run of `n` free chunks, if any.
    fn find_run(&self, n: usize) -> (r: Option<usize>)
        requires
            self.wf(),
            n > 0,
        ensures
            match r {
                Some(s) => self.first_run(s as int, n as int),
                None => forall|s: int| 0 <= s && s + n <= self.live() ==> !#[trigger] self.run_free(s, n as int),
            },
    {
        let chunks = self.chunks_live;
        let mut run: usize = 0;
        let mut idx: usize = 0;
        while idx < chunks
            invariant
                self.wf(),
                chunks == self.chunks_live,
                n > 0,
                idx <= chunks,
                run <= idx,
                run < n,
                forall|k: int| idx - run <= k < idx ==> !#[trigger] self.used(k),
                idx - run == 0 || self.used(idx - run - 1),
                forall|s: int| 0 <= s && s + n <= idx ==> !#[trigger] self.run_free(s, n as int),
            decreases chunks - idx,
        {
            if !self.used.test(idx) {
                run = run + 1;
                if run == n {
                    let start = idx + 1 - n;
                    proof {
                        assert(self.run_free(start as int, n as int));
                        assert forall|s: int| 0 <= s < start implies !#[trigger] self.run_free(s, n as int) by {
                            if s + n > idx {
                                assert(self.used(idx - run));
                            }
                        }
                    }
                    return Some(start);
                }
                proof {
                    assert forall|s: int| 0 <= s && s + n <= idx + 1 implies !#[trigger] self.run_free(s, n as int) by {
                        if s + n == idx + 1 && idx + 1 - run > 0 {
                            assert(self.used(idx + 1 - run - 1));
                        }
                    }
                }
            } else {
                proof {
                    assert forall|s: int| 0 <= s && s + n <= idx + 1 implies !#[trigger] self.run_free(s, n as int) by {
                        if s + n == idx + 1 {
                            assert(self.used(idx as int));
                        }
                    }
                }
                run = 0;
            }
            idx = idx + 1;
        }
        None
    }

    /// Mark chunks `start .. start + n` used (and dirty) or free; reports
    /// whether any of them was dirty before.
    fn set_chunks(&mut self, start: usize, n: usize, used: bool) -> (was_dirty: bool)
        requires
            old(self).wf(),
            start + n <= MAX_CHUNKS,
        ensures
            final(self).wf(),
            old(self).with_chunks(*final(self), start as int, n as int, used),
            was_dirty == exists|j: int| start <= j < start + n && #[trigger] old(self).dirty(j),
    {
        let mut j = start;
        let mut any = false;
        while j < start + n
            invariant
                self.wf(),
                old(self).wf(),
                start <= j <= start + n,
                start + n <= MAX_CHUNKS,
                old(self).with_chunks(*self, start as int, j - start, used),
                any == exists|i: int| start <= i < j && #[trigger] old(self).dirty(i),
            decreases start + n - j,
        {
            let ghost prev = *self;
            let d = self.dirty.test(j);
            proof {
                assert(self.dirty(j as int) == old(self).dirty(j as int));
                assert(d == old(self).dirty(j as int));
            }
            if used {
                self.used.set(j);
                self.dirty.set(j);
            } else {
                self.used.clear(j);
            }
            proof {
                assert forall|i: int| 0 <= i < MAX_CHUNKS implies #[trigger] self.used(i)
                    == if start <= i < j + 1 { used } else { old(self).used(i) } by {
                    assert(prev.used(i) == if start <= i < j { used } else { old(self).used(i) });
                }
                assert forall|i: int| 0 <= i < MAX_CHUNKS implies #[trigger] self.dirty(i)
                    == if start <= i < j + 1 && used { true } else { old(self).dirty(i) } by {
                    assert(prev.dirty(i) == if start <= i < j && used { true } else { old(self).dirty(i) });
                }
                if d {
                    assert(start <= j < j + 1 && old(self).dirty(j as int));
                }
            }
            any = any || d;
            j = j + 1;
        }
        any
    }

    /// Grow the arena in place by `n` chunks, which start free and dirty.
    fn extend(&mut self, n: usize)
        requires
            old(self).wf(),
            old(self).live() + n <= MAX_CHUNKS,
            old(self).base + (old(self).live() + n) * SEGMENT_SIZE <= usize::MAX,
        ensures
            final(self).wf(),
            final(self).live() == old(self).live() + n,
            final(self).base == old(self).base,
            final(self).size == old(self).size,
            final(self).chunks == old(self).chunks,
            final(self).exclusive == old(self).exclusive,
            final(self).owned == old(self).owned,
            final(self).numa_node == old(self).numa_node,
            forall|j: int| 0 <= j < MAX_CHUNKS ==> #[trigger] final(self).used(j)
                == if old(self).live() <= j < old(self).live() + n { false } else { old(self).used(j) },
            forall|j: int| 0 <= j < MAX_CHUNKS ==> #[trigger] final(self).dirty(j)
                == if old(self).live() <= j < old(self).live() + n { true } else { old(self).dirty(j) },
    {
        let start = self.chunks_live;
        let mut j = start;
        while j < start + n
            invariant
                self.wf(),
                start == old(self).chunks_live,
                start <= j <= start + n,
                start + n <= MAX_CHUNKS,
                old(self).base + (start + n) * SEGMENT_SIZE <= usize::MAX,
                self.chunks_live == start,
                self.base == old(self).base,
                self.size == old(self).size,
                self.chunks == old(self).chunks,
                self.exclusive == old(self).exclusive,
                self.owned == old(self).owned,
                self.numa_node == old(self).numa_node,
                forall|i: int| 0 <= i < MAX_CHUNKS ==> #[trigger] self.used(i)
                    == if start <= i < j { false } else { old(self).used(i) },
                forall|i: int| 0 <= i < MAX_CHUNKS ==> #[trigger] self.dirty(i)
                    == if start <= i < j { true } else { old(self).dirty(i) },
            decreases start + n - j,
        {
            let ghost prev = *self;
            self.dirty.set(j);
            self.used.clear(j);
            proof {
                assert forall|i: int| 0 <= i < MAX_CHUNKS implies #[trigger] self.used(i)
                    == if start <= i < j + 1 { false } else { old(self).used(i) } by {
                    assert(prev.used(i) == if start <= i < j { false } else { old(self).used(i) });
                }
                assert forall|i: int| 0 <= i < MAX_CHUNKS implies #[trigger] self.dirty(i)
                    == if start <= i < j + 1 { true } else { old(self).dirty(i) } by {
                    assert(prev.dirty(i) == if start <= i < j { true } else { old(self).dirty(i) });
                }
            }
            j = j + 1;
        }
        let ghost pre = *self;
        self.chunks_live = start + n;
        proof {
            assert forall|i: int| 0 <= i < MAX_CHUNKS implies #[trigger] self.used(i)
                == if old(self).live() <= i < old(self).live() + n { false } else { old(self).used(i) } by {
                assert(pre.used(i) == if start <= i < start + n { false } else { old(self).used(i) });
            }
            assert forall|i: int| 0 <= i < MAX_CHUNKS implies #[trigger] self.dirty(i)
                == if old(self).live() <= i < old(self).live() + n { true } else { old(self).dirty(i) } by {
                assert(pre.dirty(i) == if start <= i < start + n { true } else { old(self).dirty(i) });
            }
        }
    }
}

/// The arena table, and whether reserving a default arena has failed for
/// good (so an out-of-memory process does not retry on every miss).
pub struct Arenas {
    arenas: Vec<Arena>,
    reserve_failed: bool,
}

impl Arenas {
    /// Arenas registered.
    pub closed spec fn count(&self) -> int {
        self.arenas@.len() as int
    }

    /// Arena `id`.
    pub closed spec fn get(&self, id: int) -> Arena {
        self.arenas@[id]
    }

    /// A default-arena reservation has failed and will not be retried.
    pub closed spec fn reserve_failed(&self) -> bool {
        self.reserve_failed
    }

    /// At most [`MAX_ARENAS`] arenas, each well formed.
    pub closed spec fn wf(&self) -> bool {
        &&& self.arenas@.len() <= MAX_ARENAS
        &&& forall|id: int| 0 <= id < self.arenas@.len() ==> #[trigger] self.arenas@[id].wf()
    }

    /// Arena `id` may serve a request restricted to `restrict` (any
    /// non-exclusive arena when `restrict < 0`).
    pub open spec fn eligible(&self, id: int, restrict: int) -> bool {
        &&& 0 <= id < self.count()
        &&& restrict >= 0 ==> id == restrict
        &&& restrict < 0 ==> !self.get(id).excl()
    }

    /// `post` differs from `self` in arena `id` only.
    pub open spec fn only_changed(&self, post: Arenas, id: int) -> bool {
        &&& post.count() == self.count()
        &&& post.reserve_failed() == self.reserve_failed()
        &&& forall|k: int| 0 <= k < self.count() && k != id ==> #[trigger] post.get(k) == self.get(k)
    }

    /// No arena.
    pub fn new() -> (a: Self)
        ensures
            a.wf(),
            a.count() == 0,
            !a.reserve_failed(),
    {
        Arenas { arenas: Vec::new(), reserve_failed: false }
    }

    /// Apply `set_chunks` to arena `id`.
    fn set_chunks_of(&mut self, id: usize, start: usize, n: usize, used: bool) -> (was_dirty: bool)
        requires
            old(self).wf(),
            id < old(self).count(),
            start + n <= MAX_CHUNKS,
        ensures
            final(self).wf(),
            old(self).only_changed(*final(self), id as int),
            old(self).get(id as int).with_chunks(final(self).get(id as int), start as int, n as int, used),
            was_dirty == exists|j: int| start <= j < start + n && #[trigger] old(self).get(id as int).dirty(j),
    {
        let mut a = self.arenas.remove(id);
        let ghost a0 = a;
        assert(a0 == old(self).get(id as int));
        let d = a.set_chunks(start, n, used);
        assert(d == exists|j: int| start <= j < start + n && #[trigger] a0.dirty(j));
        self.arenas.insert(id, a);
        proof {
            assert forall|k: int| 0 <= k < self.count() && k != id implies #[trigger] self.get(k) == old(self).get(k) by {
                if k < id {
                    assert(self.arenas@[k] == old(self).arenas@[k]);
                } else {
                    assert(self.arenas@[k] == old(self).arenas@[k]);
                }
            }
            assert forall|k: int| 0 <= k < self.arenas@.len() implies #[trigger] self.arenas@[k].wf() by {
                if k != id {
                    assert(self.arenas@[k] == old(self).arenas@[k]);
                }
            }
        }
        d
    }

    /// Register `[base, base + size)` as an arena of whole chunks. Refused
    /// when it holds no chunk or more than [`MAX_CHUNKS`], is not
    /// `SEGMENT_SIZE`-aligned, or the table is full.
    fn register(&mut self, base: usize, size: usize, exclusive: bool, owned: bool, numa_node: i32) -> (r: Result<i32, ()>)
        requires
            old(self).wf(),
            base + size <= usize::MAX,
        ensures
            final(self).wf(),
            final(self).reserve_failed() == old(self).reserve_failed(),
            r is Ok <==> size / SEGMENT_SIZE > 0 && size / SEGMENT_SIZE <= MAX_CHUNKS
                && base % SEGMENT_SIZE == 0 && old(self).count() < MAX_ARENAS,
            r matches Ok(id) ==> {
                &&& id == old(self).count()
                &&& final(self).count() == old(self).count() + 1
                &&& forall|k: int| 0 <= k < old(self).count() ==> #[trigger] final(self).get(k) == old(self).get(k)
                &&& final(self).get(id as int).base == base
                &&& final(self).get(id as int).size == size
                &&& final(self).get(id as int).chunks == size / SEGMENT_SIZE
                &&& final(self).get(id as int).live() == size / SEGMENT_SIZE
                &&& final(self).get(id as int).exclusive == exclusive
                &&& final(self).get(id as int).owned == owned
                &&& final(self).get(id as int).numa_node == numa_node
                &&& forall|j: int| 0 <= j < MAX_CHUNKS ==> !#[trigger] final(self).get(id as int).used(j)
                    && !final(self).get(id as int).dirty(j)
            },
            r is Err ==> *final(self) == *old(self),
    {
        let chunks = size / SEGMENT_SIZE;
        if chunks == 0 || chunks > MAX_CHUNKS || base % SEGMENT_SIZE != 0 {
            return Err(());
        }
        if self.arenas.len() >= MAX_ARENAS {
            return Err(());
        }
        proof {
            vstd::arithmetic::div_mod::lemma_fundamental_div_mod(size as int, SEGMENT_SIZE as int);
        }
        let a = Arena::fresh(base, size, chunks, exclusive, owned, numa_node);
        let ghost ga = a;
        let id = self.arenas.len();
        self.arenas.push(a);
        proof {
            assert(self.get(id as int) == ga);
            assert forall|k: int| 0 <= k < self.arenas@.len() implies #[trigger] self.arenas@[k].wf() by {
                if k < id {
                    assert(self.arenas@[k] == old(self).arenas@[k]);
                }
            }
            assert forall|k: int| 0 <= k < old(self).count() implies #[trigger] self.get(k) == old(self).get(k) by {
                assert(self.arenas@[k] == old(self).arenas@[k]);
            }
        }
        Ok(id as i32)
    }

    /// Arena `id` and chunk `i` are what a single-chunk request restricted to
    /// `restrict` takes: the lowest free chunk of the lowest eligible arena
    /// that has one.
    pub open spec fn first_chunk(&self, id: int, i: int, restrict: int) -> bool {
        &&& self.eligible(id, restrict)
        &&& self.get(id).first_free(i)
        &&& forall|k: int| 0 <= k < id && self.eligible(k, restrict) ==> #[trigger] self.get(k).full()
    }

    /// Every arena a request restricted to `restrict` may use is full.
    pub open spec fn all_full(&self, restrict: int) -> bool {
        forall|k: int| #[trigger] self.eligible(k, restrict) ==> self.get(k).full()
    }

    /// `post` is `self` after a single-chunk request restricted to
    /// `restrict` took the chunk at `p`, known zero exactly when `zero`: the
    /// first chunk, which is now used and dirty.
    pub open spec fn took_chunk(&self, post: Arenas, p: int, zero: bool, restrict: int) -> bool {
        exists|id: int, i: int| {
            &&& #[trigger] self.first_chunk(id, i, restrict)
            &&& p == self.get(id).chunk_addr(i)
            &&& zero == !self.get(id).dirty(i)
            &&& self.only_changed(post, id)
            &&& self.get(id).with_chunks(post.get(id), i, 1, true)
        }
    }

    /// No arena a request restricted to `restrict` may use has `n` free
    /// chunks in a row.
    pub open spec fn no_run(&self, n: int, restrict: int) -> bool {
        forall|k: int| #[trigger] self.eligible(k, restrict) ==> !self.get(k).has_run(n)
    }

    /// `post` is `self` after a request for `n` contiguous chunks restricted
    /// to `restrict` took the run at `p`, known zero exactly when none of it
    /// was dirty: the first run, now used and dirty.
    pub open spec fn took_run(&self, post: Arenas, p: int, zero: bool, n: int, restrict: int) -> bool {
        exists|id: int, s: int| {
            &&& #[trigger] self.first_chunk_run(id, s, n, restrict)
            &&& p == self.get(id).chunk_addr(s)
            &&& zero == !exists|j: int| s <= j < s + n && #[trigger] self.get(id).dirty(j)
            &&& self.only_changed(post, id)
            &&& self.get(id).with_chunks(post.get(id), s, n, true)
        }
    }

    /// Allocate one chunk from the lowest eligible arena with a free one:
    /// its address and whether it is known zero (never used before). The
    /// chunk is marked used and dirty.
    pub fn chunk_alloc_inner(&mut self, restrict_id: i32) -> (r: Option<(usize, bool)>)
        requires
            old(self).wf(),
        ensures
            final(self).wf(),
            r is None <==> old(self).all_full(restrict_id as int),
            r matches Some((p, zero)) ==> old(self).took_chunk(*final(self), p as int, zero, restrict_id as int),
            r is None ==> *final(self) == *old(self),
    {
        let n = self.arenas.len();
        let mut id: usize = 0;
        while id < n
            invariant
                self.wf(),
                *self == *old(self),
                n == self.count(),
                id <= n,
                forall|k: int| 0 <= k < id && #[trigger] self.eligible(k, restrict_id as int) ==> self.get(k).full(),
            decreases n - id,
        {
            if restrict_id >= 0 && id != restrict_id as usize {
                id = id + 1;
                continue;
            }
            if restrict_id < 0 && self.arenas[id].exclusive {
                id = id + 1;
                continue;
            }
            proof {
                assert(self.arenas@[id as int].wf());
            }
            match self.arenas[id].find_free() {
                None => {
                    id = id + 1;
                },
                Some(i) => {
                    let ghost pre = *self;
                    proof {
                        assert(pre.first_chunk(id as int, i as int, restrict_id as int));
                    }
                    let was_dirty = self.set_chunks_of(id, i, 1, true);
                    proof {
                        assert(was_dirty == pre.get(id as int).dirty(i as int)) by {
                            if was_dirty {
                                let j = choose|j: int| i <= j < i + 1 && #[trigger] pre.get(id as int).dirty(j);
                                assert(j == i);
                            }
                        }
                    }
                    let p = self.arenas[id].base + i * SEGMENT_SIZE;
                    proof {
                        assert(self.arenas@[id as int].base == pre.get(id as int).base);
                        assert(i < pre.get(id as int).live());
                        assert(i * SEGMENT_SIZE <= pre.get(id as int).live() * SEGMENT_SIZE) by (nonlinear_arith)
                            requires i < pre.get(id as int).live();
                    }
                    return Some((p, !was_dirty));
                },
            }
        }
        None
    }

    /// Arena `id` and chunk `start` are what a request for `n` contiguous
    /// chunks restricted to `restrict` takes: the lowest run of the lowest
    /// eligible arena that has one.
    pub open spec fn first_chunk_run(&self, id: int, start: int, n: int, restrict: int) -> bool {
        &&& self.eligible(id, restrict)
        &&& self.get(id).first_run(start, n)
        &&& forall|k: int| 0 <= k < id && self.eligible(k, restrict) ==> !#[trigger] self.get(k).has_run(n)
    }

    /// Allocate `n` contiguous chunks from the lowest eligible arena with a
    /// free run of them: the run's address and whether all of it is known
    /// zero. The chunks are marked used and dirty.
    pub fn chunk_alloc_n_inner(&mut self, restrict_id: i32, n: usize) -> (r: Option<(usize, bool)>)
        requires
            old(self).wf(),
            n > 0,
        ensures
            final(self).wf(),
            r is None <==> old(self).no_run(n as int, restrict_id as int),
            r matches Some((p, zero)) ==> old(self).took_run(*final(self), p as int, zero, n as int, restrict_id as int),
            r is None ==> *final(self) == *old(self),
    {
        let count = self.arenas.len();
        let mut id: usize = 0;
        while id < count
            invariant
                self.wf(),
                *self == *old(self),
                count == self.count(),
                n > 0,
                id <= count,
                forall|k: int| 0 <= k < id && #[trigger] self.eligible(k, restrict_id as int) ==> !self.get(k).has_run(n as int),
            decreases count - id,
        {
            if restrict_id >= 0 && id != restrict_id as usize {
                id = id + 1;
                continue;
            }
            if restrict_id < 0 && self.arenas[id].exclusive {
                id = id + 1;
                continue;
            }
            proof {
                assert(self.arenas@[id as int].wf());
            }
            if n > self.arenas[id].chunks_live {
                proof {
                    assert(!self.get(id as int).has_run(n as int));
                }
                id = id + 1;
                continue;
            }
            match self.arenas[id].find_run(n) {
                None => {
                    id = id + 1;
                },
                Some(s) => {
                    let ghost pre = *self;
                    proof {
                        assert(pre.first_chunk_run(id as int, s as int, n as int, restrict_id as int));
                    }
                    let any_dirty = self.set_chunks_of(id, s, n, true);
                    let p = self.arenas[id].base + s * SEGMENT_SIZE;
                    proof {
                        assert(self.arenas@[id as int].base == pre.get(id as int).base);
                        assert(s * SEGMENT_SIZE <= pre.get(id as int).live() * SEGMENT_SIZE) by (nonlinear_arith)
                            requires s <= pre.get(id as int).live();
                    }
                    return Some((p, !any_dirty));
                },
            }
        }
        None
    }

    /// Arena `id` is the first whose live chunks hold `addr`.
    pub open spec fn owner_of(&self, id: int, addr: int) -> bool {
        &&& 0 <= id < self.count()
        &&& self.get(id).holds(addr)
        &&& forall|k: int| 0 <= k < id ==> !#[trigger] self.get(k).holds(addr)
    }

    /// The index of the arena whose chunks hold `addr`, if any.
    fn find_owner(&self, addr: usize) -> (r: Option<usize>)
        requires
            self.wf(),
        ensures
            match r {
                Some(id) => self.owner_of(id as int, addr as int),
                None => forall|k: int| 0 <= k < self.count() ==> !#[trigger] self.get(k).holds(addr as int),
            },
    {
        let count = self.arenas.len();
        let mut id: usize = 0;
        while id < count
            invariant
                self.wf(),
                count == self.count(),
                id <= count,
                forall|k: int| 0 <= k < id ==> !#[trigger] self.get(k).holds(addr as int),
            decreases count - id,
        {
            proof {
                assert(self.arenas@[id as int].wf());
            }
            let base = self.arenas[id].base;
            let live = self.arenas[id].chunks_live;
            if addr >= base && addr < base + live * SEGMENT_SIZE {
                return Some(id);
            }
            id = id + 1;
        }
        None
    }

    /// Whether a run of `n` chunks from the one holding `addr` stays inside
    /// the bitmap of every arena whose live chunks hold `addr`: what
    /// returning such a run to its arena needs.
    pub fn run_fits(&self, addr: usize, n: usize) -> (b: bool)
        requires
            self.wf(),
        ensures
            b == forall|k: int| 0 <= k < self.count() && #[trigger] self.get(k).holds(addr as int)
                ==> self.get(k).chunk_of(addr as int) + n <= MAX_CHUNKS,
    {
        let count = self.arenas.len();
        let mut id: usize = 0;
        while id < count
            invariant
                self.wf(),
                count == self.count(),
                id <= count,
                forall|k: int| 0 <= k < id && #[trigger] self.get(k).holds(addr as int)
                    ==> self.get(k).chunk_of(addr as int) + n <= MAX_CHUNKS,
            decreases count - id,
        {
            proof {
                assert(self.arenas@[id as int].wf());
            }
            let base = self.arenas[id].base;
            let live = self.arenas[id].chunks_live;
            if addr >= base && addr < base + live * SEGMENT_SIZE {
                let start = (addr - base) / SEGMENT_SIZE;
                proof {
                    assert(self.get(id as int).holds(addr as int));
                    assert(start == self.get(id as int).chunk_of(addr as int));
                }
                if n > MAX_CHUNKS || start > MAX_CHUNKS - n {
                    return false;
                }
            }
            id = id + 1;
        }
        true
    }

    /// `post` is `self` after `n` chunks from the one holding `addr`
    /// were returned to the first arena holding it: no longer used.
    pub open spec fn freed_chunks(&self, post: Arenas, addr: int, n: int) -> bool {
        exists|id: int| {
            &&& #[trigger] self.owner_of(id, addr)
            &&& self.only_changed(post, id)
            &&& self.get(id).with_chunks(post.get(id), self.get(id).chunk_of(addr), n, false)
        }
    }

    /// No address lies in the live chunks of two arenas.
    pub open spec fn disjoint(&self) -> bool {
        forall|k1: int, k2: int, addr: int| 0 <= k1 < self.count() && 0 <= k2 < self.count() && k1 != k2
            && #[trigger] self.get(k1).holds(addr) ==> !#[trigger] self.get(k2).holds(addr)
    }

    /// Return the chunk holding `addr` to its arena: `true` when an arena's
    /// live chunks hold the address (the first such arena), `false` and no
    /// change otherwise.
    pub fn chunk_free(&mut self, addr: usize) -> (ok: bool)
        requires
            old(self).wf(),
        ensures
            final(self).wf(),
            ok == exists|k: int| 0 <= k < old(self).count() && #[trigger] old(self).get(k).holds(addr as int),
            ok ==> old(self).freed_chunks(*final(self), addr as int, 1),
            !ok ==> *final(self) == *old(self),
    {
        proof {
            assert forall|k: int| 0 <= k < old(self).count() && #[trigger] old(self).get(k).holds(addr as int)
                implies old(self).get(k).chunk_of(addr as int) + 1 <= MAX_CHUNKS by {
                let a = old(self).get(k);
                assert(a.wf()) by { assert(old(self).arenas@[k].wf()); }
                a.lemma_chunk_of_bounded(addr as int);
            }
        }
        self.chunk_free_n(addr, 1)
    }

    /// Return `n` chunks, from the one holding `addr`, to its arena: `true`
    /// when an arena's live chunks hold the address, `false` and no change
    /// otherwise. The run must stay inside the arena's bitmap.
    pub fn chunk_free_n(&mut self, addr: usize, n: usize) -> (ok: bool)
        requires
            old(self).wf(),
            forall|k: int| 0 <= k < old(self).count() && #[trigger] old(self).get(k).holds(addr as int)
                ==> old(self).get(k).chunk_of(addr as int) + n <= MAX_CHUNKS,
        ensures
            final(self).wf(),
            ok == exists|k: int| 0 <= k < old(self).count() && #[trigger] old(self).get(k).holds(addr as int),
            ok ==> old(self).freed_chunks(*final(self), addr as int, n as int),
            !ok ==> *final(self) == *old(self),
    {
        match self.find_owner(addr) {
            None => false,
            Some(id) => {
                let ghost pre = *self;
                let start = (addr - self.arenas[id].base) / SEGMENT_SIZE;
                proof {
                    assert(self.get(id as int).holds(addr as int));
                    assert(start == pre.get(id as int).chunk_of(addr as int));
                }
                self.set_chunks_of(id, start, n, false);
                true
            },
        }
    }

    /// Freeing the chunk a single-chunk allocation just took succeeds and
    /// puts the table back as it was, but for that chunk now being dirty:
    /// the same arenas with the same chunks in use.
    pub proof fn lemma_chunk_free_undoes_chunk_alloc(a0: Arenas, a1: Arenas, a2: Arenas, p: int, zero: bool, restrict: int)
        requires
            a0.wf(),
            a0.disjoint(),
            a0.took_chunk(a1, p, zero, restrict),
            a1.freed_chunks(a2, p, 1),
        ensures
            exists|k: int| 0 <= k < a1.count() && #[trigger] a1.get(k).holds(p),
            a2.count() == a0.count(),
            a2.reserve_failed() == a0.reserve_failed(),
            forall|k: int| 0 <= k < a0.count() ==> #[trigger] a0.get(k).same_use(a2.get(k)),
    {
        let (id, i) = choose|id: int, i: int| {
            &&& #[trigger] a0.first_chunk(id, i, restrict)
            &&& p == a0.get(id).chunk_addr(i)
            &&& zero == !a0.get(id).dirty(i)
            &&& a0.only_changed(a1, id)
            &&& a0.get(id).with_chunks(a1.get(id), i, 1, true)
        };
        assert(a0.first_chunk(id, i, restrict));
        let x = a0.get(id);
        assert(x.wf()) by { assert(a0.arenas@[id].wf()); }
        assert(x.holds(p)) by {
            assert(i * SEGMENT_SIZE + SEGMENT_SIZE <= x.live() * SEGMENT_SIZE) by (nonlinear_arith)
                requires i < x.live();
        }
        assert(a1.get(id).holds(p));
        let id2 = choose|id2: int| {
            &&& #[trigger] a1.owner_of(id2, p)
            &&& a1.only_changed(a2, id2)
            &&& a1.get(id2).with_chunks(a2.get(id2), a1.get(id2).chunk_of(p), 1, false)
        };
        assert(a1.owner_of(id2, p));
        if id2 != id {
            assert(a1.get(id2) == a0.get(id2));
            assert(a0.get(id2).holds(p));
            assert(false);
        }
        assert(x.chunk_of(p) == i) by {
            vstd::arithmetic::div_mod::lemma_div_multiples_vanish(i, SEGMENT_SIZE as int);
            assert(i * SEGMENT_SIZE == SEGMENT_SIZE * i) by (nonlinear_arith);
        }
        assert forall|k: int| 0 <= k < a0.count() implies #[trigger] a0.get(k).same_use(a2.get(k)) by {
            if k != id {
                assert(a2.get(k) == a1.get(k));
                assert(a1.get(k) == a0.get(k));
            } else {
                assert forall|j: int| 0 <= j < MAX_CHUNKS implies #[trigger] a2.get(id).used(j) == x.used(j) by {
                    if j == i {
                        assert(!x.used(i));
                    }
                }
            }
        }
    }

    /// Arena `id` can be extended in place by an adopted block of `n` chunks
    /// at `addr`: ours, non-exclusive, ending at `addr`, with bitmap room.
    pub open spec fn extendable(&self, id: int, addr: int, n: int) -> bool {
        &&& 0 <= id < self.count()
        &&& !self.get(id).excl()
        &&& self.get(id).own()
        &&& self.get(id).base_addr() + self.get(id).live() * SEGMENT_SIZE == addr
        &&& self.get(id).live() + n <= MAX_CHUNKS
    }

    /// Arena `id` grown in place by `n` chunks, which are free and dirty.
    fn extend_of(&mut self, id: usize, n: usize)
        requires
            old(self).wf(),
            id < old(self).count(),
            old(self).get(id as int).live() + n <= MAX_CHUNKS,
            old(self).get(id as int).base_addr() + (old(self).get(id as int).live() + n) * SEGMENT_SIZE <= usize::MAX,
        ensures
            final(self).wf(),
            old(self).only_changed(*final(self), id as int),
            old(self).get(id as int).extended(final(self).get(id as int), n as int),
    {
        let mut a = self.arenas.remove(id);
        let ghost a0 = a;
        assert(a0 == old(self).get(id as int));
        a.extend(n);
        self.arenas.insert(id, a);
        proof {
            assert forall|k: int| 0 <= k < self.count() && k != id implies #[trigger] self.get(k) == old(self).get(k) by {
                assert(self.arenas@[k] == old(self).arenas@[k]);
            }
            assert forall|k: int| 0 <= k < self.arenas@.len() implies #[trigger] self.arenas@[k].wf() by {
                if k != id {
                    assert(self.arenas@[k] == old(self).arenas@[k]);
                }
            }
        }
    }

    /// Mark chunks `0 .. n` of arena `id` dirty, leaving them free.
    fn mark_dirty(&mut self, id: usize, n: usize)
        requires
            old(self).wf(),
            id < old(self).count(),
            n <= MAX_CHUNKS,
            forall|j: int| 0 <= j < n ==> !#[trigger] old(self).get(id as int).used(j),
        ensures
            final(self).wf(),
            old(self).only_changed(*final(self), id as int),
            old(self).get(id as int).dirtied(final(self).get(id as int), n as int),
    {
        let ghost a0 = self.get(id as int);
        self.set_chunks_of(id, 0, n, true);
        let ghost a1 = self.get(id as int);
        let ghost mid = *self;
        self.set_chunks_of(id, 0, n, false);
        proof {
            let a2 = self.get(id as int);
            assert(a0.with_chunks(a1, 0, n as int, true));
            assert(a1.with_chunks(a2, 0, n as int, false));
            assert forall|j: int| 0 <= j < MAX_CHUNKS implies #[trigger] a2.used(j)
                == if 0 <= j < n { false } else { a0.used(j) } by {
                assert(a1.used(j) == if 0 <= j < n { true } else { a0.used(j) });
            }
            assert forall|j: int| 0 <= j < MAX_CHUNKS implies #[trigger] a2.dirty(j)
                == (j < n || a0.dirty(j)) by {
                assert(a1.dirty(j) == if 0 <= j < n { true } else { a0.dirty(j) });
            }
            assert forall|k: int| 0 <= k < old(self).count() && k != id implies #[trigger] self.get(k) == old(self).get(k) by {
                assert(mid.get(k) == old(self).get(k));
            }
        }
    }

    /// Adopt a block the backend cannot take back as free, dirty chunks: by
    /// extending in place the first arena it continues, else as a new arena.
    /// `None`, and no change, when the block is empty, not chunk-aligned,
    /// not whole chunks, or can be neither extended into nor registered.
    pub fn adopt_os_block(&mut self, addr: usize, size: usize) -> (r: Option<i32>)
        requires
            old(self).wf(),
            addr + size <= usize::MAX,
        ensures
            final(self).wf(),
            r is None <==> size == 0 || addr % SEGMENT_SIZE != 0 || size % SEGMENT_SIZE != 0
                || ((forall|k: int| !#[trigger] old(self).extendable(k, addr as int, (size / SEGMENT_SIZE) as int))
                    && (size / SEGMENT_SIZE > MAX_CHUNKS || old(self).count() >= MAX_ARENAS)),
            r matches Some(id) ==> {
                ||| {
                    &&& old(self).extendable(id as int, addr as int, (size / SEGMENT_SIZE) as int)
                    &&& forall|k: int| 0 <= k < id ==> !#[trigger] old(self).extendable(k, addr as int, (size / SEGMENT_SIZE) as int)
                    &&& old(self).only_changed(*final(self), id as int)
                    &&& old(self).get(id as int).extended(final(self).get(id as int), (size / SEGMENT_SIZE) as int)
                }
                ||| {
                    &&& forall|k: int| !#[trigger] old(self).extendable(k, addr as int, (size / SEGMENT_SIZE) as int)
                    &&& id == old(self).count()
                    &&& final(self).count() == old(self).count() + 1
                    &&& forall|k: int| 0 <= k < old(self).count() ==> #[trigger] final(self).get(k) == old(self).get(k)
                    &&& final(self).get(id as int).fresh_as(addr as int, size as int, false, true, -1i32, true)
                }
            },
            r is None ==> *final(self) == *old(self),
    {
        if size == 0 || addr % SEGMENT_SIZE != 0 || size % SEGMENT_SIZE != 0 {
            return None;
        }
        let n = size / SEGMENT_SIZE;
        let count = self.arenas.len();
        let mut id: usize = 0;
        while id < count
            invariant
                self.wf(),
                *self == *old(self),
                count == self.count(),
                id <= count,
                n == size / SEGMENT_SIZE,
                size % SEGMENT_SIZE == 0,
                size > 0,
                addr % SEGMENT_SIZE == 0,
                addr + size <= usize::MAX,
                forall|k: int| 0 <= k < id ==> !#[trigger] self.extendable(k, addr as int, n as int),
            decreases count - id,
        {
            proof {
                assert(self.arenas@[id as int].wf());
            }
            let a = &self.arenas[id];
            if a.exclusive || !a.owned || a.base + a.chunks_live * SEGMENT_SIZE != addr || a.chunks_live + n > MAX_CHUNKS {
                id = id + 1;
                continue;
            }
            proof {
                vstd::arithmetic::div_mod::lemma_fundamental_div_mod(size as int, SEGMENT_SIZE as int);
                assert(n * SEGMENT_SIZE == size) by (nonlinear_arith)
                    requires size as int == SEGMENT_SIZE * ((size as int) / (SEGMENT_SIZE as int)) + (size as int) % (SEGMENT_SIZE as int),
                        (size as int) % (SEGMENT_SIZE as int) == 0, n == (size as int) / (SEGMENT_SIZE as int);
                assert(old(self).extendable(id as int, addr as int, n as int));
                assert(old(self).extendable(id as int, addr as int, (size / SEGMENT_SIZE) as int));
                assert((self.get(id as int).live() + n) * SEGMENT_SIZE == self.get(id as int).live() * SEGMENT_SIZE + n * SEGMENT_SIZE)
                    by (nonlinear_arith);
            }
            self.extend_of(id, n);
            return Some(id as i32);
        }
        proof {
            assert(forall|k: int| !#[trigger] old(self).extendable(k, addr as int, n as int));
        }
        match self.register(addr, size, false, true, -1) {
            Err(_) => None,
            Ok(id) => {
                let idu = id as usize;
                let ghost mid = *self;
                proof {
                    vstd::arithmetic::div_mod::lemma_fundamental_div_mod(size as int, SEGMENT_SIZE as int);
                    assert(mid.get(id as int).live() == n);
                }
                self.mark_dirty(idu, n);
                proof {
                    let a = self.get(id as int);
                    let f = mid.get(id as int);
                    assert forall|j: int| 0 <= j < MAX_CHUNKS implies !#[trigger] a.used(j) by {
                        assert(!f.used(j));
                    }
                    assert forall|j: int| 0 <= j < MAX_CHUNKS implies #[trigger] a.dirty(j) == (true && j < a.live()) by {
                        assert(!f.used(j));
                        assert(!f.dirty(j));
                    }
                    assert(a.fresh_as(addr as int, size as int, false, true, -1i32, true));
                    assert forall|k: int| 0 <= k < old(self).count() implies #[trigger] self.get(k) == old(self).get(k) by {
                        assert(mid.get(k) == old(self).get(k));
                    }
                }
                Some(id)
            },
        }
    }

    /// Adopt caller-provided memory `[start, start + size)` as an arena: its
    /// `SEGMENT_SIZE`-aligned interior, every chunk marked dirty, never
    /// returned to the backend. `Err` when the interior holds no chunk or
    /// cannot be registered.
    pub fn manage_os_memory_ex(&mut self, start: usize, size: usize, _is_committed: bool, _is_large: bool,
        _is_zero: bool, numa_node: i32, exclusive: bool) -> (r: Result<i32, ()>)
        requires
            old(self).wf(),
            start + size <= usize::MAX,
            start + SEGMENT_SIZE - 1 <= usize::MAX,
        ensures
            final(self).wf(),
            ({
                let lo = crate::prim::spec_align_up(start as int, SEGMENT_SIZE as int);
                let hi = ((start + size) / (SEGMENT_SIZE as int)) * SEGMENT_SIZE;
                &&& r is Ok <==> hi > lo && (hi - lo) / (SEGMENT_SIZE as int) <= MAX_CHUNKS && old(self).count() < MAX_ARENAS
                &&& r matches Ok(id) ==> {
                    &&& id == old(self).count()
                    &&& final(self).count() == old(self).count() + 1
                    &&& forall|k: int| 0 <= k < old(self).count() ==> #[trigger] final(self).get(k) == old(self).get(k)
                    &&& final(self).get(id as int).fresh_as(lo, hi - lo, exclusive, false, numa_node, true)
                }
            }),
            r is Err ==> *final(self) == *old(self),
    {
        proof {
            crate::prim::fixed::lemma_fixed_constants();
            crate::prim::lemma_round_up_bounds(start as int, SEGMENT_SIZE as int);
            vstd::arithmetic::div_mod::lemma_fundamental_div_mod((start + size) as int, SEGMENT_SIZE as int);
            vstd::arithmetic::div_mod::lemma_fundamental_div_mod((start + SEGMENT_SIZE - 1) as int, SEGMENT_SIZE as int);
        }
        let lo = ((start + (SEGMENT_SIZE - 1)) / SEGMENT_SIZE) * SEGMENT_SIZE;
        let hi = ((start + size) / SEGMENT_SIZE) * SEGMENT_SIZE;
        if hi <= lo {
            return Err(());
        }
        proof {
            vstd::arithmetic::div_mod::lemma_mod_multiples_basic((start + SEGMENT_SIZE - 1) as int / SEGMENT_SIZE as int, SEGMENT_SIZE as int);
            vstd::arithmetic::div_mod::lemma_mod_multiples_basic((start + size) as int / SEGMENT_SIZE as int, SEGMENT_SIZE as int);
            let ql = (start + SEGMENT_SIZE - 1) as int / SEGMENT_SIZE as int;
            let qh = (start + size) as int / SEGMENT_SIZE as int;
            assert(hi - lo == (qh - ql) * SEGMENT_SIZE) by (nonlinear_arith)
                requires hi == qh * SEGMENT_SIZE, lo == ql * SEGMENT_SIZE;
            vstd::arithmetic::div_mod::lemma_div_multiples_vanish(qh - ql, SEGMENT_SIZE as int);
            assert((hi - lo) / (SEGMENT_SIZE as int) == qh - ql) by (nonlinear_arith)
                requires hi - lo == (qh - ql) * SEGMENT_SIZE, ((qh - ql) * SEGMENT_SIZE) / (SEGMENT_SIZE as int) == qh - ql;
            assert(qh - ql > 0);
        }
        match self.register(lo, hi - lo, exclusive, false, numa_node) {
            Err(_) => Err(()),
            Ok(id) => {
                let idu = id as usize;
                let chunks = self.arenas[idu].chunks_live;
                let ghost mid = *self;
                proof {
                    assert(self.arenas@[idu as int].wf());
                }
                self.mark_dirty(idu, chunks);
                proof {
                    let a = self.get(id as int);
                    let f = mid.get(id as int);
                    assert forall|j: int| 0 <= j < MAX_CHUNKS implies !#[trigger] a.used(j) by {
                        assert(!f.used(j));
                    }
                    assert forall|j: int| 0 <= j < MAX_CHUNKS implies #[trigger] a.dirty(j) == (true && j < a.live()) by {
                        assert(!f.used(j));
                        assert(!f.dirty(j));
                    }
                    assert forall|k: int| 0 <= k < old(self).count() implies #[trigger] self.get(k) == old(self).get(k) by {
                        assert(mid.get(k) == old(self).get(k));
                    }
                }
                Ok(id)
            },
        }
    }

    /// `post` holds the same arenas as `self`.
    pub open spec fn same_arenas(&self, post: Arenas) -> bool {
        &&& post.count() == self.count()
        &&& forall|k: int| 0 <= k < self.count() ==> #[trigger] post.get(k) == self.get(k)
    }

    /// `[base, base + size)` would be accepted as a new arena.
    pub open spec fn registrable(&self, base: int, size: int) -> bool {
        &&& size / (SEGMENT_SIZE as int) > 0
        &&& size / (SEGMENT_SIZE as int) <= MAX_CHUNKS
        &&& base % (SEGMENT_SIZE as int) == 0
        &&& self.count() < MAX_ARENAS
    }

    /// `post` is `self` with one more arena over `[base, base + size)`,
    /// fresh and clean, at the end of the table.
    pub open spec fn appended(&self, post: Arenas, base: int, size: int, exclusive: bool, owned: bool, numa_node: i32) -> bool {
        &&& post.count() == self.count() + 1
        &&& forall|k: int| 0 <= k < self.count() ==> #[trigger] post.get(k) == self.get(k)
        &&& post.get(self.count()).fresh_as(base, size, exclusive, owned, numa_node, false)
    }

    /// Bytes reserved for an arena asked to hold `size`: whole chunks.
    pub open spec fn reserve_total(size: int) -> int {
        spec_div_ceil(size, SEGMENT_SIZE as int) * SEGMENT_SIZE
    }

    /// What asking the backend for a `size`-byte arena did, `ok` telling
    /// whether an arena came of it. The backend is asked for the chunk-rounded
    /// size at chunk alignment. When it cannot serve that, nothing changes.
    /// When it can, the block is taken from `region` whatever follows, and it
    /// becomes a fresh arena at the end of the table exactly when it can be
    /// registered; otherwise the arenas are unchanged.
    pub open spec fn reserve_outcome(&self, region: FixedRegion, post: Arenas, post_region: FixedRegion,
        size: int, exclusive: bool, ok: bool) -> bool
    {
        let total = Self::reserve_total(size);
        let want = spec_page_align_up(total);
        if !region.can_alloc(want, SEGMENT_SIZE as int) {
            &&& !ok
            &&& self.same_arenas(post)
            &&& post_region == region
        } else {
            exists|b: int| {
                &&& #[trigger] region.alloc_took(post_region, b, want, SEGMENT_SIZE as int)
                &&& ok == self.registrable(b, total)
                &&& ok ==> self.appended(post, b, total, exclusive, true, -1i32)
                &&& !ok ==> self.same_arenas(post)
            }
        }
    }

    /// Reserve fresh backend memory of at least `size` bytes, rounded up to
    /// whole chunks, as a new arena owned by the allocator; the new arena's
    /// id. Memory is always committed here. A block the table cannot
    /// register stays reserved.
    pub fn reserve_os_memory_ex(&mut self, region: &mut FixedRegion, size: usize, _commit: bool,
        allow_large: bool, exclusive: bool) -> (r: Result<i32, ()>)
        requires
            old(self).wf(),
            old(region).wf(),
            size + SEGMENT_SIZE - 1 <= usize::MAX,
            Self::reserve_total(size as int) + FIXED_PAGE - 1 <= usize::MAX,
        ensures
            final(self).wf(),
            final(region).wf(),
            final(region).origin() == old(region).origin(),
            final(region).total() == old(region).total(),
            final(self).reserve_failed() == old(self).reserve_failed(),
            old(self).reserve_outcome(*old(region), *final(self), *final(region), size as int, exclusive, r is Ok),
            r matches Ok(id) ==> id == old(self).count(),
            r is Err ==> *final(self) == *old(self),
    {
        proof {
            vstd::arithmetic::power2::lemma2_to64();
            assert(is_power_of_two(SEGMENT_SIZE as int)) by {
                assert(vstd::arithmetic::power2::pow2(25) == SEGMENT_SIZE);
            }
        }
        let q = div_ceil(size, SEGMENT_SIZE);
        let total = q * SEGMENT_SIZE;
        let ghost want = spec_page_align_up(total as int);
        match alloc_aligned(region, total, SEGMENT_SIZE, true, allow_large) {
            Err(_) => {
                Err(())
            },
            Ok(b) => {
                proof {
                    vstd::arithmetic::div_mod::lemma_fundamental_div_mod(b.addr as int, SEGMENT_SIZE as int);
                }
                let r = self.register(b.addr, total, exclusive, true, -1);
                proof {
                    assert(old(region).alloc_took(*region, b.addr as int, want, SEGMENT_SIZE as int));
                    if r is Ok {
                        let id = r->Ok_0;
                        assert forall|j: int| 0 <= j < MAX_CHUNKS implies
                            #[trigger] self.get(id as int).dirty(j) == (false && j < self.get(id as int).live()) by {
                            assert(!self.get(id as int).used(j));
                        }
                        assert(old(self).appended(*self, b.addr as int, total as int, exclusive, true, -1i32));
                    }
                }
                r
            },
        }
    }

    /// The bytes `arena_reserve` asks a default arena to hold.
    pub open spec fn default_reserve(options: Options) -> int {
        (if options.spec_get(ARENA_RESERVE as int) > 0 { options.spec_get(ARENA_RESERVE as int) } else { 0 }) * 1024
    }

    /// What reserving a default arena on a miss did, `ok` telling whether a
    /// new arena came of it: nothing once a reservation has failed or when
    /// `arena_reserve` is under one chunk; otherwise a non-exclusive
    /// reservation of that size, whose failure is remembered.
    pub open spec fn reserve_default_outcome(&self, options: Options, region: FixedRegion, post: Arenas,
        post_region: FixedRegion, ok: bool) -> bool
    {
        let size = Self::default_reserve(options);
        if self.reserve_failed() || size < SEGMENT_SIZE {
            !ok && post == *self && post_region == region
        } else {
            &&& self.reserve_outcome(region, post, post_region, size, false, ok)
            &&& post.reserve_failed() == !ok
        }
    }

    /// Reserve one more default-sized arena after every arena came up full.
    /// A failed reservation latches: no later miss asks the backend again.
    pub fn reserve_default_arena_on_miss(&mut self, options: &Options, region: &mut FixedRegion) -> (ok: bool)
        requires
            old(self).wf(),
            old(region).wf(),
            options.wf(),
            Self::default_reserve(*options) <= usize::MAX,
            Self::default_reserve(*options) + SEGMENT_SIZE - 1 <= usize::MAX,
            Self::reserve_total(Self::default_reserve(*options)) + FIXED_PAGE - 1 <= usize::MAX,
        ensures
            final(self).wf(),
            final(region).wf(),
            final(region).origin() == old(region).origin(),
            final(region).total() == old(region).total(),
            old(self).reserve_default_outcome(*options, *old(region), *final(self), *final(region), ok),
    {
        if self.reserve_failed {
            return false;
        }
        let reserve = options.get_size(ARENA_RESERVE);
        if reserve < SEGMENT_SIZE {
            return false;
        }
        let ok = self.reserve_os_memory_ex(region, reserve, true, false, false).is_ok();
        if !ok {
            self.reserve_failed = true;
            proof {
                let r0 = *old(region);
                let total = Self::reserve_total(reserve as int);
                let want = spec_page_align_up(total);
                if r0.can_alloc(want, SEGMENT_SIZE as int) {
                    let b = choose|b: int| {
                        &&& #[trigger] r0.alloc_took(*region, b, want, SEGMENT_SIZE as int)
                        &&& false == old(self).registrable(b, total)
                        &&& false ==> old(self).appended(*self, b, total, false, true, -1i32)
                        &&& !false ==> old(self).same_arenas(*self)
                    };
                    assert(r0.alloc_took(*region, b, want, SEGMENT_SIZE as int));
                }
            }
        }
        ok
    }

    /// What a default reservation did to the table: one fresh, clean,
    /// non-exclusive arena with at least one chunk appended when `ok`,
    /// nothing else touched.
    proof fn lemma_reserve_default(&self, options: Options, region: FixedRegion, post: Arenas,
        post_region: FixedRegion, ok: bool)
        requires
            self.reserve_default_outcome(options, region, post, post_region, ok),
        ensures
            post.count() == self.count() + (if ok { 1int } else { 0int }),
            forall|k: int| 0 <= k < self.count() ==> #[trigger] post.get(k) == self.get(k),
            ok ==> post.get(self.count()).live() > 0,
            ok ==> !post.get(self.count()).excl(),
            ok ==> forall|j: int| 0 <= j < MAX_CHUNKS ==> !#[trigger] post.get(self.count()).used(j)
                && !post.get(self.count()).dirty(j),
    {
        let size = Self::default_reserve(options);
        if !(self.reserve_failed() || size < SEGMENT_SIZE) {
            let total = Self::reserve_total(size);
            let want = spec_page_align_up(total);
            if region.can_alloc(want, SEGMENT_SIZE as int) {
                let b = choose|b: int| {
                    &&& #[trigger] region.alloc_took(post_region, b, want, SEGMENT_SIZE as int)
                    &&& ok == self.registrable(b, total)
                    &&& ok ==> self.appended(post, b, total, false, true, -1i32)
                    &&& !ok ==> self.same_arenas(post)
                };
                assert(region.alloc_took(post_region, b, want, SEGMENT_SIZE as int));
                if ok {
                    let a = post.get(self.count());
                    assert(a.fresh_as(b, total, false, true, -1i32, false));
                    assert forall|j: int| 0 <= j < MAX_CHUNKS implies !#[trigger] a.used(j) && !a.dirty(j) by {
                        assert(!a.used(j));
                        assert(a.dirty(j) == (false && j < a.live()));
                    }
                }
            }
        }
    }

    /// A chunk or run an allocation took lies whole inside its arena, at a
    /// chunk boundary.
    proof fn lemma_took_run_addr(a: Arenas, post: Arenas, p: int, zero: bool, n: int, restrict: int, single: bool)
        requires
            a.wf(),
            n >= 1,
            single ==> n == 1 && a.took_chunk(post, p, zero, restrict),
            !single ==> a.took_run(post, p, zero, n, restrict),
        ensures
            p % SEGMENT_SIZE as int == 0,
            p + n * SEGMENT_SIZE <= usize::MAX,
    {
        let (id, i) = if single {
            choose|id: int, i: int| {
                &&& #[trigger] a.first_chunk(id, i, restrict)
                &&& p == a.get(id).chunk_addr(i)
                &&& zero == !a.get(id).dirty(i)
                &&& a.only_changed(post, id)
                &&& a.get(id).with_chunks(post.get(id), i, 1, true)
            }
        } else {
            choose|id: int, s: int| {
                &&& #[trigger] a.first_chunk_run(id, s, n, restrict)
                &&& p == a.get(id).chunk_addr(s)
                &&& zero == !exists|j: int| s <= j < s + n && #[trigger] a.get(id).dirty(j)
                &&& a.only_changed(post, id)
                &&& a.get(id).with_chunks(post.get(id), s, n, true)
            }
        };
        if single {
            assert(a.first_chunk(id, i, restrict));
        } else {
            assert(a.first_chunk_run(id, i, n, restrict));
        }
        let x = a.get(id);
        assert(x.wf()) by { assert(a.arenas@[id].wf()); }
        assert(i + n <= x.live());
        Self::lemma_chunk_addr(x, i, n);
    }

    /// Chunks `i .. i + n` of an arena lie in the address space, at a chunk
    /// boundary.
    proof fn lemma_chunk_addr(x: Arena, i: int, n: int)
        requires
            x.wf(),
            0 <= i,
            n >= 1,
            i + n <= x.live(),
        ensures
            x.chunk_addr(i) % SEGMENT_SIZE as int == 0,
            x.chunk_addr(i) + n * SEGMENT_SIZE <= usize::MAX,
    {
        vstd::arithmetic::div_mod::lemma_mod_multiples_vanish(i, x.base as int, SEGMENT_SIZE as int);
        assert(x.base as int % SEGMENT_SIZE as int == 0);
        assert(x.base + i * SEGMENT_SIZE == i * SEGMENT_SIZE + x.base);
        assert((i * SEGMENT_SIZE + x.base) % (SEGMENT_SIZE as int) == 0) by {
            vstd::arithmetic::div_mod::lemma_mod_multiples_vanish(i, x.base as int, SEGMENT_SIZE as int);
        }
        assert(i * SEGMENT_SIZE + n * SEGMENT_SIZE <= x.live() * SEGMENT_SIZE) by (nonlinear_arith)
            requires i + n <= x.live();
    }

    /// What a single-chunk request restricted to `restrict` does (see
    /// [`Arenas::chunk_alloc`]).
    pub open spec fn chunk_alloc_outcome(&self, options: Options, region: FixedRegion, post: Arenas,
        post_region: FixedRegion, restrict: int, r: Option<(usize, bool)>) -> bool
    {
        if restrict < 0 && options.spec_get(DISALLOW_ARENA_ALLOC as int) != 0 {
            r is None && post == *self && post_region == region
        } else if !self.all_full(restrict) {
            &&& post_region == region
            &&& r matches Some((p, zero)) && self.took_chunk(post, p as int, zero, restrict)
        } else if restrict >= 0 {
            r is None && post == *self && post_region == region
        } else {
            exists|mid: Arenas, ok: bool| {
                &&& #[trigger] self.reserve_default_outcome(options, region, mid, post_region, ok)
                &&& r is Some <==> ok
                &&& r is None ==> post == mid
                &&& r matches Some((p, zero)) ==> {
                    &&& zero
                    &&& p == mid.get(self.count()).base_addr()
                    &&& mid.only_changed(post, self.count())
                    &&& mid.get(self.count()).with_chunks(post.get(self.count()), 0, 1, true)
                }
            }
        }
    }

    /// Allocate one chunk: its address and whether it is known zero. A
    /// request restricted to arena `restrict_id >= 0` uses only that arena;
    /// an unrestricted one (`restrict_id < 0`) any non-exclusive arena, none
    /// at all when `disallow_arena_alloc` is set. When every usable arena is
    /// full, an unrestricted request reserves one more default arena and
    /// takes its first chunk.
    pub fn chunk_alloc(&mut self, options: &Options, region: &mut FixedRegion, restrict_id: i32)
        -> (r: Option<(usize, bool)>)
        requires
            old(self).wf(),
            old(region).wf(),
            options.wf(),
            Self::default_reserve(*options) + SEGMENT_SIZE - 1 <= usize::MAX,
            Self::reserve_total(Self::default_reserve(*options)) + FIXED_PAGE - 1 <= usize::MAX,
        ensures
            final(self).wf(),
            final(region).wf(),
            final(region).origin() == old(region).origin(),
            final(region).total() == old(region).total(),
            old(self).chunk_alloc_outcome(*options, *old(region), *final(self), *final(region), restrict_id as int, r),
            r matches Some((p, _)) ==> p % SEGMENT_SIZE == 0 && p + SEGMENT_SIZE <= usize::MAX,
    {
        if restrict_id < 0 && options.is_enabled(DISALLOW_ARENA_ALLOC) {
            return None;
        }
        match self.chunk_alloc_inner(restrict_id) {
            Some(r) => {
                proof {
                    Self::lemma_took_run_addr(*old(self), *self, r.0 as int, r.1, 1, restrict_id as int, true);
                }
                return Some(r);
            },
            None => {},
        }
        if restrict_id >= 0 {
            return None;
        }
        let ok = self.reserve_default_arena_on_miss(options, region);
        let ghost mid = *self;
        proof {
            old(self).lemma_reserve_default(*options, *old(region), mid, *region, ok);
            assert(ok == (mid.count() > old(self).count()));
        }
        if !ok {
            proof {
                assert(old(self).reserve_default_outcome(*options, *old(region), mid, *region, ok));
            }
            return None;
        }
        let ghost c = old(self).count();
        proof {
            let a = mid.get(c);
            assert(mid.eligible(c, restrict_id as int));
            assert(!a.used(0));
            assert(!a.full());
            assert(!mid.all_full(restrict_id as int));
        }
        let r = self.chunk_alloc_inner(restrict_id);
        proof {
            let (p, zero) = r->Some_0;
            let (id, i) = choose|id: int, i: int| {
                &&& #[trigger] mid.first_chunk(id, i, restrict_id as int)
                &&& p == mid.get(id).chunk_addr(i)
                &&& zero == !mid.get(id).dirty(i)
                &&& mid.only_changed(*self, id)
                &&& mid.get(id).with_chunks(self.get(id), i, 1, true)
            };
            assert(mid.first_chunk(id, i, restrict_id as int));
            if id < c {
                assert(old(self).eligible(id, restrict_id as int));
                assert(old(self).get(id).full());
                assert(mid.get(id).used(i));
                assert(false);
            }
            assert(id == c);
            if i > 0 {
                assert(mid.get(c).used(0));
                assert(false);
            }
            assert(i == 0);
            assert(mid.get(c).chunk_addr(0) == mid.get(c).base_addr());
            assert(mid.get(c).wf()) by { assert(mid.arenas@[c].wf()); }
            Self::lemma_chunk_addr(mid.get(c), 0, 1);
            assert(old(self).reserve_default_outcome(*options, *old(region), mid, *region, ok));
        }
        r
    }

    /// What a request for `n > 1` contiguous chunks restricted to `restrict`
    /// does (see [`Arenas::chunk_alloc_n`]).
    pub open spec fn chunk_alloc_n_outcome(&self, options: Options, region: FixedRegion, post: Arenas,
        post_region: FixedRegion, n: int, restrict: int, r: Option<(usize, bool)>) -> bool
    {
        if restrict < 0 && options.spec_get(DISALLOW_ARENA_ALLOC as int) != 0 {
            r is None && post == *self && post_region == region
        } else if !self.no_run(n, restrict) {
            &&& post_region == region
            &&& r matches Some((p, zero)) && self.took_run(post, p as int, zero, n, restrict)
        } else if restrict >= 0 {
            r is None && post == *self && post_region == region
        } else {
            exists|mid: Arenas, ok: bool| {
                &&& #[trigger] self.reserve_default_outcome(options, region, mid, post_region, ok)
                &&& r is Some <==> ok && n <= mid.get(self.count()).live()
                &&& r is None ==> post == mid
                &&& r matches Some((p, zero)) ==> {
                    &&& zero
                    &&& p == mid.get(self.count()).base_addr()
                    &&& mid.only_changed(post, self.count())
                    &&& mid.get(self.count()).with_chunks(post.get(self.count()), 0, n, true)
                }
            }
        }
    }

    /// Allocate `n` contiguous chunks: the run's address and whether all of
    /// it is known zero. One chunk is [`Arenas::chunk_alloc`]; otherwise the
    /// same rules, looking for the lowest run of `n` free chunks, and a
    /// freshly reserved default arena serves the request from its start when
    /// it is long enough.
    pub fn chunk_alloc_n(&mut self, options: &Options, region: &mut FixedRegion, restrict_id: i32, n: usize)
        -> (r: Option<(usize, bool)>)
        requires
            old(self).wf(),
            old(region).wf(),
            options.wf(),
            n > 0,
            Self::default_reserve(*options) + SEGMENT_SIZE - 1 <= usize::MAX,
            Self::reserve_total(Self::default_reserve(*options)) + FIXED_PAGE - 1 <= usize::MAX,
        ensures
            final(self).wf(),
            final(region).wf(),
            final(region).origin() == old(region).origin(),
            final(region).total() == old(region).total(),
            n == 1 ==> old(self).chunk_alloc_outcome(*options, *old(region), *final(self), *final(region), restrict_id as int, r),
            n > 1 ==> old(self).chunk_alloc_n_outcome(*options, *old(region), *final(self), *final(region), n as int,
                restrict_id as int, r),
            r matches Some((p, _)) ==> p % SEGMENT_SIZE == 0 && p + n * SEGMENT_SIZE <= usize::MAX,
    {
        if n == 1 {
            return self.chunk_alloc(options, region, restrict_id);
        }
        if restrict_id < 0 && options.is_enabled(DISALLOW_ARENA_ALLOC) {
            return None;
        }
        match self.chunk_alloc_n_inner(restrict_id, n) {
            Some(r) => {
                proof {
                    Self::lemma_took_run_addr(*old(self), *self, r.0 as int, r.1, n as int, restrict_id as int, false);
                }
                return Some(r);
            },
            None => {},
        }
        if restrict_id >= 0 {
            return None;
        }
        let ok = self.reserve_default_arena_on_miss(options, region);
        let ghost mid = *self;
        let ghost c = old(self).count();
        proof {
            old(self).lemma_reserve_default(*options, *old(region), mid, *region, ok);
            assert(ok == (mid.count() > old(self).count()));
        }
        if !ok {
            proof {
                assert(old(self).reserve_default_outcome(*options, *old(region), mid, *region, ok));
            }
            return None;
        }
        proof {
            let a = mid.get(c);
            assert(mid.eligible(c, restrict_id as int));
            if n <= a.live() {
                assert(a.run_free(0, n as int));
                assert(a.has_run(n as int));
                assert(!mid.no_run(n as int, restrict_id as int));
            } else {
                assert forall|k: int| #[trigger] mid.eligible(k, restrict_id as int) implies !mid.get(k).has_run(n as int) by {
                    if k < c {
                        assert(old(self).eligible(k, restrict_id as int));
                    }
                }
            }
        }
        let r = self.chunk_alloc_n_inner(restrict_id, n);
        proof {
            if r is Some {
                let (p, zero) = r->Some_0;
                let (id, s) = choose|id: int, s: int| {
                    &&& #[trigger] mid.first_chunk_run(id, s, n as int, restrict_id as int)
                    &&& p == mid.get(id).chunk_addr(s)
                    &&& zero == !exists|j: int| s <= j < s + n && #[trigger] mid.get(id).dirty(j)
                    &&& mid.only_changed(*self, id)
                    &&& mid.get(id).with_chunks(self.get(id), s, n as int, true)
                };
                assert(mid.first_chunk_run(id, s, n as int, restrict_id as int));
                if id < c {
                    assert(old(self).eligible(id, restrict_id as int));
                    assert(!old(self).get(id).has_run(n as int));
                    assert(mid.get(id).run_free(s, n as int));
                    assert(false);
                }
                assert(id == c);
                let a = mid.get(c);
                if s > 0 {
                    assert(a.run_free(0, n as int));
                    assert(false);
                }
                assert(s == 0);
                assert(a.chunk_addr(0) == a.base_addr());
                assert(a.wf()) by { assert(mid.arenas@[c].wf()); }
                assert(mid.first_chunk_run(c, 0, n as int, restrict_id as int));
                Self::lemma_chunk_addr(a, 0, n as int);
                assert(zero) by {
                    if !zero {
                        let j = choose|j: int| s <= j < s + n && #[trigger] a.dirty(j);
                        assert(!a.dirty(j));
                    }
                }
            }
            assert(old(self).reserve_default_outcome(*options, *old(region), mid, *region, ok));
        }
        r
    }

    /// Occupancy of arena `id`: base, live bytes, chunks in use, live chunks
    /// and whether it is exclusive; `None` for an id that names no arena.
    pub fn arena_usage(&self, id: usize) -> (r: Option<(usize, usize, usize, usize, bool)>)
        requires
            self.wf(),
        ensures
            id >= self.count() ==> r is None,
            id < self.count() ==> r == Some((self.get(id as int).base_addr() as usize,
                (self.get(id as int).live() * SEGMENT_SIZE) as usize,
                self.get(id as int).used_below(self.get(id as int).live()) as usize,
                self.get(id as int).live() as usize,
                self.get(id as int).excl())),
    {
        if id >= self.arenas.len() {
            return None;
        }
        proof {
            assert(self.arenas@[id as int].wf());
        }
        let a = &self.arenas[id];
        Some((a.base, a.chunks_live * SEGMENT_SIZE, a.used_count(), a.chunks_live, a.exclusive))
    }

    /// Arena `id`'s base and live size, `(0, 0)` for an id
    /// that names no arena.
    pub fn arena_area(&self, id: i32) -> (r: (usize, usize))
        requires
            self.wf(),
        ensures
            (id < 0 || id >= self.count()) ==> r == (0usize, 0usize),
            (0 <= id < self.count()) ==> r.0 == self.get(id as int).base_addr()
                && r.1 == self.get(id as int).live() * SEGMENT_SIZE,
    {
        if id < 0 || id as usize >= self.arenas.len() {
            return (0, 0);
        }
        let idu = id as usize;
        proof {
            assert(self.arenas@[idu as int].wf());
        }
        (self.arenas[idu].base, self.arenas[idu].chunks_live * SEGMENT_SIZE)
    }
}

} // verus!
