//! The fixed-region backend: memory is one range handed over once. Its free
//! list is a sorted table of extents, allocation is two-ended first fit and
//! a free coalesces with its neighbours. The sizing rules a firmware plans
//! its region with live here too.

use vstd::prelude::*;
use super::{align_up, is_power_of_two, lemma_mask_round_down, lemma_round_up_bounds, spec_align_up, Alloc, MemConfig, PrimError};
use crate::types::{
    LARGE_OBJ_SIZE_MAX, MAX_ALIGN_SIZE, MEDIUM_OBJ_SIZE_MAX, MEDIUM_PAGE_SIZE, SEGMENT_SIZE,
    SEGMENT_SLICE_SIZE, SLICES_PER_SEGMENT, SMALL_OBJ_SIZE_MAX, SMALL_PAGE_SIZE, SMALL_SIZE_MAX,
};

verus! {

/// Generic failure of a backend operation.
pub const FERR: PrimError = 0xF13D;

/// The region is smaller than one [`FIXED_PAGE`].
pub const FERR_TOO_SMALL: PrimError = 0xF13E;

/// The region cannot hold a single segment, so the allocator above could
/// never serve anything from it.
pub const FERR_GEOMETRY: PrimError = 0xF13F;

/// A region is already registered; the backend takes one, once.
pub const FERR_REGISTERED: PrimError = 0xF140;

/// The region's base costs at least one whole segment: from this address the
/// region yields fewer segments than the same length would from a
/// [`REGION_ALIGN`]-aligned base.
pub const FERR_MISALIGNED: PrimError = 0xF141;

/// The smallest region accepted for an aligned base: one segment.
pub const MIN_REGION: usize = 33554432;

/// The backend's page: the granule of every request that is not a segment.
pub const FIXED_PAGE: usize = 4096;

/// The alignment a region's base needs (`MAX_ALIGN_SIZE`): segments stride
/// from the first such address at or above the base.
pub const REGION_ALIGN: usize = 16;

/// Storage for the backend to serve from: `N` bytes on the `REGION_ALIGN`
/// grid (the empty `align` field gives the alignment and no size), so a
/// whole-segment `N` carries no padding and its base costs no segment.
pub struct Region<const N: usize> {
    align: [u128; 0],
    bytes: [u8; N],
}

impl<const N: usize> Region<N> {
    /// Bytes a region of this type serves as segments: all of them, the
    /// base being aligned and `N` whole segments.
    pub fn usable_size() -> (n: usize)
        ensures
            n == spec_usable_bytes(0, N as int),
    {
        usable_bytes(0, N)
    }

    /// Its bytes.
    pub closed spec fn contents(&self) -> Seq<u8> {
        self.bytes@
    }

    /// Zeroed storage: `N` must hold one segment at least and be whole
    /// segments.
    pub fn new() -> (r: Self)
        requires
            N >= MIN_REGION,
            N % SEGMENT_SIZE == 0,
        ensures
            r.contents() == Seq::new(N as nat, |i: int| 0u8),
    {
        Region { align: [], bytes: [0u8; N] }
    }

    /// The region's size in bytes.
    pub fn len(&self) -> (n: usize)
        ensures
            n == N,
    {
        N
    }
}

/// Free-extent slots: the bound on the free list's length.
pub const MAX_EXTENTS: usize = 32;

/// The largest allocation that can share a segment with others; above it a
/// request takes whole segments of its own, since the header owns slice 0.
pub const LARGEST_SHARED_ALLOC: usize = 33488896;

/// How the sizing constants relate to the geometry.
pub proof fn lemma_fixed_constants()
    ensures
        MIN_REGION == SEGMENT_SIZE,
        REGION_ALIGN == MAX_ALIGN_SIZE,
        LARGEST_SHARED_ALLOC == LARGE_OBJ_SIZE_MAX,
        LARGEST_SHARED_ALLOC == SEGMENT_SIZE - SEGMENT_SLICE_SIZE,
        SEGMENT_SLICE_SIZE >= FIXED_PAGE,
        SEGMENT_SIZE % FIXED_PAGE == 0,
{
}

/// Bytes of whole segments a region `[base, base + len)` yields: segments
/// stride from the first [`REGION_ALIGN`]-aligned address at or above `base`.
/// 0 when the range or its run-up leaves the address space.
pub open spec fn spec_usable_bytes(base: int, len: int) -> int {
    if base + len > usize::MAX || base + REGION_ALIGN - 1 > usize::MAX {
        0
    } else {
        let first = spec_align_up(base, REGION_ALIGN as int);
        if first >= base + len {
            0
        } else {
            ((base + len - first) / (SEGMENT_SIZE as int)) * (SEGMENT_SIZE as int)
        }
    }
}

pub(crate) proof fn lemma_region_align_pow2()
    ensures
        is_power_of_two(REGION_ALIGN as int),
        is_power_of_two(FIXED_PAGE as int),
        is_power_of_two(SEGMENT_SIZE as int),
{
    vstd::arithmetic::power2::lemma2_to64();
    vstd::arithmetic::power2::lemma2_to64_rest();
    assert(vstd::arithmetic::power2::pow2(4) == 16);
    assert(vstd::arithmetic::power2::pow2(12) == 4096);
    assert(vstd::arithmetic::power2::pow2(25) == 33554432);
}

/// The bytes of whole segments the region `[base, base + len)` serves.
pub fn usable_bytes(base: usize, len: usize) -> (u: usize)
    ensures
        u == spec_usable_bytes(base as int, len as int),
        u % SEGMENT_SIZE == 0,
        u <= len,
{
    let seg = SEGMENT_SIZE;
    let end = match base.checked_add(len) {
        Some(e) => e,
        None => { return 0; },
    };
    let run_up = match base.checked_add(REGION_ALIGN - 1) {
        Some(r) => r,
        None => { return 0; },
    };
    proof {
        lemma_region_align_pow2();
        lemma_mask_round_down(run_up, REGION_ALIGN);
        lemma_round_up_bounds(base as int, REGION_ALIGN as int);
    }
    let first = run_up & !(REGION_ALIGN - 1);
    if first >= end {
        return 0;
    }
    let avail = end - first;
    proof {
        vstd::arithmetic::div_mod::lemma_fundamental_div_mod(avail as int, seg as int);
        vstd::arithmetic::div_mod::lemma_mod_multiples_basic((avail / seg) as int, seg as int);
    }
    (avail / seg) * seg
}

/// The largest multiple of the segment size no bigger than `budget`.
pub open spec fn spec_good_region_size(budget: int) -> int {
    (budget / (SEGMENT_SIZE as int)) * (SEGMENT_SIZE as int)
}

/// The largest region no bigger than `budget` that strands nothing for an
/// aligned base: whole segments, rounded down (0 below one segment).
pub fn good_region_size(budget: usize) -> (g: usize)
    ensures
        g == spec_good_region_size(budget as int),
        g <= budget,
        g % SEGMENT_SIZE == 0,
        budget < g + SEGMENT_SIZE,
{
    let seg = SEGMENT_SIZE;
    proof {
        vstd::arithmetic::div_mod::lemma_fundamental_div_mod(budget as int, seg as int);
        vstd::arithmetic::div_mod::lemma_mod_multiples_basic((budget / seg) as int, seg as int);
    }
    (budget / seg) * seg
}

/// Segments needed to serve `usable` bytes: at least one.
pub open spec fn spec_region_segments(usable: int) -> int {
    if usable == 0 {
        1
    } else {
        (usable + SEGMENT_SIZE - 1) / (SEGMENT_SIZE as int)
    }
}

/// The smallest whole-segment region serving at least `usable` bytes.
pub open spec fn spec_region_for(usable: int) -> int {
    spec_region_segments(usable) * (SEGMENT_SIZE as int)
}

/// The smallest region that serves at least `usable` bytes of segments for
/// an aligned base: whole segments, rounded up; 0 still costs one segment.
pub fn region_for(usable: usize) -> (r: usize)
    requires
        spec_region_for(usable as int) <= usize::MAX,
    ensures
        r == spec_region_for(usable as int),
        r >= usable,
        r % SEGMENT_SIZE == 0,
        r >= SEGMENT_SIZE,
        usable > 0 ==> r < usable + SEGMENT_SIZE,
{
    let seg = SEGMENT_SIZE;
    let segments = if usable == 0 {
        1
    } else {
        usable / seg + if usable % seg == 0 { 0 } else { 1 }
    };
    proof {
        vstd::arithmetic::div_mod::lemma_fundamental_div_mod(usable as int, seg as int);
        if usable > 0 {
            let q = usable as int / seg as int;
            let rm = usable as int % seg as int;
            if rm == 0 {
                vstd::arithmetic::div_mod::lemma_fundamental_div_mod_converse(usable + seg - 1, seg as int, q, seg - 1);
            } else {
                vstd::arithmetic::div_mod::lemma_fundamental_div_mod_converse(usable + seg - 1, seg as int, q + 1, rm - 1);
            }
        }
        vstd::arithmetic::div_mod::lemma_mod_multiples_basic(segments as int, seg as int);
    }
    segments * seg
}

/// `ceil(n / d)` for `d > 0`.
pub open spec fn spec_div_ceil(n: int, d: int) -> int {
    (n + d - 1) / d
}

/// `n.div_ceil(d)` without overflow: the quotient, plus one for a remainder.
pub(crate) fn div_ceil(n: usize, d: usize) -> (q: usize)
    requires
        d > 0,
    ensures
        q == spec_div_ceil(n as int, d as int),
        q * d >= n,
        n > 0 ==> q * d < n + d,
        n == 0 ==> q == 0,
{
    proof {
        let qq = n as int / d as int;
        let rm = n as int % d as int;
        vstd::arithmetic::div_mod::lemma_fundamental_div_mod(n as int, d as int);
        if rm == 0 {
            assert(n + d - 1 == qq * d + (d - 1)) by (nonlinear_arith) requires n == d * qq + rm, rm == 0;
            vstd::arithmetic::div_mod::lemma_fundamental_div_mod_converse(n + d - 1, d as int, qq, d - 1);
        } else {
            assert(n + d - 1 == (qq + 1) * d + (rm - 1)) by (nonlinear_arith) requires n == d * qq + rm;
            vstd::arithmetic::div_mod::lemma_fundamental_div_mod_converse(n + d - 1, d as int, qq + 1, rm - 1);
            assert(qq < usize::MAX) by (nonlinear_arith) requires n == d * qq + rm, 0 < rm < d, n <= usize::MAX, qq >= 0;
        }
        assert(qq * d <= n) by (nonlinear_arith) requires n == d * qq + rm, 0 <= rm;
        assert(rm > 0 ==> ((qq + 1) * d >= n && (qq + 1) * d < n + d)) by (nonlinear_arith)
            requires n == d * qq + rm, 0 <= rm < d;
        assert(rm == 0 ==> (qq * d == n)) by (nonlinear_arith) requires n == d * qq + rm;
        assert(n == 0 ==> qq == 0) by (nonlinear_arith) requires n == d * qq + rm, 0 <= rm < d, d > 0;
    }
    let q = n / d + if n % d == 0 { 0 } else { 1 };
    q
}

/// Whole segments one allocation of `size` bytes reserves for itself.
pub open spec fn spec_dedicated_segments(size: int) -> int {
    if size <= LARGEST_SHARED_ALLOC {
        0
    } else {
        spec_div_ceil(SEGMENT_SLICE_SIZE + size, SEGMENT_SIZE as int)
    }
}

/// Whole segments one allocation of `size` bytes reserves for ITSELF: 0 when
/// it shares a segment, and otherwise one slice of header plus the payload,
/// rounded up to whole segments.
pub fn dedicated_segments(size: usize) -> (d: usize)
    requires
        size <= LARGEST_SHARED_ALLOC || size + SEGMENT_SLICE_SIZE <= usize::MAX,
    ensures
        d == spec_dedicated_segments(size as int),
        d > 0 ==> d * SEGMENT_SIZE >= size + SEGMENT_SLICE_SIZE,
        d > 0 ==> d >= 2,
{
    if size <= LARGEST_SHARED_ALLOC {
        return 0;
    }
    let d = div_ceil(SEGMENT_SLICE_SIZE + size, SEGMENT_SIZE);
    proof {
        if d < 2 {
            assert(d * SEGMENT_SIZE <= SEGMENT_SIZE) by (nonlinear_arith) requires d < 2;
        }
    }
    d
}

/// What one allocation of a given size costs and which path serves it.
#[derive(Debug, Clone, Copy, PartialEq, Eq)]
#[non_exhaustive]
pub struct Shape {
    /// Bytes of page the request is served from: a small page, a medium page,
    /// its own span, or its own segments.
    pub page_bytes: usize,
    /// Whole segments this allocation reserves for itself; 0 when it shares.
    pub dedicated_segments: usize,
    /// Whether the request takes the direct fast path (`size <= SMALL_SIZE_MAX`).
    pub direct_route: bool,
}

/// Bytes of page serving a request of `size` bytes.
pub open spec fn spec_page_bytes(size: int) -> int {
    if size <= SMALL_OBJ_SIZE_MAX {
        SMALL_PAGE_SIZE as int
    } else if size <= MEDIUM_OBJ_SIZE_MAX {
        MEDIUM_PAGE_SIZE as int
    } else if size <= LARGE_OBJ_SIZE_MAX {
        spec_div_ceil(size, SEGMENT_SLICE_SIZE as int) * SEGMENT_SLICE_SIZE
    } else {
        spec_dedicated_segments(size) * SEGMENT_SIZE
    }
}

/// The [`Shape`] of an allocation of `size` bytes.
pub fn shape_of(size: usize) -> (s: Shape)
    requires
        size <= LARGEST_SHARED_ALLOC || spec_dedicated_segments(size as int) * SEGMENT_SIZE <= usize::MAX,
    ensures
        s.page_bytes == spec_page_bytes(size as int),
        s.dedicated_segments == spec_dedicated_segments(size as int),
        s.direct_route == (size <= SMALL_SIZE_MAX),
        s.page_bytes >= size,
{
    if size > LARGEST_SHARED_ALLOC {
        proof {
            assert(spec_dedicated_segments(size as int) >= 1);
            assert(spec_dedicated_segments(size as int) * SEGMENT_SIZE >= SEGMENT_SIZE) by (nonlinear_arith)
                requires spec_dedicated_segments(size as int) >= 1;
        }
    }
    let dedicated = dedicated_segments(size);
    let page_bytes = if size <= SMALL_OBJ_SIZE_MAX {
        SMALL_PAGE_SIZE
    } else if size <= MEDIUM_OBJ_SIZE_MAX {
        MEDIUM_PAGE_SIZE
    } else if size <= LARGE_OBJ_SIZE_MAX {
        let q = div_ceil(size, SEGMENT_SLICE_SIZE);
        proof {
            assert(q * SEGMENT_SLICE_SIZE < size + SEGMENT_SLICE_SIZE);
        }
        q * SEGMENT_SLICE_SIZE
    } else {
        dedicated * SEGMENT_SIZE
    };
    Shape { page_bytes, dedicated_segments: dedicated, direct_route: size <= SMALL_SIZE_MAX }
}

/// Segments a region needs for `count` live allocations of `size` bytes,
/// `None` where the arithmetic leaves `usize`.
pub open spec fn spec_segments_for_allocs(size: int, count: int) -> Option<int> {
    let d = spec_dedicated_segments(size);
    if d == 0 {
        let slices_each = if size == 0 { 1 } else { spec_div_ceil(size, SEGMENT_SLICE_SIZE as int) };
        let n = slices_each * count;
        if n + 1 > usize::MAX {
            None
        } else {
            Some(spec_div_ceil(n + 1, SLICES_PER_SEGMENT - 1))
        }
    } else {
        let n = d * count;
        if n + 1 > usize::MAX {
            None
        } else {
            Some(n + 1)
        }
    }
}

/// The region [`region_for_allocs`] answers: whole segments, 0 on overflow.
pub open spec fn spec_region_for_allocs(size: int, count: int) -> int {
    match spec_segments_for_allocs(size, count) {
        None => 0,
        Some(s) => {
            let s1 = if s == 0 { 1 } else { s };
            if s1 * SEGMENT_SIZE > usize::MAX { 0 } else { s1 * SEGMENT_SIZE }
        },
    }
}

/// The smallest region that can hold `count` simultaneously live allocations
/// of `size` bytes: a shared span of slices each plus one slice for the
/// small allocations, or each allocation's dedicated segments plus one
/// segment for the small ones. 0 when the arithmetic would overflow.
pub fn region_for_allocs(size: usize, count: usize) -> (r: usize)
    requires
        size <= LARGEST_SHARED_ALLOC || size + SEGMENT_SLICE_SIZE <= usize::MAX,
    ensures
        r == spec_region_for_allocs(size as int, count as int),
        r % SEGMENT_SIZE == 0,
        size <= LARGEST_SHARED_ALLOC && r != 0 ==> r >= count * size,
{
    proof {
        if size <= LARGEST_SHARED_ALLOC {
            lemma_region_for_allocs_holds(size as int, count as int);
        }
    }
    let seg = SEGMENT_SIZE;
    let usable_slices = SLICES_PER_SEGMENT - 1;
    let dedicated = dedicated_segments(size);
    let segments = if dedicated == 0 {
        let slices_each = if size == 0 { 1 } else { div_ceil(size, SEGMENT_SLICE_SIZE) };
        let total = match slices_each.checked_mul(count) {
            Some(n) => match n.checked_add(1) {
                Some(n) => n,
                None => { return 0; },
            },
            None => {
                proof {
                    assert(slices_each * count + 1 > usize::MAX);
                }
                return 0;
            },
        };
        div_ceil(total, usable_slices)
    } else {
        match dedicated.checked_mul(count) {
            Some(n) => match n.checked_add(1) {
                Some(n) => n,
                None => { return 0; },
            },
            None => {
                proof {
                    assert(dedicated * count + 1 > usize::MAX);
                }
                return 0;
            },
        }
    };
    let segments = if segments == 0 { 1 } else { segments };
    match segments.checked_mul(seg) {
        Some(bytes) => {
            proof {
                vstd::arithmetic::div_mod::lemma_mod_multiples_basic(segments as int, seg as int);
            }
            bytes
        },
        None => 0,
    }
}

/// `q` is the ceiling of `n / d`: it covers `n` and one less would not.
pub proof fn lemma_div_ceil_covers(n: int, d: int)
    requires
        0 <= n,
        d > 0,
    ensures
        spec_div_ceil(n, d) * d >= n,
        spec_div_ceil(n, d) >= 0,
        n > 0 ==> spec_div_ceil(n, d) >= 1,
{
    vstd::arithmetic::div_mod::lemma_fundamental_div_mod(n + d - 1, d);
    let q = (n + d - 1) / d;
    let r = (n + d - 1) % d;
    assert(q * d >= n) by (nonlinear_arith)
        requires n + d - 1 == d * q + r, 0 <= r < d;
    assert(q >= 0) by (nonlinear_arith)
        requires n + d - 1 == d * q + r, 0 <= r < d, n >= 0, d > 0;
    assert(n > 0 ==> q >= 1) by (nonlinear_arith)
        requires n + d - 1 == d * q + r, 0 <= r < d, d > 0;
}

/// A region sized by `region_for_allocs` for `count` allocations of a
/// shared size holds them all live at once: its segments offer, beyond
/// their header slices, the slices the allocations take (one each at
/// least, `size` rounded up to slices) and one more; so it holds at least
/// their `count * size` bytes.
pub proof fn lemma_region_for_allocs_holds(size: int, count: int)
    requires
        0 <= size <= LARGEST_SHARED_ALLOC,
        0 <= count,
    ensures
        ({
            let r = spec_region_for_allocs(size, count);
            let each = if size == 0 { 1 } else { spec_div_ceil(size, SEGMENT_SLICE_SIZE as int) };
            &&& r % (SEGMENT_SIZE as int) == 0
            &&& r != 0 ==> (r / (SEGMENT_SIZE as int)) * (SLICES_PER_SEGMENT - 1) >= count * each + 1
            &&& r != 0 ==> r >= count * size
            &&& each * (SEGMENT_SLICE_SIZE as int) >= size
        }),
{
    let r = spec_region_for_allocs(size, count);
    let each = if size == 0 { 1 } else { spec_div_ceil(size, SEGMENT_SLICE_SIZE as int) };
    lemma_div_ceil_covers(size, SEGMENT_SLICE_SIZE as int);
    assert(each >= 1);
    assert(each * (SEGMENT_SLICE_SIZE as int) >= size);
    let n = each * count;
    assert(n >= 0) by (nonlinear_arith) requires n == each * count, each >= 1, count >= 0;
    assert(spec_dedicated_segments(size) == 0);
    if n + 1 > usize::MAX {
        assert(r == 0);
        vstd::arithmetic::div_mod::lemma_mod_self_0(SEGMENT_SIZE as int);
        return;
    }
    let s0 = spec_div_ceil(n + 1, SLICES_PER_SEGMENT - 1);
    lemma_div_ceil_covers(n + 1, SLICES_PER_SEGMENT - 1);
    let s1 = if s0 == 0 { 1 } else { s0 };
    assert(s1 >= s0 && s1 >= 1);
    if s1 * SEGMENT_SIZE > usize::MAX {
        assert(r == 0);
        return;
    }
    assert(r == s1 * SEGMENT_SIZE);
    vstd::arithmetic::div_mod::lemma_mod_multiples_basic(s1, SEGMENT_SIZE as int);
    vstd::arithmetic::div_mod::lemma_div_multiples_vanish(s1, SEGMENT_SIZE as int);
    assert(r / (SEGMENT_SIZE as int) == s1);
    assert(s1 * (SLICES_PER_SEGMENT - 1) >= s0 * (SLICES_PER_SEGMENT - 1)) by (nonlinear_arith)
        requires s1 >= s0, s0 >= 0;
    assert(count * each + 1 == n + 1) by (nonlinear_arith) requires n == each * count;
    assert(r >= count * size) by (nonlinear_arith)
        requires r == s1 * SEGMENT_SIZE, SEGMENT_SIZE == 512 * 65536, s1 * 511 >= n + 1,
            n == each * count, each * 65536 >= size, count >= 0, size >= 0, s1 >= 1;
}

/// Extent `e = (base, len)` holds address `a`.
pub open spec fn ext_holds(e: (usize, usize), a: int) -> bool {
    e.0 <= a < e.0 + e.1
}

/// Some extent of `s` holds `a`.
pub open spec fn covers(s: Seq<(usize, usize)>, a: int) -> bool {
    exists|i: int| 0 <= i < s.len() && #[trigger] ext_holds(s[i], a)
}

/// The addresses the extents of `s` hold.
pub open spec fn cover_set(s: Seq<(usize, usize)>) -> Set<int> {
    Set::new(|a: int| covers(s, a))
}

/// The addresses `[at, at + size)`.
pub open spec fn range_set(at: int, size: int) -> Set<int> {
    Set::new(|a: int| at <= a < at + size)
}

/// Total length of the extents of `s`.
pub open spec fn total_len(s: Seq<(usize, usize)>) -> int
    decreases s.len(),
{
    if s.len() == 0 {
        0
    } else {
        total_len(s.drop_last()) + s.last().1
    }
}

/// A well-formed free list over `[lo, hi)`: non-empty extents inside it,
/// sorted by base, with a gap between neighbours (touching extents are
/// always coalesced).
pub open spec fn extents_wf(s: Seq<(usize, usize)>, lo: int, hi: int) -> bool {
    &&& forall|i: int| 0 <= i < s.len() ==> #[trigger] s[i].1 > 0 && lo <= s[i].0 && s[i].0 + s[i].1 <= hi
    &&& forall|i: int, j: int| #![trigger s[i], s[j]] 0 <= i < j < s.len() ==> s[i].0 + s[i].1 < s[j].0
}

/// Covering a concatenation is covering either part.
pub proof fn lemma_covers_concat(s: Seq<(usize, usize)>, t: Seq<(usize, usize)>, a: int)
    ensures
        covers(s + t, a) <==> covers(s, a) || covers(t, a),
{
    if covers(s + t, a) {
        let i = choose|i: int| 0 <= i < (s + t).len() && #[trigger] ext_holds((s + t)[i], a);
        if i < s.len() {
            assert(ext_holds(s[i], a));
        } else {
            assert(ext_holds(t[i - s.len()], a));
        }
    }
    if covers(s, a) {
        let i = choose|i: int| 0 <= i < s.len() && #[trigger] ext_holds(s[i], a);
        assert(ext_holds((s + t)[i], a));
    }
    if covers(t, a) {
        let i = choose|i: int| 0 <= i < t.len() && #[trigger] ext_holds(t[i], a);
        assert(ext_holds((s + t)[i + s.len()], a));
    }
}

/// The total length of a concatenation is the sum of the parts'.
pub proof fn lemma_total_concat(s: Seq<(usize, usize)>, t: Seq<(usize, usize)>)
    ensures
        total_len(s + t) == total_len(s) + total_len(t),
    decreases t.len(),
{
    if t.len() == 0 {
        assert(s + t =~= s);
    } else {
        lemma_total_concat(s, t.drop_last());
        assert((s + t).drop_last() =~= s + t.drop_last());
    }
}

/// One extent's total is its length; a list of extents inside `[lo, hi)` never
/// totals more than `hi - lo`.
pub proof fn lemma_total_bounded(s: Seq<(usize, usize)>, lo: int, hi: int)
    requires
        extents_wf(s, lo, hi),
        lo <= hi,
    ensures
        0 <= total_len(s) <= hi - lo,
        s.len() > 0 ==> total_len(s) <= s.last().0 + s.last().1 - lo,
    decreases s.len(),
{
    if s.len() > 0 {
        let t = s.drop_last();
        let e = s.last();
        assert(s[s.len() - 1].1 > 0);
        if t.len() > 0 {
            assert(extents_wf(t, lo, e.0 as int)) by {
                assert forall|i: int| 0 <= i < t.len() implies #[trigger] t[i].1 > 0 && lo <= t[i].0 && t[i].0 + t[i].1 <= e.0 by {
                    assert(s[i] == t[i]);
                    assert(s[i].0 + s[i].1 < s[s.len() - 1].0);
                }
                assert forall|i: int, j: int| #![trigger t[i], t[j]] 0 <= i < j < t.len() implies t[i].0 + t[i].1 < t[j].0 by {
                    assert(s[i] == t[i] && s[j] == t[j]);
                }
            }
            assert(t[t.len() - 1].1 > 0);
            lemma_total_bounded(t, lo, e.0 as int);
        }
        assert(total_len(s) == total_len(t) + e.1);
    }
}

/// `s` with extent `i` replaced by the extents of `mid`.
pub open spec fn replace_at(s: Seq<(usize, usize)>, i: int, mid: Seq<(usize, usize)>) -> Seq<(usize, usize)> {
    s.take(i) + mid + s.skip(i + 1)
}

/// Replacing extent `i` with `mid` changes the cover by exactly what `mid`
/// holds instead of `s[i]`, and the total by the difference of lengths.
pub proof fn lemma_replace_at(s: Seq<(usize, usize)>, i: int, mid: Seq<(usize, usize)>, a: int)
    requires
        0 <= i < s.len(),
    ensures
        covers(replace_at(s, i, mid), a) <==> covers(s.take(i), a) || covers(mid, a) || covers(s.skip(i + 1), a),
        covers(s, a) <==> covers(s.take(i), a) || ext_holds(s[i], a) || covers(s.skip(i + 1), a),
        total_len(replace_at(s, i, mid)) == total_len(s) - s[i].1 + total_len(mid),
{
    lemma_covers_concat(s.take(i) + mid, s.skip(i + 1), a);
    lemma_covers_concat(s.take(i), mid, a);
    let one = seq![s[i]];
    assert(s =~= s.take(i) + one + s.skip(i + 1));
    lemma_covers_concat(s.take(i) + one, s.skip(i + 1), a);
    lemma_covers_concat(s.take(i), one, a);
    if covers(one, a) {
        let k = choose|k: int| 0 <= k < one.len() && #[trigger] ext_holds(one[k], a);
        assert(k == 0);
    }
    if ext_holds(s[i], a) {
        assert(ext_holds(one[0], a));
    }
    lemma_total_concat(s.take(i) + mid, s.skip(i + 1));
    lemma_total_concat(s.take(i), mid);
    lemma_total_concat(s.take(i) + one, s.skip(i + 1));
    lemma_total_concat(s.take(i), one);
    assert(one.drop_last() =~= Seq::<(usize, usize)>::empty());
    assert(total_len(one.drop_last()) == 0);
    assert(one.last() == s[i]);
    assert(total_len(one) == total_len(one.drop_last()) + one.last().1);
    assert(total_len(one) == s[i].1);
}

/// A total of extent lengths is never negative.
pub proof fn lemma_total_nonneg(s: Seq<(usize, usize)>)
    ensures
        total_len(s) >= 0,
    decreases s.len(),
{
    if s.len() > 0 {
        lemma_total_nonneg(s.drop_last());
    }
}

/// Rounding `x` up to a multiple of `a`: `x` itself when it is one, else
/// `x` minus its remainder plus `a`.
pub proof fn lemma_align_up_by_rem(x: int, a: int)
    requires
        x >= 0,
        a > 0,
    ensures
        spec_align_up(x, a) == if x % a == 0 { x } else { x - x % a + a },
{
    let q = x / a;
    let r = x % a;
    vstd::arithmetic::div_mod::lemma_fundamental_div_mod(x, a);
    if r == 0 {
        assert(x + a - 1 == q * a + (a - 1)) by (nonlinear_arith) requires x == a * q + r, r == 0;
        vstd::arithmetic::div_mod::lemma_fundamental_div_mod_converse(x + a - 1, a, q, a - 1);
        assert(q * a == x) by (nonlinear_arith) requires x == a * q + r, r == 0;
    } else {
        assert(x + a - 1 == (q + 1) * a + (r - 1)) by (nonlinear_arith) requires x == a * q + r;
        vstd::arithmetic::div_mod::lemma_fundamental_div_mod_converse(x + a - 1, a, q + 1, r - 1);
        assert((q + 1) * a == x - r + a) by (nonlinear_arith) requires x == a * q + r;
    }
}

/// A single extent covers exactly what it holds; no extent covers nothing.
pub proof fn lemma_covers_small(e: (usize, usize), a: int)
    ensures
        covers(seq![e], a) <==> ext_holds(e, a),
        !covers(Seq::<(usize, usize)>::empty(), a),
{
    if covers(seq![e], a) {
        let k = choose|k: int| 0 <= k < seq![e].len() && #[trigger] ext_holds(seq![e][k], a);
        assert(k == 0);
    }
    if ext_holds(e, a) {
        assert(ext_holds(seq![e][0], a));
    }
}

/// One extent's list totals its length; the empty list totals 0.
pub proof fn lemma_total_small(e: (usize, usize))
    ensures
        total_len(seq![e]) == e.1,
        total_len(Seq::<(usize, usize)>::empty()) == 0,
{
    let one = seq![e];
    assert(one.drop_last() =~= Seq::<(usize, usize)>::empty());
    assert(total_len(one.drop_last()) == 0);
    assert(one.last() == e);
    assert(total_len(one) == total_len(one.drop_last()) + one.last().1);
}

/// The pieces left of extent `(b, l)` when `[at, at + size)` is carved out of
/// it: the head below the block and the tail above it, each only if non-empty.
pub open spec fn carve_pieces(b: int, l: int, at: int, size: int) -> Seq<(usize, usize)> {
    (if at > b { seq![(b as usize, (at - b) as usize)] } else { Seq::empty() })
        + (if at + size < b + l { seq![((at + size) as usize, (b + l - (at + size)) as usize)] } else { Seq::empty() })
}

/// Carving `[at, at + size)` out of extent `i` keeps the list well formed,
/// removes exactly that range from the cover, and the size from the total.
pub proof fn lemma_carve(s: Seq<(usize, usize)>, lo: int, hi: int, i: int, at: int, size: int)
    requires
        extents_wf(s, lo, hi),
        hi <= usize::MAX,
        0 <= i < s.len(),
        s[i].0 <= at,
        size > 0,
        at + size <= s[i].0 + s[i].1,
    ensures
        ({
            let t = replace_at(s, i, carve_pieces(s[i].0 as int, s[i].1 as int, at, size));
            &&& extents_wf(t, lo, hi)
            &&& range_set(at, size).subset_of(cover_set(s))
            &&& cover_set(t) == cover_set(s).difference(range_set(at, size))
            &&& total_len(t) == total_len(s) - size
            &&& t.len() == s.len() - 1 + carve_pieces(s[i].0 as int, s[i].1 as int, at, size).len()
        }),
{
    let b = s[i].0 as int;
    let l = s[i].1 as int;
    let hd: Seq<(usize, usize)> = if at > b { seq![(b as usize, (at - b) as usize)] } else { Seq::empty() };
    let tl: Seq<(usize, usize)> = if at + size < b + l { seq![((at + size) as usize, (b + l - (at + size)) as usize)] } else { Seq::empty() };
    let mid = carve_pieces(b, l, at, size);
    assert(mid == hd + tl);
    let t = replace_at(s, i, mid);
    let pre = s.take(i);
    let post = s.skip(i + 1);
    assert(s[i].1 > 0 && lo <= s[i].0 && s[i].0 + s[i].1 <= hi);
    // Well-formedness, index by index.
    assert forall|k: int| 0 <= k < t.len() implies #[trigger] t[k].1 > 0 && lo <= t[k].0 && t[k].0 + t[k].1 <= hi by {
        if k < i {
            assert(t[k] == s[k]);
        } else if k < i + mid.len() {
            assert(t[k] == mid[k - i]);
        } else {
            assert(t[k] == s[k - mid.len() + 1]);
        }
    }
    assert forall|j: int, k: int| #![trigger t[j], t[k]] 0 <= j < k < t.len() implies t[j].0 + t[j].1 < t[k].0 by {
        let ml = mid.len() as int;
        if k < i {
            assert(t[j] == s[j] && t[k] == s[k]);
        } else if k < i + ml {
            assert(t[k] == mid[k - i]);
            assert(t[k].0 >= b);
            if j < i {
                assert(t[j] == s[j]);
                assert(s[j].0 + s[j].1 < s[i].0);
            } else {
                assert(t[j] == mid[j - i]);
                assert(j - i == 0 && k - i == 1);
            }
        } else {
            assert(t[k] == s[k - ml + 1]);
            assert(b + l < s[k - ml + 1].0);
            if j < i {
                assert(t[j] == s[j]);
                assert(s[j].0 + s[j].1 < s[i].0);
            } else if j < i + ml {
                assert(t[j] == mid[j - i]);
                assert(t[j].0 + t[j].1 <= b + l);
            } else {
                assert(t[j] == s[j - ml + 1]);
            }
        }
    }
    // The cover.
    assert forall|a: int| #[trigger] cover_set(t).contains(a) <==> cover_set(s).difference(range_set(at, size)).contains(a) by {
        lemma_replace_at(s, i, mid, a);
        lemma_covers_concat(hd, tl, a);
        if at > b {
            lemma_covers_small((b as usize, (at - b) as usize), a);
        } else {
            lemma_covers_small((0usize, 0usize), a);
        }
        if at + size < b + l {
            lemma_covers_small(((at + size) as usize, (b + l - (at + size)) as usize), a);
        } else {
            lemma_covers_small((0usize, 0usize), a);
        }
        if covers(pre, a) {
            let k = choose|k: int| 0 <= k < pre.len() && #[trigger] ext_holds(pre[k], a);
            assert(pre[k] == s[k]);
            assert(s[k].0 + s[k].1 < s[i].0);
        }
        if covers(post, a) {
            let k = choose|k: int| 0 <= k < post.len() && #[trigger] ext_holds(post[k], a);
            assert(post[k] == s[k + i + 1]);
            assert(s[i].0 + s[i].1 < s[k + i + 1].0);
        }
    }
    assert(cover_set(t) =~= cover_set(s).difference(range_set(at, size)));
    assert forall|a: int| #[trigger] range_set(at, size).contains(a) implies cover_set(s).contains(a) by {
        lemma_replace_at(s, i, mid, a);
    }
    // The total.
    lemma_replace_at(s, i, mid, at);
    lemma_total_concat(hd, tl);
    if at > b {
        lemma_total_small((b as usize, (at - b) as usize));
    } else {
        lemma_total_small((0usize, 0usize));
    }
    if at + size < b + l {
        lemma_total_small(((at + size) as usize, (b + l - (at + size)) as usize));
    } else {
        lemma_total_small((0usize, 0usize));
    }
}

/// Replacing extents `p..q` of `s` with one extent `m` that holds exactly
/// what they held plus `[at, at + size)` (which none of `s` held) adds that
/// range to the cover and `size` to the total, and keeps the list well
/// formed when `m` sits strictly between its new neighbours.
pub proof fn lemma_merge(s: Seq<(usize, usize)>, lo: int, hi: int, p: int, q: int, m: (usize, usize), at: int, size: int)
    requires
        extents_wf(s, lo, hi),
        0 <= p <= q <= s.len(),
        size > 0,
        m.1 > 0,
        lo <= m.0,
        m.0 + m.1 <= hi,
        forall|a: int| ext_holds(m, a) <==> (covers(s.subrange(p, q), a) || at <= a < at + size),
        m.1 == total_len(s.subrange(p, q)) + size,
        forall|a: int| at <= a < at + size ==> !covers(s, a),
        forall|j: int| 0 <= j < p ==> #[trigger] s[j].0 + s[j].1 < m.0,
        forall|j: int| q <= j < s.len() ==> m.0 + m.1 < #[trigger] s[j].0,
    ensures
        ({
            let t = s.take(p) + seq![m] + s.skip(q);
            &&& extents_wf(t, lo, hi)
            &&& cover_set(t) == cover_set(s).union(range_set(at, size))
            &&& total_len(t) == total_len(s) + size
            &&& t.len() == s.len() - (q - p) + 1
        }),
{
    let one = seq![m];
    let pre = s.take(p);
    let mid = s.subrange(p, q);
    let post = s.skip(q);
    let t = pre + one + post;
    assert(s =~= pre + mid + post);
    assert forall|k: int| 0 <= k < t.len() implies #[trigger] t[k].1 > 0 && lo <= t[k].0 && t[k].0 + t[k].1 <= hi by {
        if k < p {
            assert(t[k] == s[k]);
        } else if k == p {
            assert(t[k] == m);
        } else {
            assert(t[k] == s[k - p - 1 + q]);
        }
    }
    assert forall|j: int, k: int| #![trigger t[j], t[k]] 0 <= j < k < t.len() implies t[j].0 + t[j].1 < t[k].0 by {
        if k < p {
            assert(t[j] == s[j] && t[k] == s[k]);
        } else if k == p {
            assert(t[j] == s[j] && t[k] == m);
        } else {
            assert(t[k] == s[k - p - 1 + q]);
            if j < p {
                assert(t[j] == s[j]);
                assert(s[j].0 + s[j].1 < m.0);
                assert(m.0 + m.1 < s[k - p - 1 + q].0);
            } else if j == p {
                assert(t[j] == m);
            } else {
                assert(t[j] == s[j - p - 1 + q]);
            }
        }
    }
    assert forall|a: int| #[trigger] cover_set(t).contains(a) <==> cover_set(s).union(range_set(at, size)).contains(a) by {
        lemma_covers_concat(pre + one, post, a);
        lemma_covers_concat(pre, one, a);
        lemma_covers_concat(pre + mid, post, a);
        lemma_covers_concat(pre, mid, a);
        lemma_covers_small(m, a);
    }
    assert(cover_set(t) =~= cover_set(s).union(range_set(at, size)));
    lemma_total_concat(pre + one, post);
    lemma_total_concat(pre, one);
    lemma_total_concat(pre + mid, post);
    lemma_total_concat(pre, mid);
    lemma_total_small(m);
}

/// The run of extent `e` from its first segment stride (measured from
/// `origin`) to its end; 0 when no stride lies inside it.
pub open spec fn ext_run(e: (usize, usize), origin: int) -> int {
    let first = origin + spec_align_up(e.0 - origin, SEGMENT_SIZE as int);
    if first >= e.0 + e.1 { 0 } else { e.0 + e.1 - first }
}

/// Whole segments still placeable in the extents of `s`.
pub open spec fn cap_segments(s: Seq<(usize, usize)>, origin: int) -> int
    decreases s.len(),
{
    if s.len() == 0 {
        0
    } else {
        cap_segments(s.drop_last(), origin) + ext_run(s.last(), origin) / (SEGMENT_SIZE as int)
    }
}

/// The largest dedicated allocation placeable in a fresh run of segments of
/// some extent of `s`: its run less one slice of header.
pub open spec fn cap_largest(s: Seq<(usize, usize)>, origin: int) -> int
    decreases s.len(),
{
    if s.len() == 0 {
        0
    } else {
        let run = ext_run(s.last(), origin);
        let here = if run > SEGMENT_SLICE_SIZE { run - SEGMENT_SLICE_SIZE } else { 0 };
        let before = cap_largest(s.drop_last(), origin);
        if here > before { here } else { before }
    }
}

/// A run never exceeds its extent, so the segments never exceed the bytes.
pub proof fn lemma_cap_bounded(s: Seq<(usize, usize)>, origin: int)
    requires
        forall|i: int| 0 <= i < s.len() ==> origin <= #[trigger] s[i].0,
    ensures
        0 <= cap_segments(s, origin) <= total_len(s),
        0 <= cap_largest(s, origin),
    decreases s.len(),
{
    if s.len() > 0 {
        let e = s.last();
        assert(origin <= s[s.len() - 1].0);
        lemma_round_up_bounds(e.0 - origin, SEGMENT_SIZE as int);
        lemma_cap_bounded(s.drop_last(), origin);
        let run = ext_run(e, origin);
        assert(0 <= run <= e.1);
        assert(run / (SEGMENT_SIZE as int) <= run);
    }
}

/// Where inside `[base, base + len)` a `size`-byte block aligned to `align`
/// (measured from `origin`) goes: the highest such address when `from_top`,
/// the lowest otherwise; `None` when it does not fit.
pub open spec fn spec_place(base: int, len: int, size: int, align: int, from_top: bool, origin: int) -> Option<int> {
    if size > len {
        None
    } else {
        let at = if from_top {
            origin + ((base + len - size - origin) / align) * align
        } else {
            origin + spec_align_up(base - origin, align)
        };
        if at < base || at + size > base + len {
            None
        } else {
            Some(at)
        }
    }
}

/// Placement of a block inside one extent ([`spec_place`]). The bottom-up
/// rounding is done without overflow: a rounding that would leave the
/// address space cannot fit either.
#[verifier::spinoff_prover]
#[verifier::rlimit(30)]
fn place(base: usize, len: usize, size: usize, align: usize, from_top: bool, origin: usize) -> (r: Option<usize>)
    requires
        align > 0,
        is_power_of_two(align as int),
        origin <= base,
        base + len <= usize::MAX,
    ensures
        match r {
            Some(at) => spec_place(base as int, len as int, size as int, align as int, from_top, origin as int)
                == Some(at as int),
            None => spec_place(base as int, len as int, size as int, align as int, from_top, origin as int) is None,
        },
{
    if size > len {
        return None;
    }
    let end = base + len;
    let mask = align - 1;
    let at = if from_top {
        let v = end - size - origin;
        proof {
            lemma_mask_round_down(v, align);
        }
        origin + (v & !mask)
    } else {
        let x = base - origin;
        let rem = x & mask;
        proof {
            lemma_mask_round_down(x, align);
            assert((x & mask) == x - (x & !mask)) by (bit_vector);
            vstd::arithmetic::div_mod::lemma_fundamental_div_mod(x as int, align as int);
            lemma_align_up_by_rem(x as int, align as int);
            assert(((x as int) / (align as int)) * (align as int) == (align as int) * ((x as int) / (align as int)))
                by (nonlinear_arith);
            assert(rem as int == (x as int) % (align as int));
        }
        let up = if rem == 0 {
            x
        } else {
            match x.checked_add(align - rem) {
                Some(u) => u,
                None => {
                    proof {
                        assert(spec_align_up(x as int, align as int) > usize::MAX);
                        assert(spec_place(base as int, len as int, size as int, align as int, from_top, origin as int) is None);
                    }
                    return None;
                },
            }
        };
        assert(up == spec_align_up(x as int, align as int));
        match origin.checked_add(up) {
            Some(a) => a,
            None => {
                proof {
                    assert(spec_place(base as int, len as int, size as int, align as int, from_top, origin as int) is None);
                }
                return None;
            },
        }
    };
    if at < base {
        return None;
    }
    match at.checked_add(size) {
        Some(e) => {
            if e > end {
                None
            } else {
                Some(at)
            }
        },
        None => None,
    }
}

/// The fixed-region backend's state: the region handed over (`len == 0`
/// while there is none) and its free list of extents, sorted by base.
pub struct FixedRegion {
    base: usize,
    len: usize,
    exts: Vec<(usize, usize)>,
}

impl FixedRegion {
    /// The origin every segment strides from: the region's first
    /// [`REGION_ALIGN`]-aligned address.
    pub closed spec fn origin(&self) -> int {
        self.base as int
    }

    /// The region's length from its origin; 0 while none is registered.
    pub closed spec fn total(&self) -> int {
        self.len as int
    }

    /// The free list, sorted by base.
    pub closed spec fn extents(&self) -> Seq<(usize, usize)> {
        self.exts@
    }

    /// A region has been handed over.
    pub open spec fn registered(&self) -> bool {
        self.total() > 0
    }

    /// The backend's invariant: the region fits the address space, its origin
    /// is aligned, and the free list is a well-formed table of at most
    /// [`MAX_EXTENTS`] extents inside it.
    pub open spec fn wf(&self) -> bool {
        &&& self.origin() + self.total() <= usize::MAX
        &&& self.origin() % (REGION_ALIGN as int) == 0
        &&& self.extents().len() <= MAX_EXTENTS
        &&& !self.registered() ==> self.extents().len() == 0
        &&& extents_wf(self.extents(), self.origin(), self.origin() + self.total())
    }

    /// The free addresses.
    pub open spec fn free_set(&self) -> Set<int> {
        cover_set(self.extents())
    }

    /// The free bytes.
    pub open spec fn free_total(&self) -> int {
        total_len(self.extents())
    }

    /// `[at, at + size)` lies inside the registered region.
    pub open spec fn in_region(&self, at: int, size: int) -> bool {
        self.registered() && self.origin() <= at && at + size <= self.origin() + self.total()
    }

    /// A backend with no region yet.
    pub fn new() -> (r: Self)
        ensures
            r.wf(),
            !r.registered(),
            r.origin() == 0,
            r.extents().len() == 0,
    {
        FixedRegion { base: 0, len: 0, exts: Vec::new() }
    }

    /// Install `[base, base + len)` with no geometry check: segments stride
    /// from the first [`REGION_ALIGN`]-aligned address, the bytes below it are
    /// not the region's, and the rest starts as one free extent. The caller
    /// has established that at least a page fits past that address.
    pub fn install_region(&mut self, base: usize, len: usize)
        requires
            base + len <= usize::MAX,
            spec_align_up(base as int, REGION_ALIGN as int) + FIXED_PAGE <= base + len,
        ensures
            final(self).wf(),
            final(self).origin() == spec_align_up(base as int, REGION_ALIGN as int),
            final(self).total() == base + len - final(self).origin(),
            final(self).extents() == seq![(final(self).origin() as usize, final(self).total() as usize)],
            final(self).free_total() == final(self).total(),
    {
        proof {
            lemma_region_align_pow2();
            lemma_round_up_bounds(base as int, REGION_ALIGN as int);
        }
        let origin = align_up(base, REGION_ALIGN);
        let l = (base + len) - origin;
        self.base = origin;
        self.len = l;
        let mut v: Vec<(usize, usize)> = Vec::new();
        v.push((origin, l));
        self.exts = v;
        proof {
            let s = self.exts@;
            assert(s.drop_last() =~= Seq::<(usize, usize)>::empty());
            assert(total_len(s) == total_len(s.drop_last()) + s.last().1);
        }
    }

    /// Hand the backend the region it will serve from, once. Refused, in this
    /// order: below one page; unable to hold one segment at its real base;
    /// a base that costs a segment against what the length promises from an
    /// aligned base; a region already registered.
    pub fn init_region(&mut self, base: usize, len: usize) -> (r: Result<(), PrimError>)
        requires
            old(self).wf(),
        ensures
            final(self).wf(),
            r == (if len < FIXED_PAGE {
                Err::<(), PrimError>(FERR_TOO_SMALL)
            } else if spec_usable_bytes(base as int, len as int) == 0 {
                Err(FERR_GEOMETRY)
            } else if spec_usable_bytes(base as int, len as int) < spec_usable_bytes(0, len as int) {
                Err(FERR_MISALIGNED)
            } else if old(self).registered() {
                Err(FERR_REGISTERED)
            } else {
                Ok(())
            }),
            r is Err ==> *final(self) == *old(self),
            r is Ok ==> final(self).registered() && final(self).origin() == spec_align_up(base as int, REGION_ALIGN as int)
                && final(self).total() == base + len - final(self).origin()
                && final(self).extents() == seq![(final(self).origin() as usize, final(self).total() as usize)],
    {
        if len < FIXED_PAGE {
            return Err(FERR_TOO_SMALL);
        }
        let u = usable_bytes(base, len);
        if u == 0 {
            return Err(FERR_GEOMETRY);
        }
        if u < usable_bytes(0, len) {
            return Err(FERR_MISALIGNED);
        }
        if self.len != 0 {
            return Err(FERR_REGISTERED);
        }
        proof {
            assert(u >= SEGMENT_SIZE) by (nonlinear_arith)
                requires u == ((base + len - spec_align_up(base as int, REGION_ALIGN as int)) / (SEGMENT_SIZE as int)) * (SEGMENT_SIZE as int), u > 0;
        }
        self.install_region(base, len);
        Ok(())
    }

    /// Extent `i` can hold a `size`-byte block at alignment `align`.
    pub open spec fn fits(&self, i: int, size: int, align: int, from_top: bool) -> bool {
        spec_place(self.extents()[i].0 as int, self.extents()[i].1 as int, size, align, from_top, self.origin()) is Some
    }

    /// Where extent `i` places the block.
    pub open spec fn fit_at(&self, i: int, size: int, align: int, from_top: bool) -> int {
        spec_place(self.extents()[i].0 as int, self.extents()[i].1 as int, size, align, from_top, self.origin())->0
    }

    /// `i` is the first extent, in search order, that can hold the request:
    /// searched from the highest extent down when `from_top`, from the lowest
    /// up otherwise.
    pub open spec fn first_fit(&self, i: int, size: int, align: int, from_top: bool) -> bool {
        &&& 0 <= i < self.extents().len()
        &&& self.fits(i, size, align, from_top)
        &&& forall|j: int| 0 <= j < self.extents().len() && (if from_top { j > i } else { j < i })
            ==> !#[trigger] self.fits(j, size, align, from_top)
    }

    /// Serving from extent `i` at `at` leaves both a head and a tail of it,
    /// which takes one more table entry.
    pub open spec fn splits(&self, i: int, at: int, size: int) -> bool {
        at > self.extents()[i].0 && at + size < self.extents()[i].0 + self.extents()[i].1
    }

    /// Extent `i` is the first fit and carving the block out of it stays
    /// within [`MAX_EXTENTS`]: the request is served from it.
    pub open spec fn serves(&self, i: int, size: int, align: int, from_top: bool) -> bool {
        &&& self.first_fit(i, size, align, from_top)
        &&& !(self.splits(i, self.fit_at(i, size, align, from_top), size) && self.extents().len() + 1 > MAX_EXTENTS)
    }

    /// The alignment a request is placed at: at least a page.
    pub open spec fn request_align(try_alignment: int) -> int {
        if try_alignment > FIXED_PAGE { try_alignment } else { FIXED_PAGE as int }
    }

    /// The bytes a request of `size` takes: whole pages.
    pub open spec fn placed_size(size: int) -> int {
        spec_align_up(size, FIXED_PAGE as int)
    }

    /// A request aligned to no more than a page is placed from the top.
    pub open spec fn placed_from_top(try_alignment: int) -> bool {
        Self::request_align(try_alignment) == FIXED_PAGE
    }

    /// The backend serves a request of `size` bytes at `try_alignment`.
    pub open spec fn can_alloc(&self, size: int, try_alignment: int) -> bool {
        &&& size > 0
        &&& self.registered()
        &&& exists|i: int| self.serves(i, Self::placed_size(size), Self::request_align(try_alignment),
            Self::placed_from_top(try_alignment))
    }

    /// Serving the request at `addr` turned `self` into `post`: the first fit
    /// placed it there, inside the region at the requested alignment from the
    /// origin, over free bytes, which are no longer free.
    pub open spec fn alloc_took(&self, post: Self, addr: int, size: int, try_alignment: int) -> bool {
        let rs = Self::placed_size(size);
        let align = Self::request_align(try_alignment);
        &&& exists|i: int| self.serves(i, rs, align, Self::placed_from_top(try_alignment))
            && addr == self.fit_at(i, rs, align, Self::placed_from_top(try_alignment))
            && post.extents() == replace_at(self.extents(), i,
                carve_pieces(self.extents()[i].0 as int, self.extents()[i].1 as int, addr, rs))
        &&& self.in_region(addr, rs)
        &&& (addr - self.origin()) % align == 0
        &&& range_set(addr, rs).subset_of(self.free_set())
        &&& post.free_set() == self.free_set().difference(range_set(addr, rs))
        &&& post.free_total() == self.free_total() - rs
    }

    /// The first extent, in search order, that holds a `size`-byte block at
    /// alignment `align`, and where in it the block goes.
    fn find_fit(&self, size: usize, align: usize, from_top: bool) -> (r: Option<(usize, usize)>)
        requires
            self.wf(),
            align > 0,
            is_power_of_two(align as int),
        ensures
            match r {
                Some((i, at)) => self.first_fit(i as int, size as int, align as int, from_top)
                    && at == self.fit_at(i as int, size as int, align as int, from_top),
                None => forall|j: int| 0 <= j < self.extents().len()
                    ==> !#[trigger] self.fits(j, size as int, align as int, from_top),
            },
    {
        let n = self.exts.len();
        let mut k: usize = 0;
        while k < n
            invariant
                self.wf(),
                n == self.exts@.len(),
                k <= n,
                align > 0,
                is_power_of_two(align as int),
                forall|j: int| 0 <= j < n && (if from_top { j >= n - k } else { j < k })
                    ==> !#[trigger] self.fits(j, size as int, align as int, from_top),
            decreases n - k,
        {
            let i = if from_top { n - 1 - k } else { k };
            let (b, l) = self.exts[i];
            proof {
                assert(self.exts@[i as int].1 > 0 && self.base <= self.exts@[i as int].0);
            }
            match place(b, l, size, align, from_top, self.base) {
                None => {
                    k = k + 1;
                },
                Some(at) => {
                    return Some((i, at));
                },
            }
        }
        None
    }

    /// Carve `[at, at + size)` out of extent `i`, leaving its head and tail.
    fn carve(&mut self, i: usize, at: usize, size: usize)
        requires
            old(self).wf(),
            i < old(self).extents().len(),
            old(self).extents()[i as int].0 <= at,
            size > 0,
            at + size <= old(self).extents()[i as int].0 + old(self).extents()[i as int].1,
            old(self).splits(i as int, at as int, size as int) ==> old(self).extents().len() + 1 <= MAX_EXTENTS,
        ensures
            final(self).wf(),
            final(self).origin() == old(self).origin(),
            final(self).total() == old(self).total(),
            range_set(at as int, size as int).subset_of(old(self).free_set()),
            final(self).free_set() == old(self).free_set().difference(range_set(at as int, size as int)),
            final(self).free_total() == old(self).free_total() - size,
            final(self).extents() == replace_at(old(self).extents(), i as int, carve_pieces(
                old(self).extents()[i as int].0 as int, old(self).extents()[i as int].1 as int, at as int, size as int)),
    {
        let ghost s = self.exts@;
        let ghost lo = self.base as int;
        let ghost hi = self.base + self.len;
        let (b, l) = self.exts[i];
        let head = at - b;
        let tail = (b + l) - (at + size);
        self.exts.remove(i);
        if head > 0 {
            self.exts.insert(i, (b, head));
        }
        if tail > 0 {
            let p = if head > 0 { i + 1 } else { i };
            self.exts.insert(p, (at + size, tail));
        }
        proof {
            lemma_carve(s, lo, hi, i as int, at as int, size as int);
            assert(self.exts@ =~= replace_at(s, i as int, carve_pieces(b as int, l as int, at as int, size as int)));
        }
    }

    /// Two-ended first fit over the free list. Requests aligned to no more
    /// than a page are placed at the top of the highest extent that holds
    /// them; coarser ones at the lowest aligned address of the lowest such
    /// extent, so a page taken never costs a segment of reach. Alignment is
    /// measured from the region's origin. Head and tail slack stay on the
    /// list as extents of their own. Refused when nothing is registered,
    /// nothing fits, or the first fit would need a table entry beyond
    /// [`MAX_EXTENTS`]; a refusal changes nothing. Recycled memory is never
    /// reported zero.
    pub fn alloc_block(&mut self, size: usize, try_alignment: usize, _commit: bool, _allow_large: bool) -> (r: Result<Alloc, PrimError>)
        requires
            old(self).wf(),
            size + FIXED_PAGE - 1 <= usize::MAX,
            try_alignment == 0 || is_power_of_two(try_alignment as int),
        ensures
            final(self).wf(),
            final(self).origin() == old(self).origin(),
            final(self).total() == old(self).total(),
            r is Ok <==> old(self).can_alloc(size as int, try_alignment as int),
            r matches Ok(a) ==> old(self).alloc_took(*final(self), a.addr as int, size as int, try_alignment as int)
                && !a.is_large && !a.is_zero,
            r matches Err(e) ==> e == FERR && *final(self) == *old(self),
    {
        if size == 0 {
            return Err(FERR);
        }
        proof {
            lemma_region_align_pow2();
        }
        let align = if try_alignment > FIXED_PAGE { try_alignment } else { FIXED_PAGE };
        let rs = align_up(size, FIXED_PAGE);
        if self.len == 0 {
            return Err(FERR);
        }
        let from_top = align == FIXED_PAGE;
        let ghost ia = Self::request_align(try_alignment as int);
        let ghost irs = Self::placed_size(size as int);
        assert(ia == align as int && irs == rs as int && from_top == Self::placed_from_top(try_alignment as int));
        match self.find_fit(rs, align, from_top) {
            None => {
                proof {
                    assert forall|j: int| !#[trigger] old(self).serves(j, irs, ia, from_top) by {
                        if old(self).serves(j, irs, ia, from_top) {
                            assert(!self.fits(j, irs, ia, from_top));
                        }
                    }
                }
                Err(FERR)
            },
            Some((i, at)) => {
                let (b, l) = self.exts[i];
                proof {
                    assert(self.exts@[i as int].1 > 0 && self.base <= self.exts@[i as int].0);
                    assert forall|j: int| #[trigger] old(self).serves(j, irs, ia, from_top) implies j == i by {
                        if j != i {
                            if from_top {
                                if j > i {
                                    assert(!self.fits(j, irs, ia, from_top));
                                } else {
                                    assert(!self.fits(i as int, irs, ia, from_top));
                                }
                            } else {
                                if j < i {
                                    assert(!self.fits(j, irs, ia, from_top));
                                } else {
                                    assert(!self.fits(i as int, irs, ia, from_top));
                                }
                            }
                        }
                    }
                    if from_top {
                        let v = (b + l - rs - self.base) as int;
                        vstd::arithmetic::div_mod::lemma_mod_multiples_basic(v / ia, ia);
                    } else {
                        lemma_round_up_bounds(b - self.base, ia);
                    }
                }
                let head = at - b;
                let tail = (b + l) - (at + rs);
                if head > 0 && tail > 0 && self.exts.len() + 1 > MAX_EXTENTS {
                    return Err(FERR);
                }
                self.carve(i, at, rs);
                proof {
                    assert(old(self).serves(i as int, irs, ia, from_top));
                }
                Ok(Alloc { addr: at, is_large: false, is_zero: false })
            },
        }
    }

    /// `idx` is where `[addr, addr + size)` goes in the sorted free list:
    /// the range lies in the region, no extent overlaps it, the extents
    /// before `idx` start at or below `addr` and the rest above it.
    pub open spec fn insertion_point(&self, idx: int, addr: int, size: int) -> bool {
        let s = self.extents();
        &&& 0 <= idx <= s.len()
        &&& size > 0
        &&& self.in_region(addr, size)
        &&& forall|j: int| 0 <= j < idx ==> #[trigger] s[j].0 <= addr
        &&& forall|j: int| idx <= j < s.len() ==> #[trigger] s[j].0 > addr
        &&& forall|j: int| 0 <= j < s.len() ==> #[trigger] s[j].0 + s[j].1 <= addr || addr + size <= s[j].0
        &&& forall|a: int| addr <= a < addr + size ==> !covers(s, a)
    }

    /// The range bridges the extents on both sides: absorb both into the
    /// earlier one.
    fn merge_both(&mut self, idx: usize, addr: usize, size: usize)
        requires
            old(self).wf(),
            old(self).insertion_point(idx as int, addr as int, size as int),
            0 < idx < old(self).extents().len(),
            old(self).extents()[idx - 1].0 + old(self).extents()[idx - 1].1 == addr,
            old(self).extents()[idx as int].0 == addr + size,
        ensures
            final(self).wf(),
            final(self).origin() == old(self).origin(),
            final(self).total() == old(self).total(),
            final(self).free_set() == old(self).free_set().union(range_set(addr as int, size as int)),
            final(self).free_total() == old(self).free_total() + size,
    {
        let ghost s = self.exts@;
        let (pb, pl) = self.exts[idx - 1];
        let (_nb, nl) = self.exts[idx];
        proof {
            assert(s[idx as int].0 + s[idx as int].1 <= self.base + self.len);
        }
        let grown = pl + size + nl;
        self.exts.set(idx - 1, (pb, grown));
        self.exts.remove(idx);
        proof {
            let m = (pb, grown);
            let mid = s.subrange(idx - 1, idx + 1);
            assert(mid =~= seq![s[idx - 1]] + seq![s[idx as int]]);
            lemma_total_concat(seq![s[idx - 1]], seq![s[idx as int]]);
            lemma_total_small(s[idx - 1]);
            lemma_total_small(s[idx as int]);
            assert forall|a: int| ext_holds(m, a) <==> (covers(mid, a) || addr <= a < addr + size) by {
                lemma_covers_concat(seq![s[idx - 1]], seq![s[idx as int]], a);
                lemma_covers_small(s[idx - 1], a);
                lemma_covers_small(s[idx as int], a);
            }
            assert forall|j: int| 0 <= j < idx - 1 implies #[trigger] s[j].0 + s[j].1 < m.0 by {}
            assert forall|j: int| idx + 1 <= j < s.len() implies m.0 + m.1 < #[trigger] s[j].0 by {
                assert(s[idx as int].0 + s[idx as int].1 < s[j].0);
            }
            lemma_merge(s, self.base as int, self.base + self.len, idx - 1, idx + 1, m, addr as int, size as int);
            assert(self.exts@ =~= s.take(idx - 1) + seq![m] + s.skip(idx + 1));
        }
    }

    /// The range continues the extent before it: grow that one.
    fn merge_prev(&mut self, idx: usize, addr: usize, size: usize)
        requires
            old(self).wf(),
            old(self).insertion_point(idx as int, addr as int, size as int),
            0 < idx <= old(self).extents().len(),
            old(self).extents()[idx - 1].0 + old(self).extents()[idx - 1].1 == addr,
            idx < old(self).extents().len() ==> old(self).extents()[idx as int].0 != addr + size,
        ensures
            final(self).wf(),
            final(self).origin() == old(self).origin(),
            final(self).total() == old(self).total(),
            final(self).free_set() == old(self).free_set().union(range_set(addr as int, size as int)),
            final(self).free_total() == old(self).free_total() + size,
    {
        let ghost s = self.exts@;
        let (pb, pl) = self.exts[idx - 1];
        let grown = pl + size;
        self.exts.set(idx - 1, (pb, grown));
        proof {
            let m = (pb, grown);
            let mid = s.subrange(idx - 1, idx as int);
            assert(mid =~= seq![s[idx - 1]]);
            lemma_total_small(s[idx - 1]);
            assert forall|a: int| ext_holds(m, a) <==> (covers(mid, a) || addr <= a < addr + size) by {
                lemma_covers_small(s[idx - 1], a);
            }
            assert forall|j: int| 0 <= j < idx - 1 implies #[trigger] s[j].0 + s[j].1 < m.0 by {}
            assert forall|j: int| idx <= j < s.len() implies m.0 + m.1 < #[trigger] s[j].0 by {
                if j > idx {
                    assert(s[idx as int].0 + s[idx as int].1 < s[j].0);
                }
            }
            lemma_merge(s, self.base as int, self.base + self.len, idx - 1, idx as int, m, addr as int, size as int);
            assert(self.exts@ =~= s.take(idx - 1) + seq![m] + s.skip(idx as int));
        }
    }

    /// The range ends where the extent after it starts: grow that one down.
    fn merge_next(&mut self, idx: usize, addr: usize, size: usize)
        requires
            old(self).wf(),
            old(self).insertion_point(idx as int, addr as int, size as int),
            idx < old(self).extents().len(),
            old(self).extents()[idx as int].0 == addr + size,
            idx > 0 ==> old(self).extents()[idx - 1].0 + old(self).extents()[idx - 1].1 != addr,
        ensures
            final(self).wf(),
            final(self).origin() == old(self).origin(),
            final(self).total() == old(self).total(),
            final(self).free_set() == old(self).free_set().union(range_set(addr as int, size as int)),
            final(self).free_total() == old(self).free_total() + size,
    {
        let ghost s = self.exts@;
        let (_nb, nl) = self.exts[idx];
        proof {
            assert(s[idx as int].0 + s[idx as int].1 <= self.base + self.len);
        }
        let grown = nl + size;
        self.exts.set(idx, (addr, grown));
        proof {
            let m = (addr, grown);
            let mid = s.subrange(idx as int, idx + 1);
            assert(mid =~= seq![s[idx as int]]);
            lemma_total_small(s[idx as int]);
            assert forall|a: int| ext_holds(m, a) <==> (covers(mid, a) || addr <= a < addr + size) by {
                lemma_covers_small(s[idx as int], a);
            }
            assert forall|j: int| 0 <= j < idx implies #[trigger] s[j].0 + s[j].1 < m.0 by {
                if j < idx - 1 {
                    assert(s[j].0 + s[j].1 < s[idx - 1].0);
                }
            }
            assert forall|j: int| idx + 1 <= j < s.len() implies m.0 + m.1 < #[trigger] s[j].0 by {
                assert(s[idx as int].0 + s[idx as int].1 < s[j].0);
            }
            lemma_merge(s, self.base as int, self.base + self.len, idx as int, idx + 1, m, addr as int, size as int);
            assert(self.exts@ =~= s.take(idx as int) + seq![m] + s.skip(idx + 1));
        }
    }

    /// The range touches neither neighbour: it becomes an extent of its own.
    fn insert_new(&mut self, idx: usize, addr: usize, size: usize)
        requires
            old(self).wf(),
            old(self).insertion_point(idx as int, addr as int, size as int),
            old(self).extents().len() < MAX_EXTENTS,
            idx > 0 ==> old(self).extents()[idx - 1].0 + old(self).extents()[idx - 1].1 != addr,
            idx < old(self).extents().len() ==> old(self).extents()[idx as int].0 != addr + size,
        ensures
            final(self).wf(),
            final(self).origin() == old(self).origin(),
            final(self).total() == old(self).total(),
            final(self).free_set() == old(self).free_set().union(range_set(addr as int, size as int)),
            final(self).free_total() == old(self).free_total() + size,
    {
        let ghost s = self.exts@;
        self.exts.insert(idx, (addr, size));
        proof {
            let m = (addr, size);
            let mid = s.subrange(idx as int, idx as int);
            assert(mid =~= Seq::<(usize, usize)>::empty());
            lemma_total_small(m);
            assert forall|a: int| ext_holds(m, a) <==> (covers(mid, a) || addr <= a < addr + size) by {
                lemma_covers_small(m, a);
            }
            assert forall|j: int| 0 <= j < idx implies #[trigger] s[j].0 + s[j].1 < m.0 by {
                if j < idx - 1 {
                    assert(s[j].0 + s[j].1 < s[idx - 1].0);
                }
            }
            assert forall|j: int| idx <= j < s.len() implies m.0 + m.1 < #[trigger] s[j].0 by {
                if j > idx {
                    assert(s[idx as int].0 + s[idx as int].1 < s[j].0);
                }
            }
            lemma_merge(s, self.base as int, self.base + self.len, idx as int, idx as int, m, addr as int, size as int);
            assert(self.exts@ =~= s.take(idx as int) + seq![m] + s.skip(idx as int));
        }
    }

    /// An extent ends at `addr` or starts at `addr + size`: the range would
    /// coalesce with a neighbour.
    pub open spec fn touches(&self, addr: int, size: int) -> bool {
        exists|i: int| 0 <= i < self.extents().len()
            && (#[trigger] self.extents()[i].0 + self.extents()[i].1 == addr || self.extents()[i].0 == addr + size)
    }

    /// The backend takes back `[addr, addr + placed_size(size))`.
    pub open spec fn can_free(&self, addr: int, size: int) -> bool {
        &&& self.in_region(addr, Self::placed_size(size))
        &&& (self.touches(addr, Self::placed_size(size)) || self.extents().len() < MAX_EXTENTS)
    }

    /// Whether none of `[addr, addr + size)`, its size rounded up to whole
    /// pages, is free, when it lies in the region: what returning it needs.
    pub fn range_not_free(&self, addr: usize, size: usize) -> (b: bool)
        requires
            self.wf(),
            size + FIXED_PAGE - 1 <= usize::MAX,
            addr + Self::placed_size(size as int) <= usize::MAX,
        ensures
            b == (self.in_region(addr as int, Self::placed_size(size as int))
                ==> range_set(addr as int, Self::placed_size(size as int)).disjoint(self.free_set())),
    {
        proof {
            lemma_region_align_pow2();
        }
        let rs = align_up(size, FIXED_PAGE);
        let ghost irs = Self::placed_size(size as int);
        assert(irs == rs);
        if rs == 0 || self.len == 0 || addr < self.base || addr + rs > self.base + self.len {
            proof {
                if rs == 0 {
                    assert(range_set(addr as int, irs) =~= Set::<int>::empty());
                }
            }
            return true;
        }
        let ghost s = self.exts@;
        let n = self.exts.len();
        let mut k: usize = 0;
        while k < n
            invariant
                s == self.exts@,
                n == s.len(),
                k <= n,
                rs == irs,
                irs == Self::placed_size(size as int),
                rs > 0,
                self.in_region(addr as int, irs),
                self.wf(),
                addr + rs <= self.origin() + self.total(),
                forall|j: int| 0 <= j < k ==> #[trigger] s[j].0 + s[j].1 <= addr || addr + rs <= s[j].0,
            decreases n - k,
        {
            let (b, l) = self.exts[k];
            if b < addr + rs && addr < b + l {
                proof {
                    let a: int = if b < addr { addr as int } else { b as int };
                    assert(ext_holds(s[k as int], a));
                    assert(covers(s, a));
                    assert(range_set(addr as int, irs).contains(a));
                    assert(self.free_set().contains(a));
                    assert(!range_set(addr as int, irs).disjoint(self.free_set()));
                }
                return false;
            }
            k = k + 1;
        }
        proof {
            assert forall|a: int| !(range_set(addr as int, irs).contains(a) && #[trigger] self.free_set().contains(a)) by {
                if range_set(addr as int, irs).contains(a) && self.free_set().contains(a) {
                    let i = choose|i: int| 0 <= i < s.len() && #[trigger] ext_holds(s[i], a);
                    assert(s[i].0 + s[i].1 <= addr || addr + rs <= s[i].0);
                }
            }
        }
        true
    }

    /// Return `[addr, addr + size)`, its size rounded up to whole pages, to
    /// the free list, coalescing with either neighbour. A zero size is a
    /// no-op. Refused when the range is not inside the region, or when the
    /// table is full and the range touches neither neighbour; a refusal
    /// changes nothing. The range must not already be free.
    pub fn free(&mut self, addr: usize, size: usize) -> (r: Result<(), PrimError>)
        requires
            old(self).wf(),
            size + FIXED_PAGE - 1 <= usize::MAX,
            addr + Self::placed_size(size as int) <= usize::MAX,
            old(self).in_region(addr as int, Self::placed_size(size as int))
                ==> range_set(addr as int, Self::placed_size(size as int)).disjoint(old(self).free_set()),
        ensures
            final(self).wf(),
            final(self).origin() == old(self).origin(),
            final(self).total() == old(self).total(),
            size == 0 ==> r is Ok && *final(self) == *old(self),
            size > 0 ==> (r is Ok <==> old(self).can_free(addr as int, size as int)),
            size > 0 && r is Ok ==> final(self).free_set()
                == old(self).free_set().union(range_set(addr as int, Self::placed_size(size as int)))
                && final(self).free_total() == old(self).free_total() + Self::placed_size(size as int),
            r matches Err(e) ==> e == FERR && *final(self) == *old(self),
    {
        if size == 0 {
            return Ok(());
        }
        proof {
            lemma_region_align_pow2();
        }
        let rs = align_up(size, FIXED_PAGE);
        let rbase = self.base;
        let rlen = self.len;
        if rlen == 0 || addr < rbase || addr + rs > rbase + rlen {
            return Err(FERR);
        }
        let ghost s = self.exts@;
        let ghost lo = rbase as int;
        let ghost hi = rbase + rlen;
        let ghost irs = Self::placed_size(size as int);
        assert(irs == rs);
        proof {
            assert forall|a: int| addr <= a < addr + rs implies !covers(s, a) by {
                assert(range_set(addr as int, irs).contains(a));
            }
            assert forall|j: int| 0 <= j < s.len() implies #[trigger] s[j].0 + s[j].1 <= addr || addr + rs <= s[j].0 by {
                assert(s[j].1 > 0);
                if !(s[j].0 + s[j].1 <= addr || addr + rs <= s[j].0) {
                    let a = if s[j].0 <= addr { addr as int } else { s[j].0 as int };
                    assert(ext_holds(s[j], a));
                    assert(!covers(s, a));
                }
            }
        }
        let n = self.exts.len();
        let mut idx: usize = 0;
        while idx < n && self.exts[idx].0 <= addr
            invariant
                self.exts@ == s,
                n == s.len(),
                idx <= n,
                forall|j: int| 0 <= j < idx ==> #[trigger] s[j].0 <= addr,
            decreases n - idx,
        {
            idx = idx + 1;
        }
        proof {
            assert forall|j: int| idx <= j < n implies #[trigger] s[j].0 > addr by {
                if j > idx {
                    assert(s[idx as int].0 + s[idx as int].1 < s[j].0);
                    assert(s[idx as int].1 > 0);
                }
            }
        }
        let prev_touches = if idx > 0 {
            let (pb, pl) = self.exts[idx - 1];
            pb + pl == addr
        } else {
            false
        };
        let next_touches = idx < n && self.exts[idx].0 == addr + rs;
        proof {
            assert(self.touches(addr as int, irs) <==> prev_touches || next_touches) by {
                if self.touches(addr as int, irs) {
                    let j = choose|j: int| 0 <= j < s.len()
                        && (#[trigger] s[j].0 + s[j].1 == addr || s[j].0 == addr + irs);
                    assert(s[j].1 > 0);
                    if s[j].0 + s[j].1 == addr {
                        assert(j < idx);
                        if j < idx - 1 {
                            assert(s[j].0 + s[j].1 < s[idx - 1].0);
                        }
                        assert(j == idx - 1);
                    } else {
                        assert(j >= idx);
                        if j > idx {
                            assert(s[idx as int].0 + s[idx as int].1 < s[j].0);
                            assert(s[idx as int].0 >= addr + rs);
                        }
                        assert(j == idx);
                    }
                }
                if prev_touches {
                    assert(s[idx - 1].0 + s[idx - 1].1 == addr);
                }
                if next_touches {
                    assert(s[idx as int].0 == addr + irs);
                }
            }
        }
        proof {
            assert(self.insertion_point(idx as int, addr as int, rs as int));
        }
        if prev_touches && next_touches {
            self.merge_both(idx, addr, rs);
        } else if prev_touches {
            self.merge_prev(idx, addr, rs);
        } else if next_touches {
            self.merge_next(idx, addr, rs);
        } else {
            if n >= MAX_EXTENTS {
                return Err(FERR);
            }
            self.insert_new(idx, addr, rs);
        }
        Ok(())
    }

    /// What the region can still serve: `(whole segments still placeable,
    /// largest dedicated allocation placeable in a fresh run of segments)`,
    /// each extent's run measured from its first segment stride from the
    /// origin. Not what is merely free: the stranded tail of an extent is free
    /// and serves no segment.
    pub fn region_capacity(&self) -> (r: (usize, usize))
        requires
            self.wf(),
        ensures
            r.0 == cap_segments(self.extents(), self.origin()),
            r.1 == cap_largest(self.extents(), self.origin()),
    {
        let seg = SEGMENT_SIZE;
        let origin = self.base;
        let n = self.exts.len();
        let mut segments: usize = 0;
        let mut largest: usize = 0;
        let mut i: usize = 0;
        proof {
            lemma_total_bounded(self.exts@, self.base as int, self.base + self.len);
        }
        while i < n
            invariant
                self.wf(),
                origin == self.base,
                n == self.exts@.len(),
                i <= n,
                seg == SEGMENT_SIZE,
                segments == cap_segments(self.exts@.take(i as int), origin as int),
                largest == cap_largest(self.exts@.take(i as int), origin as int),
                segments <= total_len(self.exts@.take(i as int)),
                total_len(self.exts@) <= self.len,
            decreases n - i,
        {
            let ghost s = self.exts@;
            proof {
                assert(s.take(i + 1).drop_last() =~= s.take(i as int));
                assert(s =~= s.take(i + 1) + s.skip(i + 1));
                lemma_total_concat(s.take(i + 1), s.skip(i + 1));
                lemma_total_nonneg(s.skip(i + 1));
                assert(s.take(i + 1).last() == s[i as int]);
                assert(s[i as int].1 > 0 && origin <= s[i as int].0 && s[i as int].0 + s[i as int].1 <= self.base + self.len);
            }
            let (base, len) = self.exts[i];
            let end = base + len;
            let x = base - origin;
            let rem = x % seg;
            proof {
                lemma_align_up_by_rem(x as int, seg as int);
                lemma_round_up_bounds(x as int, seg as int);
                vstd::arithmetic::div_mod::lemma_fundamental_div_mod(x as int, seg as int);
            }
            let first = if rem == 0 {
                Some(origin + x)
            } else {
                match x.checked_add(seg - rem) {
                    Some(up) => origin.checked_add(up),
                    None => None,
                }
            };
            proof {
                let fm = origin + spec_align_up(x as int, seg as int);
                match first {
                    Some(f) => { assert(f == fm); },
                    None => { assert(fm > usize::MAX); },
                }
                assert(cap_segments(s.take(i + 1), origin as int)
                    == cap_segments(s.take(i as int), origin as int) + ext_run(s[i as int], origin as int) / (seg as int));
            }
            match first {
                Some(first) => {
                    if first < end {
                        let run = end - first;
                        proof {
                            assert(run <= len);
                            assert(run / seg <= run);
                        }
                        segments = segments + run / seg;
                        if run > SEGMENT_SLICE_SIZE {
                            let placeable = run - SEGMENT_SLICE_SIZE;
                            if placeable > largest {
                                largest = placeable;
                            }
                        }
                    }
                },
                None => {},
            }
            i = i + 1;
        }
        proof {
            assert(self.exts@.take(n as int) =~= self.exts@);
        }
        (segments, largest)
    }

    /// The free list, sorted by base: `(base, len)` of each extent.
    pub fn free_extents(&self) -> (v: Vec<(usize, usize)>)
        ensures
            v@ == self.extents(),
    {
        let mut v: Vec<(usize, usize)> = Vec::new();
        let mut i: usize = 0;
        while i < self.exts.len()
            invariant
                i <= self.exts@.len(),
                v@ == self.exts@.take(i as int),
            decreases self.exts@.len() - i,
        {
            v.push(self.exts[i]);
            i = i + 1;
            proof {
                assert(v@ =~= self.exts@.take(i as int));
            }
        }
        proof {
            assert(self.exts@.take(i as int) =~= self.exts@);
        }
        v
    }

    /// Whether `addr` lies inside the registered region (`false` while none
    /// is registered).
    pub fn region_contains(&self, addr: usize) -> (b: bool)
        ensures
            b == (self.registered() && self.origin() <= addr < self.origin() + self.total()),
    {
        self.len != 0 && addr >= self.base && addr - self.base < self.len
    }

    /// The origin segments stride from: the region's base, 0 while none is
    /// registered.
    pub fn stride_base(&self) -> (b: usize)
        ensures
            b == self.origin(),
    {
        self.base
    }

    /// The region's occupancy `(used, free, total)` in bytes; `used` is
    /// derived from the free list, so it cannot drift from it.
    pub fn region_stats(&self) -> (r: (usize, usize, usize))
        requires
            self.wf(),
        ensures
            r.1 == self.free_total(),
            r.2 == self.total(),
            r.0 == self.total() - self.free_total(),
    {
        proof {
            lemma_total_bounded(self.exts@, self.base as int, self.base + self.len);
        }
        let n = self.exts.len();
        let mut free: usize = 0;
        let mut i: usize = 0;
        while i < n
            invariant
                self.wf(),
                n == self.exts@.len(),
                i <= n,
                free == total_len(self.exts@.take(i as int)),
                total_len(self.exts@) <= self.len,
            decreases n - i,
        {
            proof {
                let s = self.exts@;
                assert(s.take(i + 1).drop_last() =~= s.take(i as int));
                assert(s =~= s.take(i + 1) + s.skip(i + 1));
                lemma_total_concat(s.take(i + 1), s.skip(i + 1));
                lemma_total_nonneg(s.skip(i + 1));
            }
            free = free + self.exts[i].1;
            i = i + 1;
        }
        proof {
            assert(self.exts@.take(n as int) =~= self.exts@);
        }
        (self.len - free, free, self.len)
    }
}

/// A block `alloc_block` has just served can be freed at once: it lies in the
/// region, none of it is free, and it touches what is left of the extent it
/// came from, or the extent went whole and left a table slot behind.
pub proof fn lemma_just_allocated_frees(before: FixedRegion, after: FixedRegion, addr: int, size: int, try_alignment: int)
    requires
        before.wf(),
        size > 0,
        before.alloc_took(after, addr, size, try_alignment),
        after.origin() == before.origin(),
        after.total() == before.total(),
    ensures
        after.can_free(addr, size),
        range_set(addr, FixedRegion::placed_size(size)).disjoint(after.free_set()),
{
    let rs = FixedRegion::placed_size(size);
    let align = FixedRegion::request_align(try_alignment);
    let ft = FixedRegion::placed_from_top(try_alignment);
    let s = before.extents();
    let i = choose|i: int| before.serves(i, rs, align, ft) && addr == before.fit_at(i, rs, align, ft)
        && after.extents() == replace_at(s, i, carve_pieces(s[i].0 as int, s[i].1 as int, addr, rs));
    let b = s[i].0 as int;
    let l = s[i].1 as int;
    let pieces = carve_pieces(b, l, addr, rs);
    let t = after.extents();
    lemma_round_up_bounds(size, FIXED_PAGE as int);
    assert(before.fits(i, rs, align, ft));
    assert(addr >= b && addr + rs <= b + l);
    assert(b + l <= before.origin() + before.total());
    assert(t == s.take(i) + pieces + s.skip(i + 1));
    if addr > b {
        let hd = seq![(b as usize, (addr - b) as usize)];
        let tl: Seq<(usize, usize)> = if addr + rs < b + l {
            seq![((addr + rs) as usize, (b + l - (addr + rs)) as usize)]
        } else {
            Seq::empty()
        };
        assert(pieces == hd + tl);
        assert(pieces[0] == hd[0]);
        assert(t[i] == pieces[0]);
        assert(t[i].0 + t[i].1 == addr);
        assert(after.touches(addr, rs));
    } else if addr + rs < b + l {
        let tl = seq![((addr + rs) as usize, (b + l - (addr + rs)) as usize)];
        assert(pieces =~= tl);
        assert(t[i] == pieces[0]);
        assert(t[i].0 == addr + rs);
        assert(after.touches(addr, rs));
    } else {
        assert(pieces.len() == 0);
        assert(t.len() == s.len() - 1);
    }
    assert(range_set(addr, rs).disjoint(after.free_set())) by {
        assert forall|a: int| range_set(addr, rs).contains(a) implies !after.free_set().contains(a) by {}
    }
}

/// Freeing the block `alloc_block` served gives back exactly the free bytes
/// there were before it: the same free set and the same free total.
pub proof fn lemma_free_undoes_alloc(before: FixedRegion, mid: FixedRegion, after: FixedRegion, addr: int, size: int, try_alignment: int)
    requires
        before.wf(),
        before.alloc_took(mid, addr, size, try_alignment),
        after.free_set() == mid.free_set().union(range_set(addr, FixedRegion::placed_size(size))),
        after.free_total() == mid.free_total() + FixedRegion::placed_size(size),
    ensures
        after.free_set() == before.free_set(),
        after.free_total() == before.free_total(),
{
    let r = range_set(addr, FixedRegion::placed_size(size));
    assert(after.free_set() =~= before.free_set()) by {
        assert forall|a: int| #[trigger] after.free_set().contains(a) <==> before.free_set().contains(a) by {
            if r.contains(a) {
                assert(before.free_set().contains(a));
            }
        }
    }
}

/// The free bytes never exceed the region: `region_stats`' used is never
/// negative.
pub proof fn lemma_free_within_region(r: FixedRegion)
    requires
        r.wf(),
    ensures
        0 <= r.free_total() <= r.total(),
{
    lemma_total_bounded(r.extents(), r.origin(), r.origin() + r.total());
}

/// When every byte of the region is free, the free list is one extent, the
/// whole region: freeing always coalesces back.
pub proof fn lemma_all_free_is_one_extent(r: FixedRegion)
    requires
        r.wf(),
        r.registered(),
        r.free_set() == range_set(r.origin(), r.total()),
    ensures
        r.extents() == seq![(r.origin() as usize, r.total() as usize)],
{
    let s = r.extents();
    let lo = r.origin();
    let hi = r.origin() + r.total();
    assert(range_set(lo, r.total()).contains(lo));
    assert(covers(s, lo));
    let k = choose|k: int| 0 <= k < s.len() && #[trigger] ext_holds(s[k], lo);
    assert(s.len() >= 1);
    if s.len() >= 2 {
        assert(s[0].1 > 0 && s[1].1 > 0);
        assert(s[0].0 + s[0].1 < s[1].0);
        let gap = s[0].0 + s[0].1;
        assert(lo <= gap < hi);
        assert(range_set(lo, r.total()).contains(gap));
        assert(covers(s, gap));
        let j = choose|j: int| 0 <= j < s.len() && #[trigger] ext_holds(s[j], gap);
        if j > 1 {
            assert(s[1].0 + s[1].1 < s[j].0);
        }
        assert(false);
    }
    assert(k == 0);
    assert(s[0].0 == lo);
    let top = s[0].0 + s[0].1;
    if top < hi {
        assert(range_set(lo, r.total()).contains(top));
        assert(covers(s, top));
        let j = choose|j: int| 0 <= j < s.len() && #[trigger] ext_holds(s[j], top);
        assert(j == 0);
        assert(false);
    }
    assert(s =~= seq![(r.origin() as usize, r.total() as usize)]);
}

/// The backend's memory configuration: no MMU, no large pages, and any
/// extent can be returned on its own.
pub fn mem_init() -> (c: MemConfig)
    ensures
        c.page_size == FIXED_PAGE,
        c.alloc_granularity == FIXED_PAGE,
        c.large_page_size == 0,
        !c.has_overcommit,
        c.has_partial_free,
{
    MemConfig {
        page_size: FIXED_PAGE,
        alloc_granularity: FIXED_PAGE,
        large_page_size: 0,
        has_overcommit: false,
        has_partial_free: true,
    }
}

/// One NUMA node.
pub fn numa_node_count() -> (n: usize)
    ensures
        n == 1,
{
    1
}

/// One thread, so one id; non-zero, since zero marks an abandoned segment.
pub fn thread_id() -> (id: usize)
    ensures
        id == 1,
{
    1
}

/// Commit: always backed; reports not-known-zero, since decommit keeps contents.
pub fn commit(_addr: usize, _size: usize) -> (r: Result<bool, PrimError>)
    ensures
        r == Ok::<bool, PrimError>(false),
{
    Ok(false)
}

/// Decommit: a no-op; `false` means no re-commit is needed, contents kept.
pub fn decommit(_addr: usize, _size: usize) -> (r: Result<bool, PrimError>)
    ensures
        r == Ok::<bool, PrimError>(false),
{
    Ok(false)
}

/// Reset: a no-op over always-backed memory.
pub fn reset(_addr: usize, _size: usize) -> (r: Result<(), PrimError>)
    ensures
        r == Ok::<(), PrimError>(()),
{
    Ok(())
}

/// Protect: there is no MMU, so a guard page cannot trap; refused rather
/// than reported as done.
pub fn protect(_addr: usize, _size: usize, _on: bool) -> (r: Result<(), PrimError>)
    ensures
        r == Err::<(), PrimError>(FERR),
{
    Err(FERR)
}

/// The backend's clock: there is none, so a 64-bit tick counter kept as two
/// 32-bit words (a target without 64-bit atomics). It preserves the ordering
/// of events, not their durations.
pub struct TickClock {
    lo: u32,
    hi: u32,
}

impl TickClock {
    /// The ticks counted so far.
    pub closed spec fn ticks(&self) -> int {
        self.hi as int * 0x1_0000_0000 + self.lo as int
    }

    /// A clock that has counted nothing.
    pub fn new() -> (c: Self)
        ensures
            c.ticks() == 0,
    {
        TickClock { lo: 0, hi: 0 }
    }

    /// Advance by one tick and read the count: the low word carries into the
    /// high one, so the 64-bit value is strictly increasing until it wraps.
    pub fn clock_now(&mut self) -> (t: u64)
        ensures
            final(self).ticks() == (old(self).ticks() + 1) % 0x1_0000_0000_0000_0000,
            t == final(self).ticks(),
            old(self).ticks() < u64::MAX ==> t == old(self).ticks() + 1,
    {
        let carry = self.lo == u32::MAX;
        let lo = self.lo.wrapping_add(1);
        self.lo = lo;
        let hi = if carry {
            let h = self.hi.wrapping_add(1);
            self.hi = h;
            h
        } else {
            self.hi
        };
        proof {
            assert(carry == (old(self).lo == u32::MAX));
            assert(lo == (old(self).lo + 1) % 0x1_0000_0000);
            assert(!carry ==> hi == old(self).hi);
            assert(carry ==> hi == (old(self).hi + 1) % 0x1_0000_0000);
        }
        let t = ((hi as u64) << 32u64) | (lo as u64);
        assert(t == hi as u64 * 0x1_0000_0000 + lo as u64) by (bit_vector)
            requires t == ((hi as u64) << 32u64) | (lo as u64);
        t
    }
}

} // verus!
