//! The memory layer over the primitive backend: its configuration, and
//! rounding to whole pages.

use vstd::prelude::*;
use vstd::std_specs::bits::{u64_trailing_zeros, axiom_u64_trailing_zeros};
use crate::prim::{self, fixed::FIXED_PAGE, fixed::FixedRegion, fixed::range_set, spec_align_up, is_power_of_two, PrimError};

verus! {

/// Page size of the backend.
pub fn page_size() -> (ps: usize)
    ensures
        ps == FIXED_PAGE,
{
    prim::mem_init().page_size
}

/// Reservation granularity.
pub fn alloc_granularity() -> (g: usize)
    ensures
        g == FIXED_PAGE,
{
    prim::mem_init().alloc_granularity
}

/// Large-page size; 0 when unavailable.
pub fn large_page_size() -> (l: usize)
    ensures
        l == 0,
{
    prim::mem_init().large_page_size
}

/// `size` rounded up to whole pages, and never 0.
pub open spec fn spec_page_align_up(size: int) -> int {
    spec_align_up(if size > 1 { size } else { 1 }, FIXED_PAGE as int)
}

/// Round `size` up to a whole number of pages (never 0). The mask is built
/// from the page size's trailing zeros, so it is a power-of-two mask for
/// every page size.
pub fn page_align_up(size: usize) -> (r: usize)
    requires
        size + FIXED_PAGE - 1 <= usize::MAX,
    ensures
        r == spec_page_align_up(size as int),
        r >= size,
        r >= 1,
        r < (if size > 1 { size } else { 1 }) + FIXED_PAGE,
        r % FIXED_PAGE == 0,
{
    let ps = page_size();
    let tz0 = (ps as u64).trailing_zeros();
    proof {
        axiom_u64_trailing_zeros(4096u64);
        let t = u64_trailing_zeros(4096u64);
        assert(forall|j: u64| j < 12 ==> ((4096u64 >> j) & 1u64) == 0u64) by (bit_vector);
        assert(((4096u64 >> 12u64) & 1u64) == 1u64) by (bit_vector);
        if t < 12 {
            assert(((4096u64 >> (t as u64)) & 1u64) == 0u64);
        }
        if t > 12 {
            assert(((4096u64 >> 12u64) & 1u64) == 0u64);
        }
    }
    assert(tz0 == 12);
    let tz = tz0 & 63;
    assert(tz == 12) by (bit_vector) requires tz0 == 12u32, tz == tz0 & 63u32;
    let one_shl = 1usize << tz;
    assert(one_shl == 4096) by (bit_vector) requires tz == 12u32, one_shl == 1usize << tz;
    let mask = one_shl - 1;
    let m = if size > 1 { size } else { 1 };
    let s = m + mask;
    let r = s & !mask;
    proof {
        vstd::arithmetic::power2::lemma2_to64();
        assert(prim::is_power_of_two(4096)) by {
            assert(vstd::arithmetic::power2::pow2(12) == 4096);
        }
        prim::lemma_mask_round_down(s, 4096);
        prim::lemma_round_up_bounds(m as int, 4096);
    }
    r
}

/// A block from [`alloc_aligned`]: its address (also the free handle), the
/// page-rounded size reserved, and what is known of its memory.
#[derive(Debug, Clone, Copy)]
pub struct OsBlock {
    /// Base address, aligned as requested from the region's origin.
    pub addr: usize,
    /// Rounded (page-multiple) size actually reserved.
    pub size: usize,
    /// Backed by large pages.
    pub is_large: bool,
    /// Contents guaranteed zero.
    pub is_zero: bool,
}

/// Reserve `size` bytes (rounded up to whole pages) at `alignment` (at least
/// a page) from the backend.
pub fn alloc_aligned(region: &mut FixedRegion, size: usize, alignment: usize, commit: bool, allow_large: bool)
    -> (r: Result<OsBlock, PrimError>)
    requires
        old(region).wf(),
        is_power_of_two(alignment as int),
        size + FIXED_PAGE - 1 <= usize::MAX,
    ensures
        final(region).wf(),
        final(region).origin() == old(region).origin(),
        final(region).total() == old(region).total(),
        r is Ok <==> old(region).can_alloc(spec_page_align_up(size as int), alignment as int),
        r matches Ok(b) ==> b.size == spec_page_align_up(size as int)
            && old(region).alloc_took(*final(region), b.addr as int, b.size as int, alignment as int)
            && !b.is_large && !b.is_zero,
        r is Err ==> *final(region) == *old(region),
{
    let a0 = alignment;
    let alignment = if alignment > page_size() { alignment } else { page_size() };
    let size = page_align_up(size);
    proof {
        vstd::arithmetic::power2::lemma2_to64();
        assert(is_power_of_two(4096)) by {
            assert(vstd::arithmetic::power2::pow2(12) == 4096);
        }
        assert(FixedRegion::request_align(alignment as int) == FixedRegion::request_align(a0 as int));
        assert(FixedRegion::placed_from_top(alignment as int) == FixedRegion::placed_from_top(a0 as int));
        crate::prim::lemma_round_up_bounds(size as int, FIXED_PAGE as int);
        vstd::arithmetic::div_mod::lemma_fundamental_div_mod(size as int, FIXED_PAGE as int);
        assert(spec_align_up(size as int, FIXED_PAGE as int) == size) by {
            vstd::arithmetic::div_mod::lemma_fundamental_div_mod_converse(size + FIXED_PAGE - 1,
                FIXED_PAGE as int, size as int / FIXED_PAGE as int, FIXED_PAGE - 1);
        }
        assert(FixedRegion::placed_size(size as int) == size);
    }
    match region.alloc_block(size, alignment, commit, allow_large) {
        Ok(a) => Ok(OsBlock { addr: a.addr, size, is_large: a.is_large, is_zero: a.is_zero }),
        Err(e) => Err(e),
    }
}

/// Release a block from [`alloc_aligned`] to the backend, which takes it back
/// into its free extents.
pub fn free(region: &mut FixedRegion, block: OsBlock) -> (r: Result<(), PrimError>)
    requires
        old(region).wf(),
        block.size + FIXED_PAGE - 1 <= usize::MAX,
        block.addr + FixedRegion::placed_size(block.size as int) <= usize::MAX,
        old(region).in_region(block.addr as int, FixedRegion::placed_size(block.size as int))
            ==> range_set(block.addr as int, FixedRegion::placed_size(block.size as int)).disjoint(old(region).free_set()),
    ensures
        final(region).wf(),
        final(region).origin() == old(region).origin(),
        final(region).total() == old(region).total(),
        block.size == 0 ==> r is Ok && *final(region) == *old(region),
        block.size > 0 ==> (r is Ok <==> old(region).can_free(block.addr as int, block.size as int)),
        block.size > 0 && r is Ok ==> final(region).free_set()
            == old(region).free_set().union(range_set(block.addr as int, FixedRegion::placed_size(block.size as int))),
        r is Err ==> *final(region) == *old(region),
{
    region.free(block.addr, block.size)
}

/// Commit a range of a reserved block: the backend's memory is always
/// backed, so this succeeds and reports the contents not known zero.
pub fn commit(addr: usize, size: usize) -> (r: Result<bool, PrimError>)
    requires
        size + FIXED_PAGE - 1 <= usize::MAX,
    ensures
        r == Ok::<bool, PrimError>(false),
{
    prim::fixed::commit(addr, page_align_up(size))
}

/// Decommit a range: whether it must be committed again before use
/// (never, on this backend).
pub fn decommit(addr: usize, size: usize) -> (r: Result<bool, PrimError>)
    requires
        size + FIXED_PAGE - 1 <= usize::MAX,
    ensures
        r == Ok::<bool, PrimError>(false),
{
    prim::fixed::decommit(addr, page_align_up(size))
}

/// Purge a range by policy: decommit when `purge_decommits`, else reset it
/// in place. Whether it must be committed again before use.
pub fn purge(addr: usize, size: usize, purge_decommits: bool) -> (r: Result<bool, PrimError>)
    requires
        size + FIXED_PAGE - 1 <= usize::MAX,
    ensures
        r == Ok::<bool, PrimError>(false),
{
    if purge_decommits {
        decommit(addr, size)
    } else {
        match prim::fixed::reset(addr, page_align_up(size)) {
            Ok(()) => Ok(false),
            Err(e) => Err(e),
        }
    }
}

/// Toggle no-access protection on a range. The backend has no MMU, so it
/// is refused.
pub fn protect(addr: usize, size: usize, on: bool) -> (r: Result<(), PrimError>)
    requires
        size + FIXED_PAGE - 1 <= usize::MAX,
    ensures
        r is Err,
{
    prim::fixed::protect(addr, page_align_up(size), on)
}

} // verus!
