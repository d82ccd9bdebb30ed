//! The primitive memory layer. The verified allocator draws its memory from
//! the fixed-region backend: one range handed over once, carved into
//! extents, with no operating system behind it.

pub mod fixed;
pub mod windows;

use vstd::prelude::*;

verus! {

/// Error code of a primitive operation.
pub type PrimError = u32;

/// Static memory-subsystem facts.
#[derive(Debug, Clone, Copy)]
pub struct MemConfig {
    /// Page size.
    pub page_size: usize,
    /// Granularity of address reservations.
    pub alloc_granularity: usize,
    /// Large page size, 0 if unavailable.
    pub large_page_size: usize,
    /// Commits may lazily succeed and fault later.
    pub has_overcommit: bool,
    /// Part of a reservation can be freed on its own.
    pub has_partial_free: bool,
}

/// Result of a successful primitive allocation: the base address of the
/// block and what is known of its memory.
#[derive(Debug, Clone, Copy)]
pub struct Alloc {
    /// Base address of the block, also what `free` must receive.
    pub addr: usize,
    /// Backed by large pages.
    pub is_large: bool,
    /// Known to be zero.
    pub is_zero: bool,
}

/// The backend's memory configuration.
pub fn mem_init() -> (c: MemConfig)
    ensures
        c.page_size == fixed::FIXED_PAGE,
        c.alloc_granularity == fixed::FIXED_PAGE,
        c.large_page_size == 0,
        !c.has_overcommit,
        c.has_partial_free,
{
    fixed::mem_init()
}

/// Number of NUMA nodes (at least 1).
pub fn numa_node_count() -> (n: usize)
    ensures
        n == 1,
{
    let n = fixed::numa_node_count();
    if n >= 1 { n } else { 1 }
}

/// Id of the calling thread: a non-zero constant, since this backend serves
/// one thread and zero marks an abandoned segment.
pub fn thread_id() -> (id: usize)
    ensures
        id == 1,
        id != 0,
{
    fixed::thread_id()
}

/// `n` rounded up to a multiple of the power of two `align`.
pub open spec fn spec_align_up(n: int, align: int) -> int {
    ((n + align - 1) / align) * align
}

/// `n` is a power of two.
pub open spec fn is_power_of_two(n: int) -> bool {
    exists|e: nat| vstd::arithmetic::power2::pow2(e) == n
}

/// Round `n` up to a multiple of the power-of-two `align`.
pub(crate) fn align_up(n: usize, align: usize) -> (r: usize)
    requires
        align > 0,
        is_power_of_two(align as int),
        n + align - 1 <= usize::MAX,
    ensures
        r == spec_align_up(n as int, align as int),
        n <= r < n + align,
        r % align == 0,
{
    let mask = align - 1;
    let s = n + mask;
    let r = s & !mask;
    proof {
        lemma_mask_round_down(s, align);
        lemma_round_up_bounds(n as int, align as int);
    }
    r
}

/// Rounding up to a multiple of `a` lands within `a - 1` above `n`.
pub proof fn lemma_round_up_bounds(n: int, a: int)
    requires
        a > 0,
        n >= 0,
    ensures
        n <= spec_align_up(n, a) < n + a,
        spec_align_up(n, a) % a == 0,
{
    let s = n + a - 1;
    vstd::arithmetic::div_mod::lemma_fundamental_div_mod(s, a);
    vstd::arithmetic::div_mod::lemma_mod_multiples_basic(s / a, a);
    assert(n <= (s / a) * a < n + a) by (nonlinear_arith)
        requires s == a * (s / a) + s % a, 0 <= s % a < a, s == n + a - 1;
}

/// For a power of two `a`, clearing the low bits rounds down to a multiple.
pub proof fn lemma_mask_round_down(s: usize, a: usize)
    requires
        a > 0,
        is_power_of_two(a as int),
    ensures
        (s & !((a - 1) as usize)) == (s / a) * a,
        (s & !((a - 1) as usize)) <= s,
{
    let e = choose|e: nat| vstd::arithmetic::power2::pow2(e) == a;
    vstd::arithmetic::power2::lemma_pow2_pos(e);
    vstd::arithmetic::power2::lemma2_to64();
    if e >= usize::BITS {
        if e > usize::BITS {
            vstd::arithmetic::power2::lemma_pow2_strictly_increases(usize::BITS as nat, e);
        }
        assert(false);
    }
    vstd::bits::lemma_usize_low_bits_mask_is_mod(s, e);
    assert(vstd::bits::low_bits_mask(e) == a - 1);
    let m = (a - 1) as usize;
    assert(s & !m == s - (s & m)) by (bit_vector);
    vstd::arithmetic::div_mod::lemma_fundamental_div_mod(s as int, a as int);
}

} // verus!
