//! Size-class (bin) geometry: words 1..=8 get bins of whole word pairs,
//! and above that four bins per power of two, so consecutive bin sizes step
//! by at most 5/4.

use vstd::prelude::*;
use vstd::arithmetic::power2::{pow2, lemma_pow2_pos, lemma_pow2_unfold, lemma_pow2_strictly_increases, lemma_pow2_adds, lemma2_to64};
use vstd::bits::{lemma_usize_shr_is_div, lemma_usize_shl_is_mul, lemma_u64_shr_is_div};
use vstd::std_specs::bits::u64_leading_zeros;
use crate::types::{spec_wsize, wsize_from_size, BIN_FULL, BIN_HUGE, INTPTR_SIZE, MEDIUM_OBJ_SIZE_MAX, SMALL_WSIZE_MAX};
use crate::prim::{is_power_of_two, lemma_mask_round_down};
use crate::prim::fixed::FIXED_PAGE;
use crate::os::{page_align_up, spec_page_align_up};

verus! {

/// `floor(log2(n))` for `n >= 1` (and 0 for `n == 0`).
pub open spec fn spec_log2(n: nat) -> nat
    decreases n,
{
    if n <= 1 {
        0
    } else {
        1 + spec_log2(n / 2)
    }
}

/// `2^log2(n) <= n < 2^(log2(n) + 1)` for every positive `n`.
pub proof fn lemma_log2_bounds(n: nat)
    requires
        n >= 1,
    ensures
        pow2(spec_log2(n)) <= n < pow2(spec_log2(n) + 1),
    decreases n,
{
    if n <= 1 {
        lemma2_to64();
    } else {
        lemma_log2_bounds(n / 2);
        lemma_pow2_unfold(spec_log2(n));
        lemma_pow2_unfold(spec_log2(n) + 1);
    }
}

/// The index of the highest set bit, as `u64::leading_zeros` reports it.
pub proof fn lemma_leading_zeros_is_log2(x: u64)
    requires
        x >= 1,
    ensures
        u64_leading_zeros(x) == 63 - spec_log2(x as nat),
        spec_log2(x as nat) <= 63,
    decreases x,
{
    reveal(u64_leading_zeros);
    if x == 1 {
        assert(u64_leading_zeros(0) == 64);
    } else {
        lemma_leading_zeros_is_log2(x / 2);
    }
    lemma_log2_bounds(x as nat);
    lemma2_to64();
    if spec_log2(x as nat) > 63 {
        lemma_pow2_strictly_increases(64, spec_log2(x as nat));
    }
}

/// The bin a request of `size` bytes is served from.
pub open spec fn spec_bin(size: int) -> int {
    let w = spec_wsize(size);
    if w <= 1 {
        1
    } else if w <= 8 {
        w + w % 2
    } else if size > MEDIUM_OBJ_SIZE_MAX {
        BIN_HUGE as int
    } else {
        let v = w - 1;
        let b = spec_log2(v as nat);
        4 * b + (v / (pow2((b - 2) as nat) as int)) % 4 - 3
    }
}

/// Map a size to its bin index. Sizes above
/// `MEDIUM_OBJ_SIZE_MAX` map to `BIN_HUGE`, the dedicated-segment path.
pub fn bin(size: usize) -> (b: usize)
    ensures
        b == spec_bin(size as int),
{
    let wsize = wsize_from_size(size);
    if wsize <= 1 {
        1
    } else if wsize <= 8 {
        let t = wsize + 1;
        assert((t & !1usize) == wsize + wsize % 2) by (bit_vector)
            requires 2 <= wsize <= 8, t == wsize + 1;
        t & !1usize
    } else if size > MEDIUM_OBJ_SIZE_MAX {
        BIN_HUGE
    } else {
        let w = wsize - 1;
        assert(8 <= w <= 8191);
        let lz = (w as u64).leading_zeros();
        proof {
            lemma_leading_zeros_is_log2(w as u64);
            lemma_log2_bounds(w as nat);
            lemma2_to64();
            if spec_log2(w as nat) < 3 {
                lemma_pow2_strictly_increases(spec_log2(w as nat) + 1, 3);
                assert(false);
            }
            if spec_log2(w as nat) > 12 {
                lemma_pow2_strictly_increases(13, spec_log2(w as nat));
                assert(false);
            }
        }
        let b = (63 - lz) as usize;
        assert(b == spec_log2(w as nat));
        let sh = b - 2;
        proof {
            lemma_usize_shr_is_div(w, sh);
        }
        let q = w >> sh;
        assert((q & 3usize) == q % 4) by (bit_vector);
        assert((b << 2usize) == 4 * b) by (bit_vector) requires b <= 12;
        ((b << 2usize) + (q & 3usize)) - 3
    }
}

/// `2^e > e`.
pub proof fn lemma_pow2_exceeds(e: nat)
    ensures
        pow2(e) > e,
    decreases e,
{
    if e == 0 {
        lemma2_to64();
    } else {
        lemma_pow2_exceeds((e - 1) as nat);
        lemma_pow2_unfold(e);
        lemma_pow2_pos((e - 1) as nat);
    }
}

/// Block size in bytes served by `bin`: `bin` words for bins 1..=8, and
/// above that `(5 + m) << (b - 2)` words where `bin + 3 == 4b + m`.
pub open spec fn spec_bin_size(bin: int) -> int {
    if bin <= 8 {
        bin * INTPTR_SIZE
    } else {
        let t = bin + 3;
        (5 + t % 4) * (pow2((t / 4 - 2) as nat) as int) * INTPTR_SIZE
    }
}

/// Block size (bytes) served by `bin` (the inverse of
/// [`bin`]). Meaningless for `BIN_HUGE` and `BIN_FULL`.
pub fn bin_size(bin: usize) -> (s: usize)
    requires
        spec_bin_size(bin as int) <= usize::MAX,
    ensures
        s == spec_bin_size(bin as int),
{
    if bin <= 8 {
        bin * INTPTR_SIZE
    } else {
        proof {
            let e = ((bin + 3) / 4 - 2) as nat;
            lemma_pow2_exceeds(e);
            lemma_pow2_pos(e);
            assert((5 + (bin + 3) % 4) * (pow2(e) as int) >= pow2(e)) by (nonlinear_arith)
                requires pow2(e) > 0;
        }
        let t = bin + 3;
        let b = t >> 2usize;
        let m = t & 3usize;
        assert(b == t / 4 && m == t % 4) by (bit_vector)
            requires b == t >> 2usize, m == t & 3usize;
        let e = b - 2;
        let f = 5 + m;
        proof {
            lemma_pow2_pos(e as nat);
            assert((5 + m) * (pow2(e as nat) as int) >= pow2(e as nat)) by (nonlinear_arith)
                requires pow2(e as nat) > 0;
            assert((5 + m) * (pow2(e as nat) as int) * 8 >= (5 + m) * (pow2(e as nat) as int)) by (nonlinear_arith)
                requires pow2(e as nat) > 0;
            lemma2_to64();
            if e >= usize::BITS {
                if e > usize::BITS {
                    lemma_pow2_strictly_increases(usize::BITS as nat, e as nat);
                }
                assert(false);
            }
            lemma_usize_shl_is_mul(f, e);
        }
        (f << e) * INTPTR_SIZE
    }
}

/// `log2` is the exponent of the power of two bracketing `n`.
pub proof fn lemma_log2_unique(n: nat, e: nat)
    requires
        pow2(e) <= n < pow2(e + 1),
    ensures
        spec_log2(n) == e,
{
    lemma_pow2_pos(e);
    lemma_log2_bounds(n);
    let l = spec_log2(n);
    if l < e {
        lemma_pow2_strictly_increases(l + 1, e);
        if l + 1 == e {
        } else {
        }
        assert(pow2(l + 1) <= pow2(e)) by {
            if l + 1 < e {
                lemma_pow2_strictly_increases(l + 1, e);
            }
        }
    } else if l > e {
        assert(pow2(e + 1) <= pow2(l)) by {
            if e + 1 < l {
                lemma_pow2_strictly_increases(e + 1, l);
            }
        }
    }
}

/// The octave decomposition behind every bin above eight words: with
/// `v = wsize - 1`, `b = log2(v)` and `q = 2^(b-2)`, the quotient `k = v / q`
/// lies in `4..8`, the bin is `4b + k - 7`, and its block is `(k+1) q` words.
pub proof fn lemma_bin_octave(size: int)
    requires
        0 <= size <= MEDIUM_OBJ_SIZE_MAX,
        spec_wsize(size) > 8,
    ensures
        ({
            let v = spec_wsize(size) - 1;
            let b = spec_log2(v as nat);
            let q = pow2((b - 2) as nat) as int;
            let k = v / q;
            &&& 3 <= b <= 12
            &&& q >= 2
            &&& 4 <= k < 8
            &&& k * q <= v < (k + 1) * q
            &&& (k + 1) * q <= 8192
            &&& spec_bin(size) == 4 * b + k - 7
            &&& spec_bin_size(spec_bin(size)) == (k + 1) * q * 8
        }),
{
    let v = spec_wsize(size) - 1;
    assert(8 <= v <= 8191);
    lemma_log2_bounds(v as nat);
    let b = spec_log2(v as nat);
    lemma2_to64();
    if b < 3 {
        if b + 1 < 3 {
            lemma_pow2_strictly_increases(b + 1, 3);
        }
        assert(false);
    }
    if b > 12 {
        lemma_pow2_strictly_increases(13, b);
        assert(false);
    }
    let e = (b - 2) as nat;
    let q = pow2(e) as int;
    lemma_pow2_unfold(e + 1);
    lemma_pow2_unfold(e + 2);
    assert(pow2(b) == 4 * q);
    assert(pow2(b + 1) == 8 * q);
    lemma_pow2_pos(e);
    assert(q >= 2) by {
        if e >= 1 {
            lemma_pow2_unfold(e);
            lemma_pow2_pos((e - 1) as nat);
        }
    }
    let k = v / q;
    vstd::arithmetic::div_mod::lemma_fundamental_div_mod(v, q);
    let r = v % q;
    assert(0 <= r < q);
    assert(4 * q <= v < 8 * q);
    assert(4 <= k < 8) by (nonlinear_arith)
        requires v == q * k + r, 0 <= r < q, 4 * q <= v < 8 * q, q > 0;
    assert(k * q <= v < (k + 1) * q) by (nonlinear_arith)
        requires v == q * k + r, 0 <= r < q;
    assert((k + 1) * q <= 8 * q) by (nonlinear_arith)
        requires k < 8, q > 0;
    assert(8 * q <= 8192) by {
        if b < 12 {
            lemma_pow2_strictly_increases(b + 1, 13);
        }
    }
    assert(k % 4 == k - 4);
    assert(spec_bin(size) == 4 * b + k - 7);
    let bin = 4 * b + k - 7;
    assert(bin > 8);
    assert((bin + 3) / 4 == b && (bin + 3) % 4 == k - 4);
    assert(spec_bin_size(bin) == (5 + (k - 4)) * q * 8);
}

/// Every size up to `MEDIUM_OBJ_SIZE_MAX` lands in a bin whose block holds
/// it, that block size maps back to the same bin, and it never exceeds the
/// binned range.
pub proof fn lemma_bin_size_inverts_bin(size: int)
    requires
        0 <= size <= MEDIUM_OBJ_SIZE_MAX,
    ensures
        1 <= spec_bin(size) <= 48,
        size <= spec_bin_size(spec_bin(size)) <= MEDIUM_OBJ_SIZE_MAX,
        spec_bin(spec_bin_size(spec_bin(size))) == spec_bin(size),
{
    let w = spec_wsize(size);
    if w <= 8 {
    } else {
        lemma_bin_octave(size);
        let v = w - 1;
        let b = spec_log2(v as nat);
        let q = pow2((b - 2) as nat) as int;
        let k = v / q;
        let bs = (k + 1) * q * 8;
        assert(spec_wsize(bs) == (k + 1) * q);
        let v2 = (k + 1) * q - 1;
        assert(k * q <= v2 < (k + 1) * q);
        assert(v2 == k * q + (q - 1)) by (nonlinear_arith)
            requires v2 == (k + 1) * q - 1;
        vstd::arithmetic::div_mod::lemma_fundamental_div_mod_converse(v2, q, k, q - 1);
        assert(v2 / q == k);
        lemma_pow2_unfold((b - 1) as nat);
        lemma_pow2_unfold(b);
        lemma_pow2_unfold(b + 1);
        assert(pow2(b) <= v2 < pow2(b + 1)) by (nonlinear_arith)
            requires pow2(b) == 4 * q, pow2(b + 1) == 8 * q, 4 <= k < 8, v2 == (k + 1) * q - 1, q >= 2;
        lemma_log2_unique(v2 as nat, b);
        assert(spec_wsize(bs) > 8) by (nonlinear_arith)
            requires spec_wsize(bs) == (k + 1) * q, k >= 4, q >= 2;
        assert(bs <= MEDIUM_OBJ_SIZE_MAX);
        assert(size <= bs) by (nonlinear_arith)
            requires v < (k + 1) * q, w == v + 1, size <= w * 8, w == spec_wsize(size), bs == (k + 1) * q * 8;
        assert(spec_bin(size) <= 48);
    }
}

/// Larger requests never land in smaller bins: `bin` is monotone.
pub proof fn lemma_bin_monotone(s1: int, s2: int)
    requires
        0 <= s1 <= s2,
    ensures
        spec_bin(s1) <= spec_bin(s2),
{
    vstd::arithmetic::div_mod::lemma_div_is_ordered(s1 + INTPTR_SIZE - 1, s2 + INTPTR_SIZE - 1, INTPTR_SIZE as int);
    let w1 = spec_wsize(s1);
    let w2 = spec_wsize(s2);
    assert(w1 <= w2);
    if s2 > MEDIUM_OBJ_SIZE_MAX {
        if s1 <= MEDIUM_OBJ_SIZE_MAX {
            lemma_bin_size_inverts_bin(s1);
        }
        assert(w2 > 8);
        return;
    }
    if w2 <= 8 {
        return;
    }
    lemma_bin_octave(s2);
    if w1 <= 8 {
        return;
    }
    lemma_bin_octave(s1);
    let v1 = w1 - 1;
    let v2 = w2 - 1;
    let b1 = spec_log2(v1 as nat);
    let b2 = spec_log2(v2 as nat);
    lemma_log2_bounds(v1 as nat);
    lemma_log2_bounds(v2 as nat);
    if b1 > b2 {
        lemma_pow2_strictly_increases(b2 + 1, b1);
        assert(false);
    }
    if b1 == b2 {
        let q = pow2((b1 - 2) as nat) as int;
        vstd::arithmetic::div_mod::lemma_div_is_ordered(v1, v2, q);
    }
}

/// Consecutive bins step by at most 5/4: above 64 bytes the block served
/// wastes at most a quarter of the request.
pub proof fn lemma_fragmentation_bound(size: int)
    requires
        65 <= size <= MEDIUM_OBJ_SIZE_MAX,
    ensures
        spec_bin_size(spec_bin(size)) - size <= size / 4,
{
    lemma_bin_octave(size);
    let w = spec_wsize(size);
    let v = w - 1;
    let b = spec_log2(v as nat);
    let q = pow2((b - 2) as nat) as int;
    let k = v / q;
    assert(size >= 8 * v + 1);
    assert(spec_bin_size(spec_bin(size)) - size <= size / 4) by (nonlinear_arith)
        requires size >= 8 * v + 1, k * q <= v, k >= 4, q > 0,
            spec_bin_size(spec_bin(size)) == (k + 1) * q * 8;
}

/// Total number of page queues: bins `0..=BIN_HUGE` plus the full queue.
pub const BIN_COUNT: usize = 75;

/// Direct-table entries: one per small word size `0..=SMALL_WSIZE_MAX`.
pub const PAGES_DIRECT: usize = 129;

/// The size actually allocated for a request of `size` bytes.
pub open spec fn spec_good_size(size: int) -> int {
    if size <= MEDIUM_OBJ_SIZE_MAX {
        spec_bin_size(spec_bin(size))
    } else {
        spec_page_align_up(size)
    }
}

/// The bin's block size for binned sizes, whole pages above.
pub fn good_size(size: usize) -> (g: usize)
    requires
        size + FIXED_PAGE - 1 <= usize::MAX,
    ensures
        g == spec_good_size(size as int),
        g >= size,
{
    if size <= MEDIUM_OBJ_SIZE_MAX {
        proof {
            lemma_bin_size_inverts_bin(size as int);
        }
        bin_size(bin(size))
    } else {
        page_align_up(size)
    }
}

/// `good_size` never shrinks a request, is idempotent, and rounds a size
/// above the binned range up by less than a page, to a page multiple.
pub proof fn lemma_good_size(size: int)
    requires
        0 <= size <= usize::MAX - FIXED_PAGE + 1,
    ensures
        spec_good_size(size) >= size,
        spec_good_size(spec_good_size(size)) == spec_good_size(size),
        size > MEDIUM_OBJ_SIZE_MAX ==> spec_good_size(size) % (FIXED_PAGE as int) == 0
            && spec_good_size(size) - size < FIXED_PAGE,
{
    if size <= MEDIUM_OBJ_SIZE_MAX {
        lemma_bin_size_inverts_bin(size);
    } else {
        crate::prim::lemma_round_up_bounds(size, FIXED_PAGE as int);
        let g = spec_good_size(size);
        crate::prim::lemma_round_up_bounds(g, FIXED_PAGE as int);
        vstd::arithmetic::div_mod::lemma_fundamental_div_mod(g, FIXED_PAGE as int);
        assert(spec_page_align_up(g) == g) by {
            let s2 = g + FIXED_PAGE - 1;
            assert(s2 / (FIXED_PAGE as int) == g / (FIXED_PAGE as int)) by {
                vstd::arithmetic::div_mod::lemma_fundamental_div_mod_converse(
                    s2, FIXED_PAGE as int, g / (FIXED_PAGE as int), FIXED_PAGE - 1);
            }
        }
    }
}

/// `x` is a multiple of the power-of-two `align` (0 counts as 1).
pub open spec fn spec_is_aligned_to(x: int, align: int) -> bool {
    let a = if align > 1 { align } else { 1 };
    is_power_of_two(a) && x % a == 0
}

/// A positive `a` is a power of two exactly when `a & (a - 1) == 0`.
pub proof fn lemma_pow2_mask_test(a: usize)
    requires
        a >= 1,
    ensures
        (a & ((a - 1) as usize)) == 0 <==> is_power_of_two(a as int),
    decreases a,
{
    let m = (a - 1) as usize;
    if a == 1 {
        assert(vstd::arithmetic::power2::pow2(0) == 1) by { vstd::arithmetic::power2::lemma2_to64(); }
        assert((1usize & 0usize) == 0) by (bit_vector);
    } else if a % 2 == 1 {
        assert((a & m) != 0) by (bit_vector) requires a % 2 == 1, a > 1, m == a - 1;
        if is_power_of_two(a as int) {
            let e = choose|e: nat| vstd::arithmetic::power2::pow2(e) == a;
            if e > 0 {
                vstd::arithmetic::power2::lemma_pow2_unfold(e);
            } else {
                vstd::arithmetic::power2::lemma2_to64();
            }
            assert(false);
        }
    } else {
        let h = a / 2;
        let hm = (h - 1) as usize;
        assert(((a & m) == 0) == ((h & hm) == 0)) by (bit_vector)
            requires a % 2 == 0, a >= 2, h == a / 2, m == a - 1, hm == h - 1;
        lemma_pow2_mask_test(h);
        if is_power_of_two(h as int) {
            let e = choose|e: nat| vstd::arithmetic::power2::pow2(e) == h;
            vstd::arithmetic::power2::lemma_pow2_unfold(e + 1);
            assert(vstd::arithmetic::power2::pow2(e + 1) == a);
        }
        if is_power_of_two(a as int) {
            let e = choose|e: nat| vstd::arithmetic::power2::pow2(e) == a;
            if e == 0 {
                vstd::arithmetic::power2::lemma2_to64();
                assert(false);
            }
            vstd::arithmetic::power2::lemma_pow2_unfold(e);
            assert(vstd::arithmetic::power2::pow2((e - 1) as nat) == h);
        }
    }
}

/// Is `x` a multiple of `align`, tested with a mask? A non-power-of-two
/// `align` answers `false`, the conservative answer at every call site.
pub fn is_aligned_to(x: usize, align: usize) -> (r: bool)
    ensures
        r == spec_is_aligned_to(x as int, align as int),
{
    let a = if align > 1 { align } else { 1 };
    let m = a - 1;
    proof {
        lemma_pow2_mask_test(a);
    }
    let pow2_ok = (a & m) == 0;
    if !pow2_ok {
        return false;
    }
    proof {
        lemma_mask_round_down(x, a);
        vstd::arithmetic::div_mod::lemma_fundamental_div_mod(x as int, a as int);
        assert((x & m) == x - (x & !m)) by (bit_vector);
    }
    (x & m) == 0
}

/// The odd factor of `x` (0 for 0).
pub open spec fn spec_odd_part(x: nat) -> nat
    decreases x,
{
    if x == 0 {
        0
    } else if x % 2 == 1 {
        x
    } else {
        spec_odd_part(x / 2)
    }
}

/// The exponent of the largest power of two dividing `x` (0 for 0).
pub open spec fn spec_two_adic(x: nat) -> nat
    decreases x,
{
    if x == 0 || x % 2 == 1 {
        0
    } else {
        1 + spec_two_adic(x / 2)
    }
}

/// `x = odd_part(x) * 2^two_adic(x)`, with an odd first factor.
pub proof fn lemma_odd_decomposition(x: nat)
    requires
        x > 0,
    ensures
        x == spec_odd_part(x) * pow2(spec_two_adic(x)),
        spec_odd_part(x) % 2 == 1,
    decreases x,
{
    if x % 2 == 1 {
        lemma2_to64();
        assert(spec_two_adic(x) == 0);
        assert(x == spec_odd_part(x) * pow2(spec_two_adic(x)));
    } else {
        let h = x / 2;
        lemma_odd_decomposition(h);
        assert(spec_odd_part(x) == spec_odd_part(h));
        assert(spec_two_adic(x) == 1 + spec_two_adic(h));
        lemma_pow2_unfold(spec_two_adic(x));
        let o = spec_odd_part(h);
        let p = pow2(spec_two_adic(h));
        assert(x == o * (2 * p)) by (nonlinear_arith)
            requires h == o * p, x == 2 * h;
        assert(pow2(spec_two_adic(x)) == 2 * p);
        assert(x == spec_odd_part(x) * pow2(spec_two_adic(x)));
    }
}

/// Scaling by a power of two keeps the odd factor.
pub proof fn lemma_odd_part_scaled(c: nat, k: nat)
    requires
        c > 0,
    ensures
        spec_odd_part(c * pow2(k)) == spec_odd_part(c),
    decreases k,
{
    lemma_pow2_pos(k);
    if k > 0 {
        lemma_pow2_unfold(k);
        lemma_odd_part_scaled(c, (k - 1) as nat);
        let y = c * pow2((k - 1) as nat);
        assert(c * pow2(k) == y * 2) by (nonlinear_arith)
            requires pow2(k) == 2 * pow2((k - 1) as nat), y == c * pow2((k - 1) as nat);
        assert(y > 0) by (nonlinear_arith) requires c > 0, pow2((k - 1) as nat) > 0, y == c * pow2((k - 1) as nat);
        assert((y * 2) / 2 == y);
    } else {
        lemma2_to64();
    }
}

/// Every bin's block size is `odd << k` with `odd` in {1, 3, 5, 7}: the fact
/// that lets a block-size division become one multiply.
pub proof fn lemma_bin_size_odd_part(bin: int)
    requires
        1 <= bin <= BIN_FULL,
    ensures
        spec_bin_size(bin) > 0,
        spec_odd_part(spec_bin_size(bin) as nat) == 1 || spec_odd_part(spec_bin_size(bin) as nat) == 3
            || spec_odd_part(spec_bin_size(bin) as nat) == 5 || spec_odd_part(spec_bin_size(bin) as nat) == 7,
{
    lemma2_to64();
    if bin <= 8 {
        let c = bin as nat;
        lemma_odd_part_scaled(c, 3);
        assert(spec_bin_size(bin) == c * pow2(3));
        reveal_with_fuel(spec_odd_part, 5);
    } else {
        let t = bin + 3;
        let e = (t / 4 - 2) as nat;
        let c = (5 + t % 4) as nat;
        lemma_pow2_adds(e, 3);
        lemma_pow2_pos(e);
        assert(spec_bin_size(bin) == c * pow2(e + 3)) by (nonlinear_arith)
            requires spec_bin_size(bin) == c * (pow2(e) as int) * 8, pow2(e + 3) == pow2(e) * pow2(3), pow2(3) == 8;
        lemma_odd_part_scaled(c, e + 3);
        reveal_with_fuel(spec_odd_part, 5);
        assert(spec_bin_size(bin) > 0) by (nonlinear_arith)
            requires spec_bin_size(bin) == c * pow2(e + 3), c >= 5, pow2(e + 3) > 0;
    }
}


/// Scaling an odd number by `2^k` puts exactly `k` factors of two in it.
pub proof fn lemma_two_adic_scaled(c: nat, k: nat)
    requires
        c % 2 == 1,
    ensures
        spec_two_adic(c * pow2(k)) == k,
    decreases k,
{
    lemma_pow2_pos(k);
    if k > 0 {
        lemma_pow2_unfold(k);
        lemma_two_adic_scaled(c, (k - 1) as nat);
        let y = c * pow2((k - 1) as nat);
        assert(c * pow2(k) == y * 2) by (nonlinear_arith)
            requires pow2(k) == 2 * pow2((k - 1) as nat), y == c * pow2((k - 1) as nat);
        assert(y > 0) by (nonlinear_arith)
            requires c > 0, pow2((k - 1) as nat) > 0, y == c * pow2((k - 1) as nat);
        assert((y * 2) / 2 == y);
    } else {
        lemma2_to64();
    }
}

/// One of the four odd factors a block size can have.
pub open spec fn is_block_odd(odd: nat) -> bool {
    odd == 1 || odd == 3 || odd == 5 || odd == 7
}

/// `ceil(2^32 / d)`.
pub open spec fn spec_recip32(d: int) -> int {
    (0x1_0000_0000 + d - 1) / d
}

/// `ceil(2^32 / odd)` for the four odd parts a bin size can have, indexed by
/// `odd >> 1`: 1 -> 0, 3 -> 1, 5 -> 2, 7 -> 3. The entry for 1 is exactly
/// `2^32`, so one multiply-high serves every odd part without a branch.
pub const RECIP32: [u64; 4] = [4294967296, 1431655766, 858993460, 613566757];

/// The table holds `ceil(2^32 / odd)` at index `odd >> 1`.
pub proof fn lemma_recip32_table()
    ensures
        RECIP32@.len() == 4,
        RECIP32@[0] == spec_recip32(1),
        RECIP32@[1] == spec_recip32(3),
        RECIP32@[2] == spec_recip32(5),
        RECIP32@[3] == spec_recip32(7),
{
}

/// The multiply-high by a 32-bit reciprocal is exact division by the odd
/// part for every dividend below `2^30` (the bound of the odd part 5).
pub proof fn lemma_reciprocal_division(m: int, d: int)
    requires
        0 <= m < 0x4000_0000,
        d > 0,
        is_block_odd(d as nat),
    ensures
        0 <= m * spec_recip32(d) < 0x4000_0000_0000_0000,
        (m * spec_recip32(d)) / 0x1_0000_0000 == m / d,
{
    let q = m / d;
    let r = m % d;
    vstd::arithmetic::div_mod::lemma_fundamental_div_mod(m, d);
    let c = spec_recip32(d);
    let p = m * c;
    if d == 1 {
        vstd::arithmetic::div_mod::lemma_fundamental_div_mod_converse(0x1_0000_0000 + 1 - 1, 1, 0x1_0000_0000, 0);
        assert(m == q && r == 0);
        assert(p == q * 0x1_0000_0000);
    } else if d == 3 {
        vstd::arithmetic::div_mod::lemma_fundamental_div_mod_converse(0x1_0000_0000 + 3 - 1, 3, 1431655766, 0);
        assert(m == 3 * q + r);
        assert(p == q * 4294967298 + r * 1431655766) by (nonlinear_arith)
            requires p == m * c, c == 1431655766, m == 3 * q + r;
    } else if d == 5 {
        vstd::arithmetic::div_mod::lemma_fundamental_div_mod_converse(0x1_0000_0000 + 5 - 1, 5, 858993460, 0);
        assert(m == 5 * q + r);
        assert(p == q * 4294967300 + r * 858993460) by (nonlinear_arith)
            requires p == m * c, c == 858993460, m == 5 * q + r;
    } else {
        vstd::arithmetic::div_mod::lemma_fundamental_div_mod_converse(0x1_0000_0000 + 7 - 1, 7, 613566757, 3);
        assert(m == 7 * q + r);
        assert(p == q * 4294967299 + r * 613566757) by (nonlinear_arith)
            requires p == m * c, c == 613566757, m == 7 * q + r;
    }
    assert(q * 0x1_0000_0000 <= p < (q + 1) * 0x1_0000_0000);
    vstd::arithmetic::div_mod::lemma_fundamental_div_mod_converse(p, 0x1_0000_0000, q, p - q * 0x1_0000_0000);
}

/// A non-zero `b` splits at its trailing zeros into an odd part and a power
/// of two, which are its `spec_odd_part` and `2^spec_two_adic`.
proof fn lemma_trailing_split(b: u64, t: u64)
    requires
        b > 0,
        t == vstd::std_specs::bits::u64_trailing_zeros(b),
    ensures
        t < 64,
        b == (b >> t) * pow2(t as nat),
        (b >> t) % 2 == 1,
        spec_two_adic(b as nat) == t,
        spec_odd_part(b as nat) == (b >> t),
{
    vstd::std_specs::bits::axiom_u64_trailing_zeros(b);
    let o = b >> t;
    assert(t < 64);
    let s = (64 - t) as u64;
    assert((b << s) == 0u64);
    assert(((b >> t) << t) == b) by (bit_vector)
        requires t < 64, s == 64 - t, (b << s) == 0u64;
    assert((o & 1u64) == 1u64 ==> o % 2 == 1) by (bit_vector);
    vstd::bits::lemma_u64_mul_pow2_le_max_iff_max_shr(o, t, u64::MAX);
    assert(o <= (u64::MAX >> t)) by (bit_vector) requires o == b >> t;
    vstd::bits::lemma_u64_shl_is_mul(o, t);
    lemma_two_adic_scaled(o as nat, t as nat);
    lemma_odd_part_scaled(o as nat, t as nat);
    assert(spec_odd_part(o as nat) == o);
}

/// `n / bsize` for a block size `bsize`, without a `div`: the power of two
/// is shifted out and the odd part (one of 1, 3, 5, 7) is divided by a
/// multiply-high with its 32-bit reciprocal. Exact for any dividend whose
/// shifted value is below `2^30`, multiples and interior offsets alike.
pub fn div_by_block_size(n: usize, bsize: usize) -> (q: usize)
    requires
        bsize > 0,
        is_block_odd(spec_odd_part(bsize as nat)),
        n as int / (pow2(spec_two_adic(bsize as nat)) as int) < 0x4000_0000,
    ensures
        q == n / bsize,
{
    let b = bsize as u64;
    let k = b.trailing_zeros();
    let k64 = k as u64;
    proof {
        lemma_trailing_split(b, k64);
    }
    let odd = b >> k64;
    let m = (n as u64) >> k64;
    let idx64 = (odd >> 1u64) & 3u64;
    proof {
        assert(idx64 as int == (odd as int) / 2) by (bit_vector)
            requires idx64 == (odd >> 1u64) & 3u64, odd <= 7;
    }
    let idx = idx64 as usize;
    proof {
        lemma_recip32_table();
        lemma_u64_shr_is_div(n as u64, k64);
        lemma_reciprocal_division(m as int, odd as int);
        lemma_pow2_pos(k64 as nat);
        vstd::arithmetic::div_mod::lemma_div_denominator(n as int, pow2(k64 as nat) as int, odd as int);
        vstd::arithmetic::mul::lemma_mul_is_commutative(pow2(k64 as nat) as int, odd as int);
    }
    let r = RECIP32[idx];
    let prod = m * r;
    proof {
        lemma_u64_shr_is_div(prod, 32u64);
        assert(pow2(32) == 0x1_0000_0000) by { vstd::arithmetic::power2::lemma2_to64(); }
    }
    (prod >> 32u64) as usize
}

/// `n / bsize` when `n` is a known multiple of the block size `bsize`: the
/// power of two is shifted out and the odd part divided by multiplying with
/// its inverse modulo `usize::MAX + 1`, which is exact on multiples only.
pub fn exact_div_by_block_size(n: usize, bsize: usize) -> (q: usize)
    requires
        bsize > 0,
        is_block_odd(spec_odd_part(bsize as nat)),
        n % bsize == 0,
    ensures
        q == n / bsize,
{
    let b = bsize as u64;
    let k = b.trailing_zeros();
    let k64 = k as u64;
    proof {
        lemma_trailing_split(b, k64);
        if k64 >= usize::BITS {
            vstd::arithmetic::power2::lemma2_to64();
            vstd::arithmetic::power2::lemma2_to64_rest();
            if k64 > usize::BITS {
                lemma_pow2_strictly_increases(usize::BITS as nat, k64 as nat);
            }
            assert(b >= vstd::arithmetic::power2::pow2(k64 as nat)) by (nonlinear_arith)
                requires b == (b >> k64) * vstd::arithmetic::power2::pow2(k64 as nat), (b >> k64) >= 1;
            assert(false);
        }
    }
    let odd = (b >> k64) as usize;
    let ku = k as usize;
    let m = n >> ku;
    proof {
        let p = vstd::arithmetic::power2::pow2(ku as nat) as int;
        lemma_usize_shr_is_div(n, ku);
        lemma_pow2_pos(ku as nat);
        let qq = n as int / bsize as int;
        vstd::arithmetic::div_mod::lemma_fundamental_div_mod(n as int, bsize as int);
        assert(n == qq * (odd * p)) by (nonlinear_arith)
            requires n == bsize * qq + 0, bsize == odd * p;
        assert(n == (qq * odd) * p) by (nonlinear_arith)
            requires n == qq * (odd * p);
        vstd::arithmetic::div_mod::lemma_div_multiples_vanish(qq * odd, p);
        assert(m == qq * odd) by (nonlinear_arith)
            requires m == n as int / p, n == (qq * odd) * p, p > 0;
    }
    if odd == 1 {
        m
    } else {
        let inv = crate::page::odd_mod_inverse(odd);
        let r = m.wrapping_mul(inv);
        proof {
            let md = crate::page::modulus();
            let qq = n as int / bsize as int;
            assert(qq >= 0 && qq <= n) by (nonlinear_arith)
                requires m == qq * odd, odd >= 1, m <= n, qq * odd >= 0, odd > 0;
            assert(r == (m * inv) % md);
            assert(m * inv == qq * (odd * inv)) by (nonlinear_arith)
                requires m == qq * odd;
            vstd::arithmetic::div_mod::lemma_mul_mod_noop_right(qq, odd * inv, md);
            vstd::arithmetic::div_mod::lemma_small_mod(qq as nat, md as nat);
        }
        r
    }
}

} // verus!
