//! The performance-counter clock's arithmetic: ticks to nanoseconds, with a
//! single 64-bit multiply whenever the counter frequency divides 10^9.

use vstd::prelude::*;

verus! {

/// Nanoseconds per second.
pub const NS_PER_SEC: u64 = 1_000_000_000;

/// `10^9 / freq` when that quotient is exact, else 0 (a frequency of 0
/// counts as 1).
pub open spec fn spec_clock_scale(freq: int) -> int {
    let f = if freq > 1 { freq } else { 1 };
    if (NS_PER_SEC as int) % f == 0 { (NS_PER_SEC as int) / f } else { 0 }
}

/// The scale [`ticks_to_ns`] multiplies by for a counter of frequency
/// `freq`: `10^9 / freq` when exact, else 0.
pub fn clock_scale(freq: u64) -> (s: u64)
    ensures
        s == spec_clock_scale(freq as int),
{
    let f = if freq > 1 { freq } else { 1 };
    if NS_PER_SEC % f == 0 { NS_PER_SEC / f } else { 0 }
}

/// Ticks to nanoseconds ([`ticks_to_ns`]): `count * scale` modulo `2^64`
/// when a scale is given, else `count * 10^9 / max(freq, 1)` truncated to
/// 64 bits.
pub open spec fn spec_ticks_to_ns(count: int, freq: int, scale: int) -> int {
    if scale != 0 {
        (count * scale) % 0x1_0000_0000_0000_0000
    } else {
        ((count * NS_PER_SEC) / (if freq > 1 { freq } else { 1 })) % 0x1_0000_0000_0000_0000
    }
}

/// Ticks to nanoseconds. `scale` is `10^9 / freq` when that quotient is
/// exact, and 0 when it is not: then the product goes through 128 bits.
pub fn ticks_to_ns(count: u64, freq: u64, scale: u64) -> (ns: u64)
    ensures
        ns == spec_ticks_to_ns(count as int, freq as int, scale as int),
{
    if scale != 0 {
        count.wrapping_mul(scale)
    } else {
        let f = if freq > 1 { freq } else { 1 };
        assert(count as u128 * 1_000_000_000u128 <= u128::MAX) by (nonlinear_arith)
            requires count <= u64::MAX;
        let q = ((count as u128) * 1_000_000_000u128) / (f as u128);
        proof {
            assert(q <= count * 1_000_000_000) by (nonlinear_arith)
                requires q == (count * 1_000_000_000) / (f as int), f >= 1, count >= 0;
        }
        let r = q as u64;
        assert(r == q % 0x1_0000_0000_0000_0000u128) by (bit_vector)
            requires r == q as u64;
        r
    }
}

/// With the exact scale, the one multiply is the 128-bit division: the fast
/// path reproduces `count * 10^9 / freq` whenever the product fits.
pub proof fn lemma_scaled_ticks_are_exact(count: int, freq: int)
    requires
        0 <= count,
        freq >= 1,
        spec_clock_scale(freq) != 0,
        count * spec_clock_scale(freq) < 0x1_0000_0000_0000_0000,
    ensures
        spec_ticks_to_ns(count, freq, spec_clock_scale(freq)) == spec_ticks_to_ns(count, freq, 0),
        spec_ticks_to_ns(count, freq, 0) == count * NS_PER_SEC / freq,
{
    let s = spec_clock_scale(freq);
    vstd::arithmetic::div_mod::lemma_fundamental_div_mod(NS_PER_SEC as int, freq);
    assert(NS_PER_SEC == freq * s);
    assert(count * NS_PER_SEC == (count * s) * freq) by (nonlinear_arith)
        requires NS_PER_SEC == freq * s;
    vstd::arithmetic::div_mod::lemma_div_multiples_vanish(count * s, freq);
    assert((count * s) * freq == freq * (count * s)) by (nonlinear_arith);
    vstd::arithmetic::div_mod::lemma_small_mod((count * s) as nat, 0x1_0000_0000_0000_0000);
}

} // verus!
