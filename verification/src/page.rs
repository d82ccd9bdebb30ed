//! Page-level arithmetic: the plausibility test a decoded free-list link
//! must pass, and the modular inverse that turns an exact block offset into
//! a block index with one multiply.

use vstd::prelude::*;
use vstd::arithmetic::power2::{pow2, lemma_pow2_adds, lemma_pow2_pos, lemma2_to64, lemma2_to64_rest};
use crate::types::SEGMENT_SIZE;

verus! {

/// A decoded link `dec` is plausible for a block at `b_addr`: word aligned
/// and inside the same `SEGMENT_SIZE`-aligned segment, which for a power of
/// two segment size is `(dec ^ b_addr) < SEGMENT_SIZE`.
pub fn link_is_plausible(dec: usize, b_addr: usize) -> (ok: bool)
    ensures
        ok == (dec % 8 == 0 && dec / SEGMENT_SIZE == b_addr / SEGMENT_SIZE),
{
    let same = (dec ^ b_addr) < SEGMENT_SIZE;
    assert(same == (dec / 0x200_0000usize == b_addr / 0x200_0000usize)) by (bit_vector)
        requires same == ((dec ^ b_addr) < 0x200_0000usize);
    dec % 8 == 0 && same
}

/// `usize::MAX + 1`.
pub open spec fn modulus() -> int {
    usize::MAX as int + 1
}

/// One Newton step toward the inverse of `n`: if `n x` is 1 modulo `2^k`,
/// then `n x (2 - n x)` is 1 modulo `2^min(2k, W)`.
proof fn lemma_newton_step(n: int, x: int, k: nat, w: nat)
    requires
        modulus() == pow2(w),
        0 <= n < modulus(),
        0 <= x < modulus(),
        k <= w,
        (n * x - 1) % (pow2(k) as int) == 0,
    ensures
        ({
            let m = modulus();
            let p = (n * x) % m;
            let t = if 2 - p < 0 { 2 - p + m } else { 2 - p };
            let x2 = (x * t) % m;
            let j = if 2 * k < w { 2 * k } else { w };
            &&& 0 <= t < m
            &&& 0 <= x2 < m
            &&& (n * x2 - 1) % (pow2(j) as int) == 0
        }),
{
    let m = modulus();
    let pk = pow2(k) as int;
    lemma_pow2_pos(k);
    lemma_pow2_pos(w);
    let p = (n * x) % m;
    let r = (n * x) / m;
    vstd::arithmetic::div_mod::lemma_fundamental_div_mod(n * x, m);
    assert(m >= 2) by {
        lemma2_to64();
        assert(usize::MAX >= 0xffff_ffff);
    }
    let t = if 2 - p < 0 { 2 - p + m } else { 2 - p };
    let c: int = if 2 - p < 0 { 1 } else { 0 };
    assert(t == 2 - p + c * m);
    let x2 = (x * t) % m;
    let q = (x * t) / m;
    vstd::arithmetic::div_mod::lemma_fundamental_div_mod(x * t, m);
    let a = (n * x - 1) / pk;
    vstd::arithmetic::div_mod::lemma_fundamental_div_mod(n * x - 1, pk);
    assert(n * x - 1 == a * pk);
    // m = 2^k 2^(w-k)
    let wk = (w - k) as nat;
    lemma_pow2_adds(k, wk);
    let pwk = pow2(wk) as int;
    assert(m == pk * pwk);
    // p - 1 = 2^k b
    let b = a - r * pwk;
    assert(p - 1 == pk * b) by (nonlinear_arith)
        requires n * x == m * r + p, n * x - 1 == a * pk, m == pk * pwk, b == a - r * pwk;
    // n x2 - 1 = -(p-1)^2 + m K
    let kk = p * c + r * (2 - p) + r * c * m - n * q;
    let xt = x * t;
    let nx = n * x;
    assert(n * xt == n * (m * q) + n * x2) by (nonlinear_arith)
        requires xt == m * q + x2;
    assert(n * xt == nx * t) by (nonlinear_arith)
        requires xt == x * t, nx == n * x;
    assert(nx * t == (m * r) * t + p * t) by (nonlinear_arith)
        requires nx == m * r + p;
    assert(p * t == 2 * p - p * p + (p * c) * m) by (nonlinear_arith)
        requires t == 2 - p + c * m;
    assert((m * r) * t == m * (r * (2 - p)) + m * (r * c * m)) by (nonlinear_arith)
        requires t == 2 - p + c * m;
    assert(n * (m * q) == m * (n * q)) by (nonlinear_arith);
    assert((p * c) * m == m * (p * c)) by (nonlinear_arith);
    assert(m * kk == m * (p * c) + m * (r * (2 - p)) + m * (r * c * m) - m * (n * q)) by (nonlinear_arith)
        requires kk == p * c + r * (2 - p) + r * c * m - n * q;
    assert((p - 1) * (p - 1) == p * p - 2 * p + 1) by (nonlinear_arith);
    assert(n * x2 - 1 == -((p - 1) * (p - 1)) + m * kk);
    let j: nat = if 2 * k < w { 2 * k } else { w };
    let pj = pow2(j) as int;
    lemma_pow2_pos(j);
    // 2^(2k) = 2^j 2^(2k-j), m = 2^j 2^(w-j)
    lemma_pow2_adds(k, k);
    let e1 = (2 * k - j) as nat;
    let e2 = (w - j) as nat;
    lemma_pow2_adds(j, e1);
    lemma_pow2_adds(j, e2);
    let p1 = pow2(e1) as int;
    let p2 = pow2(e2) as int;
    assert(pk * pk == pj * p1);
    assert(m == pj * p2);
    let bb = b * b;
    let z = -(p1 * bb) + p2 * kk;
    assert((p - 1) * (p - 1) == (pk * pk) * bb) by (nonlinear_arith)
        requires p - 1 == pk * b, bb == b * b;
    assert((pk * pk) * bb == pj * (p1 * bb)) by (nonlinear_arith)
        requires pk * pk == pj * p1;
    assert(m * kk == pj * (p2 * kk)) by (nonlinear_arith)
        requires m == pj * p2;
    assert(pj * z == -(pj * (p1 * bb)) + pj * (p2 * kk)) by (nonlinear_arith)
        requires z == -(p1 * bb) + p2 * kk;
    assert(n * x2 - 1 == pj * z);
    vstd::arithmetic::div_mod::lemma_mod_multiples_basic(z, pj);
    assert((z * pj) % pj == 0);
    assert(pj * z == z * pj) by (nonlinear_arith);
}

/// For odd `n`, `n * n` is 1 modulo 8.
proof fn lemma_odd_square(n: int)
    requires
        n >= 0,
        n % 2 == 1,
    ensures
        (n * n - 1) % 8 == 0,
{
    let h = n / 2;
    vstd::arithmetic::div_mod::lemma_fundamental_div_mod(n, 2);
    vstd::arithmetic::div_mod::lemma_fundamental_div_mod(h, 2);
    let s = h / 2;
    let g = if h % 2 == 0 { s * (h + 1) } else { h * (s + 1) };
    if h % 2 == 0 {
        assert(h * (h + 1) == 2 * g) by (nonlinear_arith)
            requires h == 2 * s, g == s * (h + 1);
    } else {
        assert(h * (h + 1) == 2 * g) by (nonlinear_arith)
            requires h == 2 * s + 1, g == h * (s + 1);
    }
    assert(n * n - 1 == 4 * (h * (h + 1))) by (nonlinear_arith)
        requires n == 2 * h + 1;
    assert(n * n - 1 == g * 8);
    vstd::arithmetic::div_mod::lemma_mod_multiples_basic(g, 8);
}

/// The inverse of an odd `n` modulo `usize::MAX + 1`, by five Newton
/// steps from `x = n` (correct to 3 bits, doubling each step).
pub fn odd_mod_inverse(n: usize) -> (x: usize)
    requires
        n % 2 == 1,
    ensures
        (n * x) % modulus() == 1,
{
    let ghost w: nat = usize::BITS as nat;
    proof {
        lemma2_to64();
        lemma2_to64_rest();
        assert(modulus() == pow2(w));
        lemma_odd_square(n as int);
        assert(pow2(3) == 8);
    }
    let mut x = n;
    let mut i: usize = 0;
    let ghost mut k: nat = 3;
    while i < 5
        invariant
            i <= 5,
            n % 2 == 1,
            modulus() == pow2(w),
            w == usize::BITS,
            k <= w,
            k >= 3,
            k == w || k >= 3 * vstd::arithmetic::power2::pow2(i as nat),
            (n * x - 1) % (pow2(k) as int) == 0,
        decreases 5 - i,
    {
        let p = n.wrapping_mul(x);
        let t = 2usize.wrapping_sub(p);
        proof {
            lemma_newton_step(n as int, x as int, k, w);
            vstd::arithmetic::power2::lemma_pow2_unfold(i as nat + 1);
        }
        x = x.wrapping_mul(t);
        proof {
            k = if 2 * k < w { 2 * k } else { w };
        }
        i = i + 1;
    }
    proof {
        assert(vstd::arithmetic::power2::pow2(5) == 32);
        assert(k == w);
        vstd::arithmetic::div_mod::lemma_fundamental_div_mod(n * x - 1, modulus());
        let m = modulus();
        let a = (n * x - 1) / m;
        assert(n * x == a * m + 1);
        vstd::arithmetic::div_mod::lemma_fundamental_div_mod_converse(n * x, m, a, 1);
    }
    x
}


/// Where frees from threads other than the owner go.
#[derive(Debug, Clone, Copy, PartialEq, Eq, Structural)]
pub enum XFlag {
    /// Onto the page's own cross-thread list.
    Normal,
    /// Onto the owning heap's delayed list: the page is invisible to the
    /// owner's scans (parked full, or an unqueued single-block page).
    Delayed,
    /// The page has no owner (abandoned): onto its own list, drained by
    /// whoever adopts it.
    Never,
}

/// Bits of [`Page::flags`]; any set sends a free down the general route.
pub const HAS_ALIGNED: u8 = 1;
/// The page is an unqueued single-block span (large or huge).
pub const SINGLE_BLOCK: u8 = 2;
/// The page is parked in the full queue.
pub const IN_FULL: u8 = 4;
/// The page lives in a dedicated Huge segment.
pub const HUGE_SEGMENT: u8 = 8;

/// Blocks a page hands to its free list at one extension: a 4 KiB run, at
/// least one block.
pub open spec fn extend_step(block_size: int) -> int {
    if 4096int / block_size >= 1 { 4096int / block_size } else { 1 }
}

/// A page: a span of slices holding blocks of one size, and its three free
/// lists, each keeping its head at the end of its vector. `free` feeds
/// allocation; `local_free` takes the owner's frees; `xthread` the frees of
/// other threads. Blocks are named by index: block `i` is at
/// `area + i * block_size`.
pub struct Page {
    free: Vec<u32>,
    local_free: Vec<u32>,
    xthread: Vec<u32>,
    xflag: XFlag,
    used: u32,
    capacity: u32,
    reserved: u32,
    block_size: usize,
    area: usize,
    seg_base: usize,
    slot: usize,
    slice_count: u16,
    bin: u8,
    flags: u8,
    free_is_zero: bool,
    heap_tag: i32,
}

impl Page {
    /// The fast free list, head last.
    pub closed spec fn free_list(&self) -> Seq<u32> {
        self.free@
    }

    /// The owner's frees since the last collect, head last.
    pub closed spec fn local_list(&self) -> Seq<u32> {
        self.local_free@
    }

    /// Other threads' frees since the last collect, head last.
    pub closed spec fn xthread_list(&self) -> Seq<u32> {
        self.xthread@
    }

    /// Where other threads' frees go.
    pub closed spec fn xflag_of(&self) -> XFlag {
        self.xflag
    }

    /// Blocks allocated, as the owner counts them (other threads' frees are
    /// counted at the next collect).
    pub closed spec fn used_count(&self) -> int {
        self.used as int
    }

    /// Blocks handed to the free lists so far.
    pub closed spec fn cap(&self) -> int {
        self.capacity as int
    }

    /// Blocks the page can hold.
    pub closed spec fn rsv(&self) -> int {
        self.reserved as int
    }

    /// Block size in bytes.
    pub closed spec fn bsize(&self) -> int {
        self.block_size as int
    }

    /// Payload start.
    pub closed spec fn area_addr(&self) -> int {
        self.area as int
    }

    /// Base of the owning segment.
    pub closed spec fn segment_base(&self) -> int {
        self.seg_base as int
    }

    /// The page's first slice in its segment.
    pub closed spec fn slot_index(&self) -> int {
        self.slot as int
    }

    /// Slices the page spans.
    pub closed spec fn slices(&self) -> int {
        self.slice_count as int
    }

    /// Size bin the page is queued under.
    pub closed spec fn bin_of(&self) -> int {
        self.bin as int
    }

    /// The fast-path flag byte.
    pub closed spec fn flag_bits(&self) -> u8 {
        self.flags
    }

    /// The free list and the unextended tail are known zero.
    pub closed spec fn zero_free(&self) -> bool {
        self.free_is_zero
    }

    /// Tag of the owning heap.
    pub closed spec fn tag(&self) -> i32 {
        self.heap_tag
    }

    /// Every block on a free list, in list order: `free`, then `local_free`,
    /// then `xthread`.
    pub open spec fn listed(&self) -> Seq<u32> {
        self.free_list() + self.local_list() + self.xthread_list()
    }

    /// Block `i` is allocated: handed out and on no free list.
    pub open spec fn is_allocated(&self, i: int) -> bool {
        0 <= i < self.cap() && !self.listed().contains(i as u32)
    }

    /// Address of block `i`.
    pub open spec fn block_addr(&self, i: int) -> int {
        self.area_addr() + i * self.bsize()
    }

    /// The page's invariant: every listed block is one the page handed out
    /// and is listed once; `used` counts the blocks not on `free` or
    /// `local_free`; the whole reservation lies in the address space.
    pub open spec fn wf(&self) -> bool {
        &&& self.listed().no_duplicates()
        &&& forall|k: int| 0 <= k < self.listed().len() ==> #[trigger] self.listed()[k] < self.cap()
        &&& self.cap() <= self.rsv()
        &&& self.used_count() == self.cap() - self.free_list().len() - self.local_list().len()
        &&& self.bsize() >= 1
        &&& 0 <= self.area_addr()
        &&& 0 <= self.cap()
        &&& self.area_addr() + self.rsv() * self.bsize() <= usize::MAX
    }

    /// A page over a span at `area` holding up to `reserved` blocks of
    /// `block_size`: nothing handed out yet.
    pub fn new(seg_base: usize, slot: usize, area: usize, block_size: usize, reserved: u32, slice_count: u16,
        bin: u8, flags: u8, free_is_zero: bool, heap_tag: i32) -> (p: Page)
        requires
            block_size >= 1,
            area + reserved * block_size <= usize::MAX,
        ensures
            p.wf(),
            p.listed().len() == 0,
            p.free_list().len() == 0,
            p.cap() == 0,
            p.used_count() == 0,
            p.rsv() == reserved,
            p.bsize() == block_size,
            p.area_addr() == area,
            p.segment_base() == seg_base,
            p.slot_index() == slot,
            p.slices() == slice_count,
            p.bin_of() == bin,
            p.flag_bits() == flags,
            p.zero_free() == free_is_zero,
            p.tag() == heap_tag,
            p.xflag_of() == XFlag::Normal,
            p.local_list().len() == 0,
            p.xthread_list().len() == 0,
    {
        let p = Page {
            free: Vec::new(),
            local_free: Vec::new(),
            xthread: Vec::new(),
            xflag: XFlag::Normal,
            used: 0,
            capacity: 0,
            reserved,
            block_size,
            area,
            seg_base,
            slot,
            slice_count,
            bin,
            flags,
            free_is_zero,
            heap_tag,
        };
        proof {
            assert(p.listed() =~= Seq::<u32>::empty());
        }
        p
    }

    /// The permanently empty page: its free list is always empty, so a pop
    /// from it always falls through to the general path, as from an
    /// exhausted page.
    pub fn empty_sentinel() -> (p: Page)
        ensures
            p.wf(),
            p.free_list().len() == 0,
            p.local_list().len() == 0,
            p.xthread_list().len() == 0,
            p.listed().len() == 0,
            p.cap() == 0,
            p.rsv() == 0,
            p.used_count() == 0,
            p.bsize() == 8,
            p.slices() == 1,
            p.bin_of() == 0,
            p.flag_bits() == 0,
            !p.zero_free(),
            p.area_addr() == 0,
            p.segment_base() == 0,
            p.slot_index() == 0,
            p.tag() == 0,
            p.xflag_of() == XFlag::Normal,
    {
        Page::new(0, 0, 0, 8, 0, 1, 0, 0, false, 0)
    }

    /// Block size.
    pub fn block_size(&self) -> (b: usize)
        ensures
            b == self.bsize(),
    {
        self.block_size
    }

    /// Payload start.
    pub fn area(&self) -> (a: usize)
        ensures
            a == self.area_addr(),
    {
        self.area
    }

    /// The owning segment's base and the page's first slice: the page's
    /// identity.
    pub fn position(&self) -> (r: (usize, usize))
        ensures
            r.0 == self.segment_base(),
            r.1 == self.slot_index(),
    {
        (self.seg_base, self.slot)
    }

    /// The span's slice count fits its field.
    pub proof fn lemma_slices_bounded(&self)
        ensures
            0 <= self.slices() <= u16::MAX,
    {
    }

    /// The address the next pop hands out, when the fast list has a block.
    pub fn peek(&self) -> (r: Option<usize>)
        requires
            self.wf(),
        ensures
            self.free_list().len() == 0 ==> r is None,
            self.free_list().len() > 0 ==> r == Some(self.block_addr(self.free_list().last() as int) as usize),
    {
        let n = self.free.len();
        if n == 0 {
            return None;
        }
        let i = self.free[n - 1];
        proof {
            assert(self.listed()[n - 1] == i);
            assert(i < self.cap());
            assert(i * self.bsize() <= self.rsv() * self.bsize()) by (nonlinear_arith)
                requires i < self.cap(), self.cap() <= self.rsv(), self.bsize() >= 1;
        }
        Some(self.area + i as usize * self.block_size)
    }

    /// Slices the page's span holds.
    pub fn span_slices(&self) -> (n: u16)
        ensures
            n == self.slices(),
    {
        self.slice_count
    }

    /// The tag of the heap that made the page.
    pub fn heap_tag(&self) -> (t: i32)
        ensures
            t == self.tag(),
    {
        self.heap_tag
    }

    /// Blocks allocated, as the owner counts them.
    pub fn used(&self) -> (u: u32)
        ensures
            u == self.used_count(),
    {
        self.used
    }

    /// The flag byte.
    pub fn flags(&self) -> (f: u8)
        ensures
            f == self.flag_bits(),
    {
        self.flags
    }

    /// Set flag bits.
    pub fn set_flags(&mut self, f: u8)
        requires
            old(self).wf(),
        ensures
            final(self).wf(),
            final(self).flag_bits() == f,
            final(self).listed() == old(self).listed(),
            final(self).free_list() == old(self).free_list(),
            final(self).local_list() == old(self).local_list(),
            final(self).xthread_list() == old(self).xthread_list(),
            final(self).same_geometry(*old(self)),
            final(self).used_count() == old(self).used_count(),
            final(self).zero_free() == old(self).zero_free(),
            final(self).xflag_of() == old(self).xflag_of(),
    {
        self.flags = f;
    }

    /// `other` has this page's identity, geometry and extension state.
    pub open spec fn same_geometry(&self, other: Page) -> bool {
        &&& other.cap() == self.cap()
        &&& other.rsv() == self.rsv()
        &&& other.bsize() == self.bsize()
        &&& other.area_addr() == self.area_addr()
        &&& other.segment_base() == self.segment_base()
        &&& other.slot_index() == self.slot_index()
        &&& other.slices() == self.slices()
        &&& other.bin_of() == self.bin_of()
        &&& other.tag() == self.tag()
    }

    /// Pop the head of the fast free list: the block's address, or `None`
    /// when the list is dry (the caller takes the general path).
    pub fn pop(&mut self) -> (r: Option<usize>)
        requires
            old(self).wf(),
        ensures
            final(self).wf(),
            final(self).same_geometry(*old(self)),
            final(self).local_list() == old(self).local_list(),
            final(self).xthread_list() == old(self).xthread_list(),
            final(self).xflag_of() == old(self).xflag_of(),
            final(self).flag_bits() == old(self).flag_bits(),
            final(self).zero_free() == old(self).zero_free(),
            old(self).free_list().len() == 0 ==> r is None && *final(self) == *old(self),
            old(self).free_list().len() > 0 ==> {
                let i = old(self).free_list().last() as int;
                &&& r == Some(old(self).block_addr(i) as usize)
                &&& final(self).free_list() == old(self).free_list().drop_last()
                &&& final(self).used_count() == old(self).used_count() + 1
                &&& !old(self).is_allocated(i)
                &&& final(self).is_allocated(i)
                &&& forall|j: int| j != i ==> #[trigger] final(self).is_allocated(j) == old(self).is_allocated(j)
            },
    {
        let n = self.free.len();
        if n == 0 {
            return None;
        }
        let ghost pre = *self;
        let i = self.free.pop().unwrap();
        proof {
            assert(pre.used_count() + 1 <= pre.cap());
        }
        self.used = self.used + 1;
        proof {
            let l0 = pre.listed();
            let l1 = self.listed();
            assert(l0 == l1.insert(pre.free_list().len() - 1, i)) by {
                assert(l0 =~= l1.insert(pre.free_list().len() - 1, i));
            }
            assert(l0[pre.free_list().len() - 1] == i);
            assert(i < pre.cap());
            assert(l1.no_duplicates()) by {
                assert forall|a: int, b: int| 0 <= a < b < l1.len() implies l1[a] != l1[b] by {
                    let k = pre.free_list().len() - 1;
                    let a0 = if a < k { a } else { a + 1 };
                    let b0 = if b < k { b } else { b + 1 };
                    assert(l1[a] == l0[a0] && l1[b] == l0[b0]);
                }
            }
            assert forall|k: int| 0 <= k < l1.len() implies #[trigger] l1[k] < self.cap() by {
                let k0 = if k < pre.free_list().len() - 1 { k } else { k + 1 };
                assert(l1[k] == l0[k0]);
            }
            assert(!l1.contains(i)) by {
                if l1.contains(i) {
                    let k = choose|k: int| 0 <= k < l1.len() && l1[k] == i;
                    let k0 = if k < pre.free_list().len() - 1 { k } else { k + 1 };
                    assert(l1[k] == l0[k0]);
                    assert(l0[k0] == l0[pre.free_list().len() - 1]);
                }
            }
            assert(l0.contains(i));
            assert forall|j: int| j != i as int implies #[trigger] self.is_allocated(j) == pre.is_allocated(j) by {
                if l1.contains(j as u32) {
                    let k = choose|k: int| 0 <= k < l1.len() && l1[k] == j as u32;
                    let k0 = if k < pre.free_list().len() - 1 { k } else { k + 1 };
                    assert(l0[k0] == j as u32);
                }
                if l0.contains(j as u32) && 0 <= j < pre.cap() {
                    let k0 = choose|k0: int| 0 <= k0 < l0.len() && l0[k0] == j as u32;
                    assert(k0 != pre.free_list().len() - 1);
                    let k = if k0 < pre.free_list().len() - 1 { k0 } else { k0 - 1 };
                    assert(l1[k] == l0[k0]);
                }
            }
            assert(i * self.block_size <= self.reserved * self.block_size) by (nonlinear_arith)
                requires i < self.reserved, self.block_size >= 1;
        }
        Some(self.area + (i as usize) * self.block_size)
    }
}


/// Two adjacent runs of a list can trade places without changing which
/// values it holds or whether any repeats.
proof fn lemma_swap_runs(a: Seq<u32>, b: Seq<u32>, c: Seq<u32>)
    ensures
        (a + b + c).no_duplicates() == (a + c + b).no_duplicates(),
        forall|x: u32| #[trigger] (a + b + c).contains(x) == (a + c + b).contains(x),
        (a + b + c).len() == (a + c + b).len(),
{
    let l = a + b + c;
    let m = a + c + b;
    let na = a.len() as int;
    let nb = b.len() as int;
    let nc = c.len() as int;
    // Position `k` of `l` sits at `pos(k)` in `m`.
    let pos = |k: int| if k < na { k } else if k < na + nb { k + nc } else { k - nb };
    assert forall|k: int| 0 <= k < l.len() implies #[trigger] l[k] == m[pos(k)] && 0 <= pos(k) < m.len() by {}
    assert forall|k: int| 0 <= k < m.len() implies exists|j: int| 0 <= j < l.len() && pos(j) == k && #[trigger] m[k] == l[j] by {
        let j = if k < na { k } else if k < na + nc { k + nb } else { k - nc };
        assert(pos(j) == k);
        assert(l[j] == m[pos(j)]);
    }
    if l.no_duplicates() {
        assert forall|x: int, y: int| 0 <= x < y < m.len() implies m[x] != m[y] by {
            let jx = choose|j: int| 0 <= j < l.len() && pos(j) == x && #[trigger] m[x] == l[j];
            let jy = choose|j: int| 0 <= j < l.len() && pos(j) == y && #[trigger] m[y] == l[j];
            assert(jx != jy);
        }
    }
    if m.no_duplicates() {
        assert forall|x: int, y: int| 0 <= x < y < l.len() implies l[x] != l[y] by {
            assert(l[x] == m[pos(x)] && l[y] == m[pos(y)]);
            assert(pos(x) != pos(y));
        }
    }
    assert forall|x: u32| #[trigger] l.contains(x) == m.contains(x) by {
        if l.contains(x) {
            let k = choose|k: int| 0 <= k < l.len() && l[k] == x;
            assert(m[pos(k)] == x);
        }
        if m.contains(x) {
            let k = choose|k: int| 0 <= k < m.len() && m[k] == x;
            let j = choose|j: int| 0 <= j < l.len() && pos(j) == k && #[trigger] m[k] == l[j];
        }
    }
}

/// Inserting a value a list lacks keeps it free of repeats.
proof fn lemma_insert_fresh(l: Seq<u32>, p: int, v: u32)
    requires
        l.no_duplicates(),
        !l.contains(v),
        0 <= p <= l.len(),
    ensures
        l.insert(p, v).no_duplicates(),
        forall|x: u32| #[trigger] l.insert(p, v).contains(x) == (l.contains(x) || x == v),
{
    let m = l.insert(p, v);
    assert forall|a: int, b: int| 0 <= a < b < m.len() implies m[a] != m[b] by {
        if a == p {
            assert(m[b] == l[b - 1]);
        } else if b == p {
            assert(m[a] == l[a]);
        } else {
            let a0 = if a < p { a } else { a - 1 };
            let b0 = if b < p { b } else { b - 1 };
            assert(m[a] == l[a0] && m[b] == l[b0]);
        }
    }
    assert forall|x: u32| #[trigger] m.contains(x) == (l.contains(x) || x == v) by {
        if m.contains(x) {
            let k = choose|k: int| 0 <= k < m.len() && m[k] == x;
            if k != p {
                let k0 = if k < p { k } else { k - 1 };
                assert(l[k0] == x);
            }
        }
        if l.contains(x) {
            let k0 = choose|k0: int| 0 <= k0 < l.len() && l[k0] == x;
            let k = if k0 < p { k0 } else { k0 + 1 };
            assert(m[k] == x);
        }
        if x == v {
            assert(m[p] == v);
        }
    }
}

impl Page {
    /// Push block `i`, which is allocated, on the owner's free list: the
    /// owner's free. The new `used` count; 0 means the page just emptied.
    pub fn push_local(&mut self, i: u32) -> (u: u32)
        requires
            old(self).wf(),
            old(self).is_allocated(i as int),
        ensures
            final(self).wf(),
            final(self).same_geometry(*old(self)),
            final(self).free_list() == old(self).free_list(),
            final(self).local_list() == old(self).local_list().push(i),
            final(self).xthread_list() == old(self).xthread_list(),
            final(self).xflag_of() == old(self).xflag_of(),
            final(self).flag_bits() == old(self).flag_bits(),
            final(self).zero_free() == old(self).zero_free(),
            u == final(self).used_count(),
            final(self).used_count() == old(self).used_count() - 1,
            !final(self).is_allocated(i as int),
            forall|j: int| j != i ==> #[trigger] final(self).is_allocated(j) == old(self).is_allocated(j),
    {
        let ghost pre = *self;
        proof {
            // `i` is allocated, so it is on no list, so `used` counts it.
            assert(pre.listed().len() == pre.free_list().len() + pre.local_list().len() + pre.xthread_list().len());
            lemma_used_covers(pre, i as int);
        }
        self.local_free.push(i);
        self.used = self.used - 1;
        proof {
            let p: int = (pre.free_list().len() + pre.local_list().len()) as int;
            assert(self.listed() =~= pre.listed().insert(p, i));
            lemma_insert_fresh(pre.listed(), p, i);
            assert forall|k: int| 0 <= k < self.listed().len() implies #[trigger] self.listed()[k] < self.cap() by {
                assert(self.listed().contains(self.listed()[k]));
                if self.listed()[k] != i {
                    assert(pre.listed().contains(self.listed()[k]));
                    let k0 = choose|k0: int| 0 <= k0 < pre.listed().len() && pre.listed()[k0] == self.listed()[k];
                }
            }
            assert forall|j: int| j != i as int implies #[trigger] self.is_allocated(j) == pre.is_allocated(j) by {
                if 0 <= j < self.cap() {
                    assert((j as u32) != i);
                }
            }
        }
        self.used
    }

    /// Another thread frees block `i`, which is allocated. When the page
    /// routes such frees to its owner's delayed list, nothing changes here
    /// and `false` tells the caller to push it there; otherwise it goes on
    /// the page's cross-thread list, counted by the owner at its next
    /// collect.
    pub fn remote_free(&mut self, i: u32) -> (on_page: bool)
        requires
            old(self).wf(),
            old(self).is_allocated(i as int),
        ensures
            final(self).wf(),
            on_page == (old(self).xflag_of() != XFlag::Delayed),
            !on_page ==> *final(self) == *old(self),
            on_page ==> {
                &&& final(self).same_geometry(*old(self))
                &&& final(self).free_list() == old(self).free_list()
                &&& final(self).local_list() == old(self).local_list()
                &&& final(self).xthread_list() == old(self).xthread_list().push(i)
                &&& final(self).used_count() == old(self).used_count()
                &&& final(self).xflag_of() == old(self).xflag_of()
                &&& final(self).flag_bits() == old(self).flag_bits()
                &&& final(self).zero_free() == old(self).zero_free()
                &&& !final(self).is_allocated(i as int)
                &&& forall|j: int| j != i ==> #[trigger] final(self).is_allocated(j) == old(self).is_allocated(j)
            },
    {
        if self.xflag == XFlag::Delayed {
            return false;
        }
        let ghost pre = *self;
        self.xthread.push(i);
        proof {
            let p: int = pre.listed().len() as int;
            assert(self.listed() =~= pre.listed().insert(p, i));
            lemma_insert_fresh(pre.listed(), p, i);
            assert forall|k: int| 0 <= k < self.listed().len() implies #[trigger] self.listed()[k] < self.cap() by {
                assert(self.listed().contains(self.listed()[k]));
                if self.listed()[k] != i {
                    assert(pre.listed().contains(self.listed()[k]));
                    let k0 = choose|k0: int| 0 <= k0 < pre.listed().len() && pre.listed()[k0] == self.listed()[k];
                }
            }
            assert forall|j: int| j != i as int implies #[trigger] self.is_allocated(j) == pre.is_allocated(j) by {
                if 0 <= j < self.cap() {
                    assert((j as u32) != i);
                }
            }
        }
        true
    }

    /// Set where other threads' frees go.
    pub fn set_xflag(&mut self, f: XFlag)
        requires
            old(self).wf(),
        ensures
            final(self).wf(),
            final(self).xflag_of() == f,
            final(self).same_geometry(*old(self)),
            final(self).free_list() == old(self).free_list(),
            final(self).local_list() == old(self).local_list(),
            final(self).xthread_list() == old(self).xthread_list(),
            final(self).used_count() == old(self).used_count(),
            final(self).flag_bits() == old(self).flag_bits(),
            final(self).zero_free() == old(self).zero_free(),
            forall|j: int| #[trigger] final(self).is_allocated(j) == old(self).is_allocated(j),
    {
        self.xflag = f;
    }

    /// Collect: when the fast list is dry, the owner's frees become it; then
    /// other threads' frees are taken in front of it and counted against
    /// `used`. Which blocks are allocated does not change; recycled blocks
    /// are not known zero.
    pub fn collect(&mut self)
        requires
            old(self).wf(),
        ensures
            final(self).wf(),
            final(self).same_geometry(*old(self)),
            final(self).xflag_of() == old(self).xflag_of(),
            final(self).flag_bits() == old(self).flag_bits(),
            final(self).xthread_list().len() == 0,
            ({
                let moved = old(self).free_list().len() == 0;
                let f1 = if moved { old(self).local_list() } else { old(self).free_list() };
                &&& final(self).free_list() == f1 + old(self).xthread_list()
                &&& final(self).local_list() == if moved { Seq::<u32>::empty() } else { old(self).local_list() }
                &&& final(self).used_count() == old(self).used_count() - old(self).xthread_list().len()
                &&& final(self).zero_free() == (old(self).zero_free()
                    && !(moved && old(self).local_list().len() > 0) && old(self).xthread_list().len() == 0)
            }),
            forall|j: int| #[trigger] final(self).is_allocated(j) == old(self).is_allocated(j),
    {
        let ghost pre = *self;
        proof {
            lemma_xthread_counted(pre);
        }
        if self.free.len() == 0 {
            let mut local: Vec<u32> = Vec::new();
            core::mem::swap(&mut local, &mut self.local_free);
            self.free = local;
            if self.free.len() > 0 {
                self.free_is_zero = false;
            }
            proof {
                assert(self.listed() =~= pre.listed());
            }
        }
        let ghost mid = *self;
        proof {
            assert(mid.listed() =~= pre.listed());
        }
        if self.xthread.len() > 0 {
            let n = self.xthread.len();
            let mut stolen: Vec<u32> = Vec::new();
            core::mem::swap(&mut stolen, &mut self.xthread);
            let mut k: usize = 0;
            let ghost f0 = self.free@;
            while k < n
                invariant
                    k <= n,
                    n == stolen@.len(),
                    self.free@ == f0 + stolen@.take(k as int),
                    self.xthread@.len() == 0,
                    self.local_free@ == mid.local_free@,
                    self.used == mid.used,
                    self.capacity == mid.capacity,
                    self.reserved == mid.reserved,
                    self.block_size == mid.block_size,
                    self.area == mid.area,
                    self.seg_base == mid.seg_base,
                    self.slot == mid.slot,
                    self.slice_count == mid.slice_count,
                    self.bin == mid.bin,
                    self.flags == mid.flags,
                    self.free_is_zero == mid.free_is_zero,
                    self.heap_tag == mid.heap_tag,
                    self.xflag == mid.xflag,
                decreases n - k,
            {
                self.free.push(stolen[k]);
                k = k + 1;
                proof {
                    assert(self.free@ =~= f0 + stolen@.take(k as int));
                }
            }
            proof {
                assert(stolen@.take(n as int) =~= stolen@);
                assert(mid.used_count() >= n) by {
                    lemma_xthread_counted(mid);
                }
            }
            self.used = self.used - n as u32;
            self.free_is_zero = false;
            proof {
                lemma_swap_runs(mid.free_list(), mid.local_list(), mid.xthread_list());
                assert(self.listed() =~= mid.free_list() + mid.xthread_list() + mid.local_list());
                assert(mid.listed() == mid.free_list() + mid.local_list() + mid.xthread_list());
                assert forall|x: u32| #[trigger] self.listed().contains(x) == mid.listed().contains(x) by {}
            }
        }
        proof {
            assert(self.listed().no_duplicates());
            assert forall|x: u32| #[trigger] self.listed().contains(x) == pre.listed().contains(x) by {}
            assert forall|k: int| 0 <= k < self.listed().len() implies #[trigger] self.listed()[k] < self.cap() by {
                assert(self.listed().contains(self.listed()[k]));
                assert(pre.listed().contains(self.listed()[k]));
                let k0 = choose|k0: int| 0 <= k0 < pre.listed().len() && pre.listed()[k0] == self.listed()[k];
            }
            assert forall|j: int| #[trigger] self.is_allocated(j) == pre.is_allocated(j) by {
                if 0 <= j < self.cap() {
                    assert(self.listed().contains(j as u32) == pre.listed().contains(j as u32));
                }
            }
        }
    }

    /// Hand the next run of never-used blocks to the fast list, lowest
    /// address first: `extend_step(block_size)` blocks, or what is left.
    /// Nothing when every block is handed out already.
    pub fn extend(&mut self)
        requires
            old(self).wf(),
        ensures
            final(self).wf(),
            final(self).rsv() == old(self).rsv(),
            final(self).bsize() == old(self).bsize(),
            final(self).area_addr() == old(self).area_addr(),
            final(self).segment_base() == old(self).segment_base(),
            final(self).slot_index() == old(self).slot_index(),
            final(self).slices() == old(self).slices(),
            final(self).bin_of() == old(self).bin_of(),
            final(self).tag() == old(self).tag(),
            final(self).local_list() == old(self).local_list(),
            final(self).xthread_list() == old(self).xthread_list(),
            final(self).used_count() == old(self).used_count(),
            final(self).xflag_of() == old(self).xflag_of(),
            final(self).flag_bits() == old(self).flag_bits(),
            final(self).zero_free() == old(self).zero_free(),
            ({
                let take = if old(self).cap() >= old(self).rsv() { 0 } else if extend_step(old(self).bsize())
                    <= old(self).rsv() - old(self).cap() { extend_step(old(self).bsize()) } else { old(self).rsv() - old(self).cap() };
                &&& final(self).cap() == old(self).cap() + take
                &&& final(self).free_list() == old(self).free_list()
                    + Seq::new(take as nat, |k: int| (old(self).cap() + take - 1 - k) as u32)
            }),
            forall|j: int| #[trigger] final(self).is_allocated(j) == old(self).is_allocated(j),
    {
        let bsize = self.block_size;
        let capacity = self.capacity;
        let reserved = self.reserved;
        if capacity >= reserved {
            proof {
                assert(self.free@ =~= self.free@ + Seq::new(0, |k: int| (capacity + 0 - 1 - k) as u32));
            }
            return;
        }
        let step: usize = if 4096 / bsize >= 1 { 4096 / bsize } else { 1 };
        let room = (reserved - capacity) as usize;
        let take: usize = if step <= room { step } else { room };
        let ghost pre = *self;
        let mut i = take;
        while i > 0
            invariant
                i <= take,
                take <= room,
                room == reserved - capacity,
                capacity < reserved,
                self.free@ == pre.free@ + Seq::new((take - i) as nat, |k: int| (capacity + take - 1 - k) as u32),
                self.local_free@ == pre.local_free@,
                self.xthread@ == pre.xthread@,
                self.used == pre.used,
                self.capacity == pre.capacity,
                self.reserved == pre.reserved,
                self.block_size == pre.block_size,
                self.area == pre.area,
                self.seg_base == pre.seg_base,
                self.slot == pre.slot,
                self.slice_count == pre.slice_count,
                self.bin == pre.bin,
                self.flags == pre.flags,
                self.free_is_zero == pre.free_is_zero,
                self.heap_tag == pre.heap_tag,
                self.xflag == pre.xflag,
            decreases i,
        {
            i = i - 1;
            self.free.push((capacity as usize + i) as u32);
            proof {
                assert(self.free@ =~= pre.free@ + Seq::new((take - i) as nat, |k: int| (capacity + take - 1 - k) as u32));
            }
        }
        self.capacity = capacity + take as u32;
        proof {
            let fresh = Seq::new(take as nat, |k: int| (capacity + take - 1 - k) as u32);
            let l0 = pre.listed();
            let l1 = self.listed();
            assert(l1 =~= (pre.free_list() + fresh) + pre.local_list() + pre.xthread_list());
            lemma_swap_runs(pre.free_list(), fresh, pre.local_list() + pre.xthread_list());
            assert((pre.free_list() + fresh) + (pre.local_list() + pre.xthread_list()) =~= l1);
            assert(pre.free_list() + (pre.local_list() + pre.xthread_list()) + fresh =~= l0 + fresh);
            assert((l0 + fresh).no_duplicates()) by {
                assert forall|a: int, b: int| 0 <= a < b < (l0 + fresh).len() implies (l0 + fresh)[a] != (l0 + fresh)[b] by {
                    if b >= l0.len() && a < l0.len() {
                        assert(l0[a] < capacity);
                    }
                }
            }
            assert(pre.free_list() + fresh + (pre.local_list() + pre.xthread_list()) =~= pre.free_list() + fresh + pre.local_list() + pre.xthread_list());
            assert(pre.free_list() + (pre.local_list() + pre.xthread_list()) + fresh =~= pre.free_list() + (pre.local_list() + pre.xthread_list()) + fresh);
            assert forall|k: int| 0 <= k < l1.len() implies #[trigger] l1[k] < self.cap() by {
                assert(l1.contains(l1[k]));
                assert((l0 + fresh).contains(l1[k]));
                let k0 = choose|k0: int| 0 <= k0 < (l0 + fresh).len() && (l0 + fresh)[k0] == l1[k];
            }
            let a = pre.free_list();
            let c = pre.local_list() + pre.xthread_list();
            assert(l1 == a + fresh + c);
            assert(a + c + fresh == l0 + fresh);
            assert forall|x: u32| #[trigger] l1.contains(x) == (l0 + fresh).contains(x) by {
                assert((a + fresh + c).contains(x) == (a + c + fresh).contains(x));
            }
            assert(self.cap() == capacity + take);
            assert forall|j: int| #[trigger] self.is_allocated(j) == pre.is_allocated(j) by {
                if capacity <= j < capacity + take {
                    let k = capacity + take - 1 - j;
                    assert(fresh[k] == j as u32);
                    assert((l0 + fresh)[l0.len() + k] == j as u32);
                    assert((l0 + fresh).contains(j as u32));
                    assert(l1.contains(j as u32));
                    assert(!self.is_allocated(j));
                    assert(!pre.is_allocated(j));
                } else if 0 <= j < capacity {
                    assert(!fresh.contains(j as u32)) by {
                        if fresh.contains(j as u32) {
                            let k = choose|k: int| 0 <= k < fresh.len() && fresh[k] == j as u32;
                            assert(fresh[k] == (capacity + take - 1 - k) as u32);
                            assert(capacity + take - 1 - k >= capacity);
                            assert(false);
                        }
                    }
                    assert((l0 + fresh).contains(j as u32) == l0.contains(j as u32)) by {
                        if (l0 + fresh).contains(j as u32) {
                            let k0 = choose|k0: int| 0 <= k0 < (l0 + fresh).len() && (l0 + fresh)[k0] == j as u32;
                            if k0 >= l0.len() {
                                assert(fresh[k0 - l0.len()] == j as u32);
                                assert(fresh.contains(j as u32));
                            }
                        }
                        if l0.contains(j as u32) {
                            let k0 = choose|k0: int| 0 <= k0 < l0.len() && l0[k0] == j as u32;
                            assert((l0 + fresh)[k0] == j as u32);
                        }
                    }
                    assert(l1.contains(j as u32) == l0.contains(j as u32));
                } else {
                    assert(!self.is_allocated(j));
                    assert(!pre.is_allocated(j));
                }
            }
            assert(take <= 4096 || take == 1);
        }
    }

    /// Every block is free, as the owner counts them.
    pub fn all_free(&self) -> (b: bool)
        ensures
            b == (self.used_count() == 0),
    {
        self.used == 0
    }
}

/// An allocated block is counted in `used`.
/// A page's counters fit 32 bits.
pub proof fn lemma_counts_fit(p: Page)
    ensures
        0 <= p.used_count() <= u32::MAX,
        0 <= p.cap() <= u32::MAX,
        0 <= p.bsize() <= usize::MAX,
        0 <= p.area_addr() <= usize::MAX,
{
}

pub proof fn lemma_used_covers(p: Page, i: int)
    requires
        p.wf(),
        p.is_allocated(i),
    ensures
        p.used_count() >= 1,
{
    lemma_xthread_counted(p);
    // The blocks below `cap` not on `free` or `local_free` number `used`;
    // `i` is one of them, and the cross-thread ones are others.
    let fl = p.free_list() + p.local_list();
    assert(p.listed() == fl + p.xthread_list());
    let all = vstd::set_lib::set_int_range(0, p.cap());
    vstd::set_lib::lemma_int_range(0, p.cap());
    let listed_set = p.listed().to_set().map(|x: u32| x as int);
    p.listed().unique_seq_to_set();
    assert(p.listed().to_set().len() == p.listed().len());
    let ls = Set::new(|j: int| 0 <= j < p.cap() && p.listed().contains(j as u32));
    assert(ls.subset_of(all));
    vstd::set_lib::lemma_len_subset(ls, all);
    assert(!ls.contains(i));
    let ls2 = ls.insert(i);
    assert(ls2.subset_of(all));
    vstd::set_lib::lemma_len_subset(ls2, all);
    // ls has as many elements as the list.
    lemma_listed_count(p);
    assert(ls.len() == p.listed().len());
}

/// The blocks on the lists, as a set of indices, number the list's length.
proof fn lemma_listed_count(p: Page)
    requires
        p.wf(),
    ensures
        Set::new(|j: int| 0 <= j < p.cap() && p.listed().contains(j as u32)).len() == p.listed().len(),
        Set::new(|j: int| 0 <= j < p.cap() && p.listed().contains(j as u32)).finite(),
{
    let ls = Set::new(|j: int| 0 <= j < p.cap() && p.listed().contains(j as u32));
    let s = p.listed().to_set();
    p.listed().unique_seq_to_set();
    let f = |x: u32| x as int;
    assert(ls =~= s.map(f)) by {
        assert forall|j: int| ls.contains(j) implies s.map(f).contains(j) by {
            assert(s.contains(j as u32));
            assert(f(j as u32) == j);
        }
        assert forall|j: int| s.map(f).contains(j) implies ls.contains(j) by {
            let x = choose|x: u32| s.contains(x) && f(x) == j;
            let k = choose|k: int| 0 <= k < p.listed().len() && p.listed()[k] == x;
            assert(p.listed()[k] < p.cap());
        }
    }
    assert forall|a: u32, b: u32| #[trigger] f(a) == #[trigger] f(b) implies a == b by {}
    vstd::set_lib::lemma_map_size(s, s.map(f), f);
}

/// Frees from other threads are among the blocks `used` counts.
proof fn lemma_xthread_counted(p: Page)
    requires
        p.wf(),
    ensures
        p.used_count() >= p.xthread_list().len(),
{
    lemma_listed_count(p);
    let ls = Set::new(|j: int| 0 <= j < p.cap() && p.listed().contains(j as u32));
    let all = vstd::set_lib::set_int_range(0, p.cap());
    vstd::set_lib::lemma_int_range(0, p.cap());
    assert(ls.subset_of(all));
    vstd::set_lib::lemma_len_subset(ls, all);
}


impl Page {
    /// The block holding `addr`, a pointer into one of the blocks handed out:
    /// its index, the block start rounding an interior pointer down.
    pub fn block_index(&self, addr: usize) -> (i: u32)
        requires
            self.wf(),
            self.area_addr() <= addr < self.area_addr() + self.cap() * self.bsize(),
        ensures
            i == (addr - self.area_addr()) / self.bsize(),
            i < self.cap(),
            self.block_addr(i as int) <= addr < self.block_addr(i as int) + self.bsize(),
    {
        let off = addr - self.area;
        let q = off / self.block_size;
        proof {
            vstd::arithmetic::div_mod::lemma_fundamental_div_mod(off as int, self.block_size as int);
            assert(q < self.capacity) by (nonlinear_arith)
                requires off < self.capacity * self.block_size, off == self.block_size * q + (off as int) % (self.block_size as int),
                    0 <= (off as int) % (self.block_size as int), self.block_size >= 1;
            assert(q * self.block_size <= off < q * self.block_size + self.block_size) by (nonlinear_arith)
                requires off == self.block_size * q + (off as int) % (self.block_size as int),
                    0 <= (off as int) % (self.block_size as int) < self.block_size;
        }
        q as u32
    }

    /// Whether block `i` is handed out and on no free list.
    pub fn block_is_allocated(&self, i: u32) -> (b: bool)
        ensures
            b == self.is_allocated(i as int),
    {
        i < self.capacity && !self.is_listed(i)
    }

    /// Whether block `i` is on a free list.
    fn is_listed(&self, i: u32) -> (b: bool)
        ensures
            b == self.listed().contains(i),
    {
        let mut k: usize = 0;
        while k < self.free.len()
            invariant
                k <= self.free@.len(),
                forall|j: int| 0 <= j < k ==> self.free@[j] != i,
            decreases self.free@.len() - k,
        {
            if self.free[k] == i {
                proof {
                    assert(self.listed()[k as int] == i);
                }
                return true;
            }
            k = k + 1;
        }
        let mut k: usize = 0;
        while k < self.local_free.len()
            invariant
                k <= self.local_free@.len(),
                forall|j: int| 0 <= j < k ==> self.local_free@[j] != i,
            decreases self.local_free@.len() - k,
        {
            if self.local_free[k] == i {
                proof {
                    assert(self.listed()[self.free@.len() + k] == i);
                }
                return true;
            }
            k = k + 1;
        }
        let mut k: usize = 0;
        while k < self.xthread.len()
            invariant
                k <= self.xthread@.len(),
                forall|j: int| 0 <= j < k ==> self.xthread@[j] != i,
            decreases self.xthread@.len() - k,
        {
            if self.xthread[k] == i {
                proof {
                    assert(self.listed()[self.free@.len() + self.local_free@.len() + k] == i);
                }
                return true;
            }
            k = k + 1;
        }
        proof {
            if self.listed().contains(i) {
                let j = choose|j: int| 0 <= j < self.listed().len() && self.listed()[j] == i;
                if j < self.free@.len() {
                    assert(self.free@[j] == i);
                } else if j < self.free@.len() + self.local_free@.len() {
                    assert(self.local_free@[j - self.free@.len()] == i);
                } else {
                    assert(self.xthread@[j - self.free@.len() - self.local_free@.len()] == i);
                }
            }
        }
        false
    }

    /// The addresses of the allocated blocks, lowest first: what a visit of
    /// the page's blocks walks.
    pub fn live_blocks(&self) -> (v: Vec<usize>)
        requires
            self.wf(),
        ensures
            forall|k: int| 0 <= k < v@.len() ==> self.area_addr() <= #[trigger] v@[k]
                && (v@[k] - self.area_addr()) % self.bsize() == 0
                && self.is_allocated((v@[k] - self.area_addr()) / self.bsize()),
            forall|i: int| #[trigger] self.is_allocated(i) ==> v@.contains(self.block_addr(i) as usize),
            forall|a: int, b: int| 0 <= a < b < v@.len() ==> v@[a] < v@[b],
    {
        let mut v: Vec<usize> = Vec::new();
        let mut i: u32 = 0;
        while i < self.capacity
            invariant
                self.wf(),
                i <= self.capacity,
                forall|k: int| 0 <= k < v@.len() ==> self.area_addr() <= #[trigger] v@[k]
                    && (v@[k] - self.area_addr()) % self.bsize() == 0
                    && self.is_allocated((v@[k] - self.area_addr()) / self.bsize()),
                forall|j: int| #[trigger] self.is_allocated(j) && j < i ==> v@.contains(self.block_addr(j) as usize),
                forall|a: int, b: int| 0 <= a < b < v@.len() ==> v@[a] < v@[b],
                forall|k: int| 0 <= k < v@.len() ==> v@[k] < self.block_addr(i as int),
            decreases self.capacity - i,
        {
            proof {
                assert(i * self.block_size + self.block_size <= self.reserved * self.block_size) by (nonlinear_arith)
                    requires i < self.reserved, self.block_size >= 1;
            }
            let a = self.area + (i as usize) * self.block_size;
            if !self.is_listed(i) {
                let ghost v0 = v@;
                v.push(a);
                proof {
                    assert(self.is_allocated(i as int));
                    assert forall|j: int| #[trigger] self.is_allocated(j) && j < i + 1 implies v@.contains(self.block_addr(j) as usize) by {
                        if j < i {
                            assert(v0.contains(self.block_addr(j) as usize));
                            let k = choose|k: int| 0 <= k < v0.len() && v0[k] == self.block_addr(j) as usize;
                            assert(v@[k] == v0[k]);
                        } else {
                            assert(v@[v0.len() as int] == a);
                        }
                    }
                    assert forall|k: int| 0 <= k < v@.len() implies self.area_addr() <= #[trigger] v@[k]
                        && (v@[k] - self.area_addr()) % self.bsize() == 0
                        && self.is_allocated((v@[k] - self.area_addr()) / self.bsize()) by {
                        if k < v0.len() {
                            assert(v@[k] == v0[k]);
                        } else {
                            assert(v@[k] == a);
                            vstd::arithmetic::div_mod::lemma_mod_multiples_basic(i as int, self.block_size as int);
                            vstd::arithmetic::div_mod::lemma_div_multiples_vanish(i as int, self.block_size as int);
                            assert((i as int) * self.block_size == self.block_size * (i as int)) by (nonlinear_arith);
                        }
                    }
                }
            }
            proof {
                assert(self.block_addr(i as int) < self.block_addr(i + 1)) by (nonlinear_arith)
                    requires self.block_size >= 1;
            }
            i = i + 1;
        }
        v
    }
}


impl Page {
    /// Blocks on the fast free list.
    pub fn free_count(&self) -> (n: usize)
        ensures
            n == self.free_list().len(),
    {
        self.free.len()
    }

    /// Blocks handed to the free lists so far.
    pub fn capacity(&self) -> (c: u32)
        ensures
            c == self.cap(),
    {
        self.capacity
    }

    /// Blocks the page can hold.
    pub fn reserved(&self) -> (r: u32)
        ensures
            r == self.rsv(),
    {
        self.reserved
    }

    /// The free list and the unextended tail are known zero.
    pub fn free_is_zero(&self) -> (z: bool)
        ensures
            z == self.zero_free(),
    {
        self.free_is_zero
    }

    /// The bin the page is queued under.
    pub fn bin(&self) -> (b: u8)
        ensures
            b == self.bin_of(),
    {
        self.bin
    }

    /// Where other threads' frees go.
    pub fn xflag(&self) -> (f: XFlag)
        ensures
            f == self.xflag_of(),
    {
        self.xflag
    }
}

} // verus!
