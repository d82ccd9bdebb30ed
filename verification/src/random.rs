//! A ChaCha8 stream (RFC 8439's ChaCha with four double rounds): per-heap
//! streams for free-list keys, guarded-object sampling and page-start
//! randomization. Self-contained, since an allocator cannot depend on code
//! that allocates.

use vstd::prelude::*;

verus! {

/// `x` rotated left by `n` bits (`0 < n < 32`).
pub open spec fn rotl(x: u32, n: u32) -> u32 {
    (x << n) | (x >> ((32 - n) as u32))
}

/// The ChaCha quarter round on words `a`, `b`, `c`, `d` of `x`.
pub open spec fn quarter(x: Seq<u32>, a: int, b: int, c: int, d: int) -> Seq<u32> {
    let a1 = x[a].wrapping_add(x[b]);
    let d1 = rotl(x[d] ^ a1, 16);
    let c1 = x[c].wrapping_add(d1);
    let b1 = rotl(x[b] ^ c1, 12);
    let a2 = a1.wrapping_add(b1);
    let d2 = rotl(d1 ^ a2, 8);
    let c2 = c1.wrapping_add(d2);
    let b2 = rotl(b1 ^ c2, 7);
    x.update(a, a2).update(b, b2).update(c, c2).update(d, d2)
}

/// One double round: the four column rounds, then the four diagonal ones.
pub open spec fn double_round(x: Seq<u32>) -> Seq<u32> {
    let x = quarter(x, 0, 4, 8, 12);
    let x = quarter(x, 1, 5, 9, 13);
    let x = quarter(x, 2, 6, 10, 14);
    let x = quarter(x, 3, 7, 11, 15);
    let x = quarter(x, 0, 5, 10, 15);
    let x = quarter(x, 1, 6, 11, 12);
    let x = quarter(x, 2, 7, 8, 13);
    quarter(x, 3, 4, 9, 14)
}

/// `k` double rounds.
pub open spec fn double_rounds(x: Seq<u32>, k: nat) -> Seq<u32>
    decreases k,
{
    if k == 0 {
        x
    } else {
        double_round(double_rounds(x, (k - 1) as nat))
    }
}

/// The ChaCha8 block of `state`: four double rounds, then the state added
/// back word by word.
pub open spec fn chacha8_block(state: Seq<u32>) -> Seq<u32> {
    let x = double_rounds(state, 4);
    Seq::new(16, |i: int| x[i].wrapping_add(state[i]))
}

/// `state` with its 64-bit block counter (words 12 and 13) advanced by one.
pub open spec fn bump_counter(state: Seq<u32>) -> Seq<u32> {
    let lo = state[12].wrapping_add(1);
    let hi = if state[12] == u32::MAX { state[13].wrapping_add(1) } else { state[13] };
    state.update(12, lo).update(13, hi)
}

/// The ChaCha quarter round on words `a`, `b`, `c`, `d` of `x`.
pub fn qround(x: &mut [u32; 16], a: usize, b: usize, c: usize, d: usize)
    requires
        a < 16 && b < 16 && c < 16 && d < 16,
        a != b && a != c && a != d && b != c && b != d && c != d,
    ensures
        final(x)@ == quarter(old(x)@, a as int, b as int, c as int, d as int),
{
    let a1 = x[a].wrapping_add(x[b]);
    let t = x[d] ^ a1;
    let d1 = (t << 16u32) | (t >> 16u32);
    let c1 = x[c].wrapping_add(d1);
    let t = x[b] ^ c1;
    let b1 = (t << 12u32) | (t >> 20u32);
    let a2 = a1.wrapping_add(b1);
    let t = d1 ^ a2;
    let d2 = (t << 8u32) | (t >> 24u32);
    let c2 = c1.wrapping_add(d2);
    let t = b1 ^ c2;
    let b2 = (t << 7u32) | (t >> 25u32);
    x[a] = a2;
    x[b] = b2;
    x[c] = c2;
    x[d] = d2;
    proof {
        assert(x@ =~= quarter(old(x)@, a as int, b as int, c as int, d as int));
    }
}

/// The splitmix64 increment.
pub const GOLDEN: u64 = 0x9E37_79B9_7F4A_7C15;

/// `x` rotated left by `n` bits (`0 < n < 64`).
pub open spec fn rotl64(x: u64, n: u64) -> u64 {
    (x << n) | (x >> ((64 - n) as u64))
}

/// The splitmix64 output function, truncated to 32 bits.
pub open spec fn splitmix_out(acc: u64) -> u32 {
    let z = (acc ^ (acc >> 30u64)).wrapping_mul(0xBF58_476D_1CE4_E5B9u64);
    let z = (z ^ (z >> 27u64)).wrapping_mul(0x94D0_49BB_1331_11EBu64);
    ((z ^ (z >> 31u64)) & 0xFFFF_FFFFu64) as u32
}

/// The accumulator after `k` splitmix64 steps from `acc`.
pub open spec fn mix_acc(acc: u64, k: nat) -> u64
    decreases k,
{
    if k == 0 { acc } else { mix_acc(acc, (k - 1) as nat).wrapping_add(GOLDEN) }
}

/// The key eight splitmix64 steps derive from `acc`.
pub open spec fn spec_mix_key(acc: u64) -> Seq<u32> {
    Seq::new(8, |k: int| splitmix_out(mix_acc(acc, (k + 1) as nat)))
}

/// A key from eight splitmix64 steps over `acc`: the documented weaker
/// seed, for a target with no entropy source.
pub fn mix_key(acc: u64) -> (key: [u32; 8])
    ensures
        key@ == spec_mix_key(acc),
{
    let mut key = [0u32; 8];
    let mut a = acc;
    let mut k: usize = 0;
    while k < 8
        invariant
            k <= 8,
            key@.len() == 8,
            a == mix_acc(acc, k as nat),
            forall|j: int| 0 <= j < k ==> key@[j] == splitmix_out(mix_acc(acc, (j + 1) as nat)),
        decreases 8 - k,
    {
        a = a.wrapping_add(GOLDEN);
        let z = (a ^ (a >> 30u64)).wrapping_mul(0xBF58_476D_1CE4_E5B9u64);
        let z = (z ^ (z >> 27u64)).wrapping_mul(0x94D0_49BB_1331_11EBu64);
        key[k] = ((z ^ (z >> 31u64)) & 0xFFFF_FFFFu64) as u32;
        k = k + 1;
    }
    proof {
        assert(key@ =~= spec_mix_key(acc));
    }
    key
}

/// The fallback accumulator: the clock, a stack address rotated by 17, the
/// thread id rotated by 33, and a global counter's draw, mixed by xor.
pub fn fallback_accumulator(clock: u64, stack: u64, thread: u64, counter: u64) -> (acc: u64)
    ensures
        acc == clock ^ rotl64(stack, 17) ^ rotl64(thread, 33) ^ counter,
{
    let s = (stack << 17u64) | (stack >> 47u64);
    let t = (thread << 33u64) | (thread >> 31u64);
    clock ^ s ^ t ^ counter
}

/// A ChaCha8 stream: the cipher state, the current keystream block, and how
/// many of its words have been handed out (16: none left).
pub struct Random {
    /// Constants, key, 64-bit block counter and stream id.
    pub state: [u32; 16],
    /// The current keystream block.
    pub out: [u32; 16],
    /// Words of `out` already handed out.
    pub used: usize,
}

impl Random {
    /// The stream is consistent: at most a whole block handed out.
    pub open spec fn wf(&self) -> bool {
        self.used <= 16
    }

    /// The next word the stream hands out.
    pub open spec fn peek(&self) -> u32 {
        if self.used >= 16 { chacha8_block(self.state@)[0] } else { self.out@[self.used as int] }
    }

    /// The word the stream hands out after the next one.
    pub open spec fn peek_second(&self) -> u32 {
        if self.used >= 16 {
            chacha8_block(self.state@)[1]
        } else if self.used == 15 {
            chacha8_block(self.state@)[0]
        } else {
            self.out@[self.used + 1]
        }
    }

    /// The state and position of the stream after one word: the block is
    /// refilled (and the counter advanced) first when it is exhausted.
    pub open spec fn next_state(&self, post: Random) -> bool {
        if self.used >= 16 {
            &&& post.state@ == bump_counter(self.state@)
            &&& post.out@ == chacha8_block(self.state@)
            &&& post.used == 1
        } else {
            &&& post.state@ == self.state@
            &&& post.out@ == self.out@
            &&& post.used == self.used + 1
        }
    }

    /// An empty, unseeded stream; seed it before use.
    pub fn new() -> (r: Random)
        ensures
            r.wf(),
            r.state@ == Seq::new(16, |i: int| 0u32),
            r.used == 16,
    {
        let r = Random { state: [0u32; 16], out: [0u32; 16], used: 16 };
        proof {
            assert(r.state@ =~= Seq::new(16, |i: int| 0u32));
        }
        r
    }

    /// Seed from `key` (eight words) and a stream id: the four
    /// "expand 32-byte k" constants, the key in words 4..12, the counter at 0
    /// in words 12..14 and the stream id in words 14..16. The block is
    /// refilled at the next draw.
    pub fn seed_from(&mut self, key: [u32; 8], stream: u64)
        ensures
            final(self).wf(),
            final(self).state@ == seq![0x6170_7865u32, 0x3320_646eu32, 0x7962_2d32u32, 0x6b20_6574u32]
                + key@ + seq![0u32, 0u32, (stream % 0x1_0000_0000) as u32, (stream / 0x1_0000_0000) as u32],
            final(self).used == 16,
    {
        self.state[0] = 0x6170_7865;
        self.state[1] = 0x3320_646e;
        self.state[2] = 0x7962_2d32;
        self.state[3] = 0x6b20_6574;
        let mut i: usize = 0;
        while i < 8
            invariant
                i <= 8,
                self.state@.len() == 16,
                self.state@[0] == 0x6170_7865u32,
                self.state@[1] == 0x3320_646eu32,
                self.state@[2] == 0x7962_2d32u32,
                self.state@[3] == 0x6b20_6574u32,
                forall|j: int| 0 <= j < i ==> self.state@[4 + j] == key@[j],
            decreases 8 - i,
        {
            self.state[4 + i] = key[i];
            i = i + 1;
        }
        self.state[12] = 0;
        self.state[13] = 0;
        self.state[14] = (stream & 0xFFFF_FFFFu64) as u32;
        self.state[15] = (stream >> 32u64) as u32;
        self.used = 16;
        proof {
            assert((stream & 0xFFFF_FFFFu64) == stream % 0x1_0000_0000) by (bit_vector);
            assert((stream >> 32u64) == stream / 0x1_0000_0000) by (bit_vector);
            assert(self.state@ =~= seq![0x6170_7865u32, 0x3320_646eu32, 0x7962_2d32u32, 0x6b20_6574u32]
                + key@ + seq![0u32, 0u32, (stream % 0x1_0000_0000) as u32, (stream / 0x1_0000_0000) as u32]);
        }
    }

    /// Reseed: from `entropy` when the platform supplied 32 bytes of it,
    /// else from the splitmix64 key over the fallback accumulator `acc`; the
    /// stream id is the thread id.
    pub fn reseed(&mut self, entropy: Option<[u32; 8]>, acc: u64)
        ensures
            final(self).wf(),
            final(self).used == 16,
            final(self).state@ == seq![0x6170_7865u32, 0x3320_646eu32, 0x7962_2d32u32, 0x6b20_6574u32]
                + (match entropy { Some(k) => k@, None => spec_mix_key(acc) })
                + seq![0u32, 0u32, 1u32, 0u32],
    {
        let key = match entropy {
            Some(k) => k,
            None => mix_key(acc),
        };
        let stream = crate::prim::thread_id() as u64;
        self.seed_from(key, stream);
    }

    /// Compute the next keystream block from the state, then advance the
    /// 64-bit block counter (the low word carries into the high one).
    pub fn refill(&mut self)
        ensures
            final(self).out@ == chacha8_block(old(self).state@),
            final(self).state@ == bump_counter(old(self).state@),
            final(self).used == 0,
    {
        let mut x = self.state;
        let mut r: usize = 0;
        while r < 4
            invariant
                r <= 4,
                x@ == double_rounds(self.state@, r as nat),
                self.state == old(self).state,
            decreases 4 - r,
        {
            qround(&mut x, 0, 4, 8, 12);
            qround(&mut x, 1, 5, 9, 13);
            qround(&mut x, 2, 6, 10, 14);
            qround(&mut x, 3, 7, 11, 15);
            qround(&mut x, 0, 5, 10, 15);
            qround(&mut x, 1, 6, 11, 12);
            qround(&mut x, 2, 7, 8, 13);
            qround(&mut x, 3, 4, 9, 14);
            r = r + 1;
        }
        let mut i: usize = 0;
        while i < 16
            invariant
                i <= 16,
                x@ == double_rounds(old(self).state@, 4),
                self.state == old(self).state,
                self.out@.len() == 16,
                forall|j: int| 0 <= j < i ==> self.out@[j] == x@[j].wrapping_add(self.state@[j]),
            decreases 16 - i,
        {
            self.out[i] = x[i].wrapping_add(self.state[i]);
            i = i + 1;
        }
        let carry = self.state[12] == u32::MAX;
        self.state[12] = self.state[12].wrapping_add(1);
        if carry {
            self.state[13] = self.state[13].wrapping_add(1);
        }
        self.used = 0;
        proof {
            assert(self.out@ =~= chacha8_block(old(self).state@));
            assert(self.state@ =~= bump_counter(old(self).state@));
        }
    }

    /// The next 32 random bits.
    pub fn next_u32(&mut self) -> (v: u32)
        requires
            old(self).wf(),
        ensures
            final(self).wf(),
            v == old(self).peek(),
            old(self).next_state(*final(self)),
    {
        if self.used >= 16 {
            self.refill();
        }
        let v = self.out[self.used];
        self.used = self.used + 1;
        v
    }

    /// The `usize` a draw of [`Random::next_usize`] makes from this state:
    /// two words (low first) on a 64-bit target, one on a 32-bit one.
    pub open spec fn usize_draw(&self) -> int {
        if usize::BITS == 64 {
            self.peek_second() as int * 0x1_0000_0000 + self.peek() as int
        } else {
            self.peek() as int
        }
    }

    /// The stream after one `usize` draw: two words on a 64-bit target, one
    /// on a 32-bit one.
    pub open spec fn usize_step(&self, post: Random) -> bool {
        if usize::BITS == 64 {
            exists|mid: Random| self.next_state(mid) && #[trigger] mid.next_state(post)
        } else {
            self.next_state(post)
        }
    }

    /// A full `usize` of random bits.
    pub fn next_usize(&mut self) -> (v: usize)
        requires
            old(self).wf(),
        ensures
            final(self).wf(),
            v == old(self).usize_draw(),
            old(self).usize_step(*final(self)),
    {
        let ghost s0 = *self;
        let lo = self.next_u32();
        let ghost s1 = *self;
        if usize::BITS == 64 {
            let hi = self.next_u32();
            proof {
                assert(s1.next_state(*self));
            }
            let w = ((hi as u64) << 32u64) | (lo as u64);
            assert(w == hi as u64 * 0x1_0000_0000 + lo as u64) by (bit_vector)
                requires w == ((hi as u64) << 32u64) | (lo as u64);
            w as usize
        } else {
            lo as usize
        }
    }

    /// A draw in `[0, n)` by Lemire's multiply-shift: the high half of the
    /// draw times `n`. 0 when `n <= 1`.
    pub fn below(&mut self, n: usize) -> (r: usize)
        requires
            old(self).wf(),
        ensures
            final(self).wf(),
            n <= 1 ==> r == 0 && *final(self) == *old(self),
            n > 1 ==> r == (old(self).usize_draw() * n) / (usize::MAX as int + 1),
            n > 1 ==> old(self).usize_step(*final(self)),
            n > 1 ==> r < n,
    {
        if n <= 1 {
            return 0;
        }
        let v = self.next_usize();
        assert((v as u128) * (n as u128) <= u128::MAX) by (nonlinear_arith)
            requires v <= usize::MAX, n <= usize::MAX, usize::MAX <= u64::MAX;
        let p = (v as u128) * (n as u128);
        let r = if usize::BITS == 64 { p >> 64u32 } else { p >> 32u32 };
        proof {
            vstd::bits::lemma_u128_shr_is_div(p, if usize::BITS == 64 { 64u128 } else { 32u128 });
            vstd::arithmetic::power2::lemma2_to64();
            vstd::arithmetic::power2::lemma2_to64_rest();
            assert(usize::MAX as int + 1 == vstd::arithmetic::power2::pow2(usize::BITS as nat));
            assert(p < (usize::MAX as int + 1) * n) by (nonlinear_arith)
                requires p == v * n, v <= usize::MAX, n > 1;
            vstd::arithmetic::div_mod::lemma_div_by_multiple_is_strongly_ordered(p as int, ((usize::MAX as int + 1) * n) as int, n as int, usize::MAX as int + 1);
        }
        r as usize
    }
}

impl Default for Random {
    fn default() -> (r: Random)
        ensures
            r.wf(),
            r.used == 16,
    {
        Random::new()
    }
}

} // verus!
