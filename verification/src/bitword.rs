//! Bits of a 32-bit bitmap word, for the bitmaps that track slices,
//! segment windows and arena chunks.

use vstd::prelude::*;

verus! {

/// Bit `c` of `w` is set.
pub open spec fn bit_set(w: u32, c: int) -> bool {
    (w >> (c as u32)) & 1u32 == 1u32
}

/// Setting bit `b` of `w` sets it and leaves every other bit alone;
/// clearing it likewise.
pub proof fn lemma_bit_update(w: u32, b: u32)
    requires
        b < 32,
    ensures
        forall|c: u32| c < 32 ==> #[trigger] bit_set(w | (1u32 << b), c as int) == (c == b || bit_set(w, c as int)),
        forall|c: u32| c < 32 ==> #[trigger] bit_set(w & !(1u32 << b), c as int) == (c != b && bit_set(w, c as int)),
        (w & (1u32 << b)) != 0 <==> bit_set(w, b as int),
{
    assert(forall|c: u32| c < 32 ==> ((((w | (1u32 << b)) >> c) & 1u32) == 1u32) == (c == b || ((w >> c) & 1u32) == 1u32)) by (bit_vector)
        requires b < 32;
    assert(forall|c: u32| c < 32 ==> ((((w & !(1u32 << b)) >> c) & 1u32) == 1u32) == (c != b && ((w >> c) & 1u32) == 1u32)) by (bit_vector)
        requires b < 32;
    assert(((w & (1u32 << b)) != 0) == (((w >> b) & 1u32) == 1u32)) by (bit_vector)
        requires b < 32;
}

/// No bit of a zero word is set.
pub proof fn lemma_zero_word(w: u32)
    requires
        w == 0,
    ensures
        forall|c: int| 0 <= c < 32 ==> !#[trigger] bit_set(w, c),
{
    assert(forall|c: u32| c < 32 ==> ((0u32 >> c) & 1u32) != 1u32) by (bit_vector);
    assert forall|c: int| 0 <= c < 32 implies !#[trigger] bit_set(w, c) by {
        let cu = c as u32;
        assert(((0u32 >> cu) & 1u32) != 1u32);
    }
}

/// A fixed-size bitmap of 32-bit words.
pub struct Bitmap {
    words: Vec<u32>,
}

impl Bitmap {
    /// Words in the map.
    pub closed spec fn word_count(&self) -> int {
        self.words@.len() as int
    }

    /// Bit `i` is set.
    pub closed spec fn is_set(&self, i: int) -> bool {
        bit_set(self.words@[i / 32], i % 32)
    }

    /// Bits in the map.
    pub open spec fn bit_count(&self) -> int {
        self.word_count() * 32
    }

    /// A map of `words` zero words.
    pub fn new(words: usize) -> (m: Self)
        ensures
            m.word_count() == words,
            forall|i: int| 0 <= i < m.bit_count() ==> !#[trigger] m.is_set(i),
    {
        let mut v: Vec<u32> = Vec::new();
        let mut k: usize = 0;
        while k < words
            invariant
                k <= words,
                v@.len() == k,
                forall|j: int| 0 <= j < k ==> v@[j] == 0u32,
            decreases words - k,
        {
            v.push(0u32);
            k = k + 1;
        }
        let m = Bitmap { words: v };
        proof {
            assert forall|i: int| 0 <= i < m.bit_count() implies !#[trigger] m.is_set(i) by {
                lemma_zero_word(m.words@[i / 32]);
            }
        }
        m
    }

    /// Word `w`: zero exactly when none of bits `32w .. 32w + 32` is set.
    pub fn word(&self, w: usize) -> (x: u32)
        requires
            w < self.word_count(),
        ensures
            forall|c: int| 0 <= c < 32 ==> #[trigger] bit_set(x, c) == self.is_set(32 * w + c),
            x == 0 ==> forall|i: int| 32 * w <= i < 32 * w + 32 ==> !#[trigger] self.is_set(i),
    {
        let x = self.words[w];
        proof {
            assert forall|c: int| 0 <= c < 32 implies #[trigger] bit_set(x, c) == self.is_set(32 * w + c) by {
                assert((32 * w + c) / 32 == w);
                assert((32 * w + c) % 32 == c);
            }
            if x == 0 {
                lemma_zero_word(x);
                assert forall|i: int| 32 * w <= i < 32 * w + 32 implies !#[trigger] self.is_set(i) by {
                    assert(i / 32 == w);
                }
            }
        }
        x
    }

    /// Read bit `i`.
    pub fn test(&self, i: usize) -> (b: bool)
        requires
            i < self.bit_count(),
        ensures
            b == self.is_set(i as int),
    {
        let x = self.words[i / 32];
        let b = (i % 32) as u32;
        proof {
            lemma_bit_update(x, b);
        }
        x & (1u32 << b) != 0
    }

    /// Set bit `i`, leaving the others.
    pub fn set(&mut self, i: usize)
        requires
            i < old(self).bit_count(),
        ensures
            final(self).word_count() == old(self).word_count(),
            forall|j: int| 0 <= j < final(self).bit_count() ==> #[trigger] final(self).is_set(j) == (j == i || old(self).is_set(j)),
    {
        let w = i / 32;
        let b = (i % 32) as u32;
        let x = self.words[w];
        proof {
            lemma_bit_update(x, b);
        }
        self.words.set(w, x | (1u32 << b));
        proof {
            assert forall|j: int| 0 <= j < self.bit_count() implies #[trigger] self.is_set(j) == (j == i || old(self).is_set(j)) by {
                if j / 32 == w as int {
                    let c = (j % 32) as u32;
                    assert(bit_set(x | (1u32 << b), c as int) == (c == b || bit_set(x, c as int)));
                }
            }
        }
    }

    /// Clear bit `i`, leaving the others.
    pub fn clear(&mut self, i: usize)
        requires
            i < old(self).bit_count(),
        ensures
            final(self).word_count() == old(self).word_count(),
            forall|j: int| 0 <= j < final(self).bit_count() ==> #[trigger] final(self).is_set(j) == (j != i && old(self).is_set(j)),
    {
        let w = i / 32;
        let b = (i % 32) as u32;
        let x = self.words[w];
        proof {
            lemma_bit_update(x, b);
        }
        self.words.set(w, x & !(1u32 << b));
        proof {
            assert forall|j: int| 0 <= j < self.bit_count() implies #[trigger] self.is_set(j) == (j != i && old(self).is_set(j)) by {
                if j / 32 == w as int {
                    let c = (j % 32) as u32;
                    assert(bit_set(x & !(1u32 << b), c as int) == (c != b && bit_set(x, c as int)));
                }
            }
        }
    }
}

} // verus!
