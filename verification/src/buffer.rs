//! A 4 KiB page held as 512 signed 64-bit words, with typed views: words,
//! (key, value) pairs, little-endian bytes, and 64-byte cache lines carrying
//! individually addressable bits.
use vstd::prelude::*;

verus! {

use crate::TOMBSTONE;

/// The owned words backing one page.
pub struct InnerBuffer {
    pub words: Vec<i64>,
}

/// One page: 512 words, equivalently 256 (key, value) pairs, 4096 bytes, or
/// 64 cache lines of 512 bits each.
pub struct Buffer {
    pub inner: InnerBuffer,
}

/// The pair at slot `j` of a page: two adjacent words.
pub open spec fn pair_of(s: Seq<i64>, j: int) -> (i64, i64) {
    (s[2 * j], s[2 * j + 1])
}

/// The byte at position `k` (0 = least significant) of word `w`.
pub open spec fn byte_of(w: i64, k: int) -> u8 {
    ((w as u64) >> (8 * k as u64)) as u8
}

/// Whether bit `bit` of cache line `line` is set in page `s`.
/// A cache line is 8 consecutive words; bit `b` of a line lives in
/// word `b / 64` at position `b % 64`.
pub open spec fn bit_is_set(s: Seq<i64>, line: int, bit: int) -> bool {
    (s[line * 8 + bit / 64] >> ((bit % 64) as u64)) & 1 == 1
}

/// The page with bit `bit` of cache line `line` set and nothing else
/// touched: one word gains one bit.
pub open spec fn with_bit_set(s: Seq<i64>, line: int, bit: int) -> Seq<i64> {
    s.update(line * 8 + bit / 64, s[line * 8 + bit / 64] | (1i64 << ((bit % 64) as u64)))
}

impl View for Buffer {
    type V = Seq<i64>;

    open spec fn view(&self) -> Seq<i64> {
        self.inner.words@
    }
}

impl Buffer {
    /// A page is always exactly 512 words.
    pub open spec fn wf(&self) -> bool {
        self@.len() == 512
    }

    /// A fresh page with every word set to the sentinel, so that the first
    /// unused slot of a key page reads as end-of-data.
    pub fn new() -> (r: Buffer)
        ensures
            r.wf(),
            forall|i: int| 0 <= i < 512 ==> r@[i] == TOMBSTONE,
    {
        let mut words: Vec<i64> = Vec::new();
        let mut i: usize = 0;
        while i < 512
            invariant
                i <= 512,
                words@.len() == i,
                forall|j: int| 0 <= j < i ==> words@[j] == TOMBSTONE,
            decreases 512 - i,
        {
            words.push(TOMBSTONE);
            i += 1;
        }
        Buffer { inner: InnerBuffer { words } }
    }

    /// A fresh page with every word zero, as bloom filter pages start.
    pub fn new_0() -> (r: Buffer)
        ensures
            r.wf(),
            forall|i: int| 0 <= i < 512 ==> r@[i] == 0,
    {
        let mut words: Vec<i64> = Vec::new();
        let mut i: usize = 0;
        while i < 512
            invariant
                i <= 512,
                words@.len() == i,
                forall|j: int| 0 <= j < i ==> words@[j] == 0,
            decreases 512 - i,
        {
            words.push(0);
            i += 1;
        }
        Buffer { inner: InnerBuffer { words } }
    }

    /// The page as a slice of 512 words.
    pub fn as_slice_i64(&self) -> (r: &[i64])
        ensures
            r@ == self@,
    {
        self.inner.words.as_slice()
    }

    /// The word at index `i`.
    pub fn word(&self, i: usize) -> (r: i64)
        requires
            self.wf(),
            i < 512,
        ensures
            r == self@[i as int],
    {
        self.inner.words[i]
    }

    /// Replace the word at index `i`.
    pub fn set_word(&mut self, i: usize, v: i64)
        requires
            old(self).wf(),
            i < 512,
        ensures
            final(self)@ == old(self)@.update(i as int, v),
            final(self).wf(),
    {
        self.inner.words.set(i, v);
    }

    /// The pair at slot `j`: the two adjacent words `2j` and `2j + 1`.
    pub fn pair_at(&self, j: usize) -> (r: (i64, i64))
        requires
            self.wf(),
            j < 256,
        ensures
            r == pair_of(self@, j as int),
    {
        (self.inner.words[2 * j], self.inner.words[2 * j + 1])
    }

    /// Replace the pair at slot `j`.
    pub fn set_pair(&mut self, j: usize, p: (i64, i64))
        requires
            old(self).wf(),
            j < 256,
        ensures
            final(self).wf(),
            final(self)@ == old(self)@.update(2 * j as int, p.0).update(2 * j as int + 1, p.1),
            pair_of(final(self)@, j as int) == p,
            forall|j2: int|
                0 <= j2 < 256 && j2 != j ==> pair_of(final(self)@, j2) == pair_of(old(self)@, j2),
    {
        self.inner.words.set(2 * j, p.0);
        self.inner.words.set(2 * j + 1, p.1);
    }

    /// The page as 256 (key, value) pairs.
    pub fn as_slice_pair(&self) -> (r: Vec<(i64, i64)>)
        requires
            self.wf(),
        ensures
            r@.len() == 256,
            forall|j: int| 0 <= j < 256 ==> r@[j] == pair_of(self@, j),
    {
        let mut out: Vec<(i64, i64)> = Vec::new();
        let mut j: usize = 0;
        while j < 256
            invariant
                self.wf(),
                j <= 256,
                out@.len() == j,
                forall|t: int| 0 <= t < j ==> out@[t] == pair_of(self@, t),
            decreases 256 - j,
        {
            out.push((self.inner.words[2 * j], self.inner.words[2 * j + 1]));
            j += 1;
        }
        out
    }

    /// The page as 4096 bytes, each word little-endian.
    pub fn as_slice_u8(&self) -> (r: Vec<u8>)
        requires
            self.wf(),
        ensures
            r@.len() == 4096,
            forall|i: int| 0 <= i < 4096 ==> r@[i] == byte_of(self@[i / 8], i % 8),
    {
        let mut out: Vec<u8> = Vec::new();
        let mut i: usize = 0;
        while i < 512
            invariant
                self.wf(),
                i <= 512,
                out@.len() == 8 * i,
                forall|t: int| 0 <= t < 8 * i ==> out@[t] == byte_of(self@[t / 8], t % 8),
            decreases 512 - i,
        {
            let w = self.inner.words[i];
            let mut k: usize = 0;
            while k < 8
                invariant
                    self.wf(),
                    i < 512,
                    k <= 8,
                    w == self@[i as int],
                    out@.len() == 8 * i + k,
                    forall|t: int| 0 <= t < 8 * i + k ==> out@[t] == byte_of(self@[t / 8], t % 8),
                decreases 8 - k,
            {
                let b: u8 = #[verifier::truncate] (((#[verifier::truncate] (w as u64)) >> (
                8 * k as u64)) as u8);
                assert(b == byte_of(self@[i as int], k as int));
                proof {
                    assert forall|t: int| 0 <= t < 8 * i + k + 1 implies out@.push(b)[t] == byte_of(
                        self@[t / 8],
                        t % 8,
                    ) by {
                        if t == 8 * i + k {
                            assert(t / 8 == i as int && t % 8 == k as int) by (nonlinear_arith)
                                requires
                                    t == 8 * (i as int) + k,
                                    0 <= k < 8,
                                    0 <= i,
                            ;
                        }
                    }
                }
                out.push(b);
                k += 1;
            }
            i += 1;
        }
        out
    }

    /// The page as 64 cache lines of 64 bytes each.
    pub fn as_cache_lines(&self) -> (r: Vec<Vec<u8>>)
        requires
            self.wf(),
        ensures
            r@.len() == 64,
            forall|l: int| 0 <= l < 64 ==> r@[l]@.len() == 64,
            forall|l: int, b: int|
                0 <= l < 64 && 0 <= b < 64 ==> r@[l]@[b] == byte_of(
                    self@[(64 * l + b) / 8],
                    (64 * l + b) % 8,
                ),
    {
        let bytes = self.as_slice_u8();
        let mut out: Vec<Vec<u8>> = Vec::new();
        let mut l: usize = 0;
        while l < 64
            invariant
                bytes@.len() == 4096,
                forall|i: int| 0 <= i < 4096 ==> bytes@[i] == byte_of(self@[i / 8], i % 8),
                l <= 64,
                out@.len() == l,
                forall|t: int| 0 <= t < l ==> out@[t]@.len() == 64,
                forall|t: int, b: int|
                    0 <= t < l && 0 <= b < 64 ==> out@[t]@[b] == bytes@[64 * t + b],
            decreases 64 - l,
        {
            let mut line: Vec<u8> = Vec::new();
            let mut b: usize = 0;
            while b < 64
                invariant
                    bytes@.len() == 4096,
                    l < 64,
                    b <= 64,
                    line@.len() == b,
                    forall|t: int| 0 <= t < b ==> line@[t] == bytes@[64 * l + t],
                decreases 64 - b,
            {
                line.push(bytes[64 * l + b]);
                b += 1;
            }
            out.push(line);
            l += 1;
        }
        out
    }

    /// Set bit `bit` of cache line `line`; every bit already set stays set.
    pub fn set_bit(&mut self, line: usize, bit: usize)
        requires
            old(self).wf(),
            line < 64,
            bit < 512,
        ensures
            final(self).wf(),
            final(self)@ == with_bit_set(old(self)@, line as int, bit as int),
            bit_is_set(final(self)@, line as int, bit as int),
            forall|l2: int, b2: int|
                0 <= l2 < 64 && 0 <= b2 < 512 && bit_is_set(old(self)@, l2, b2) ==> bit_is_set(
                    final(self)@,
                    l2,
                    b2,
                ),
    {
        let idx: usize = line * 8 + bit / 64;
        let sh: u64 = (bit % 64) as u64;
        let w = self.inner.words[idx];
        let w2: i64 = w | (1i64 << sh);
        self.inner.words.set(idx, w2);
        proof {
            assert(self@ =~= with_bit_set(old(self)@, line as int, bit as int));
            lemma_set_bit_sets(w, sh);
            assert forall|l2: int, b2: int|
                0 <= l2 < 64 && 0 <= b2 < 512 && bit_is_set(old(self)@, l2, b2) implies bit_is_set(
                self@,
                l2,
                b2,
            ) by {
                if l2 * 8 + b2 / 64 == idx as int {
                    lemma_set_bit_keeps(w, sh, (b2 % 64) as u64);
                }
            }
        }
    }

    /// Whether bit `bit` of cache line `line` is set.
    pub fn test_bit(&self, line: usize, bit: usize) -> (r: bool)
        requires
            self.wf(),
            line < 64,
            bit < 512,
        ensures
            r == bit_is_set(self@, line as int, bit as int),
    {
        let idx: usize = line * 8 + bit / 64;
        let sh: u64 = (bit % 64) as u64;
        (self.inner.words[idx] >> sh) & 1 == 1
    }
}

proof fn lemma_word_from_bytes(
    x: u64,
    b0: u64,
    b1: u64,
    b2: u64,
    b3: u64,
    b4: u64,
    b5: u64,
    b6: u64,
    b7: u64,
)
    by (bit_vector)
    requires
        x == b0 | (b1 << 8u64) | (b2 << 16u64) | (b3 << 24u64) | (b4 << 32u64) | (b5 << 40u64) | (
        b6 << 48u64) | (b7 << 56u64),
        b0 < 256,
        b1 < 256,
        b2 < 256,
        b3 < 256,
        b4 < 256,
        b5 < 256,
        b6 < 256,
        b7 < 256,
    ensures
        ((x as i64) as u64) == x,
        ((x >> 0u64) as u8) == b0 as u8,
        ((x >> 8u64) as u8) == b1 as u8,
        ((x >> 16u64) as u8) == b2 as u8,
        ((x >> 24u64) as u8) == b3 as u8,
        ((x >> 32u64) as u8) == b4 as u8,
        ((x >> 40u64) as u8) == b5 as u8,
        ((x >> 48u64) as u8) == b6 as u8,
        ((x >> 56u64) as u8) == b7 as u8,
{
}

impl Buffer {
    /// Rebuild a page from 4096 little-endian bytes: the inverse of the
    /// byte view, as a store reading raw pages needs.
    pub fn from_le_bytes(bytes: &[u8]) -> (r: Buffer)
        requires
            bytes@.len() == 4096,
        ensures
            r.wf(),
            forall|i: int| 0 <= i < 4096 ==> byte_of(r@[i / 8], i % 8) == bytes@[i],
    {
        let mut out = Buffer::new_0();
        let mut w: usize = 0;
        while w < 512
            invariant
                bytes@.len() == 4096,
                out.wf(),
                w <= 512,
                forall|i: int| 0 <= i < 8 * w ==> byte_of(out@[i / 8], i % 8) == bytes@[i],
            decreases 512 - w,
        {
            let ghost out0 = out@;
            let b0 = bytes[8 * w] as u64;
            let b1 = bytes[8 * w + 1] as u64;
            let b2 = bytes[8 * w + 2] as u64;
            let b3 = bytes[8 * w + 3] as u64;
            let b4 = bytes[8 * w + 4] as u64;
            let b5 = bytes[8 * w + 5] as u64;
            let b6 = bytes[8 * w + 6] as u64;
            let b7 = bytes[8 * w + 7] as u64;
            let x: u64 = b0 | (b1 << 8u64) | (b2 << 16u64) | (b3 << 24u64) | (b4 << 32u64) | (b5
                << 40u64) | (b6 << 48u64) | (b7 << 56u64);
            let word: i64 = #[verifier::truncate] (x as i64);
            out.set_word(w, word);
            proof {
                lemma_word_from_bytes(x, b0, b1, b2, b3, b4, b5, b6, b7);
                assert forall|i: int| 0 <= i < 8 * w + 8 implies byte_of(out@[i / 8], i % 8)
                    == bytes@[i] by {
                    if i < 8 * w {
                        assert(i / 8 < w) by (nonlinear_arith)
                            requires
                                0 <= i < 8 * w,
                                i == 8 * (i / 8) + i % 8,
                                0 <= i % 8 < 8,
                        ;
                        assert(out@[i / 8] == out0[i / 8]);
                    } else {
                        assert(i / 8 == w && i % 8 == i - 8 * w) by (nonlinear_arith)
                            requires
                                8 * w <= i < 8 * w + 8,
                                w >= 0,
                        ;
                        assert(out@[w as int] == word);
                    }
                }
            }
            w += 1;
        }
        out
    }
}

/// A fresh page holding the same words as `src`.
pub fn copy_buffer(src: &Buffer) -> (r: Buffer)
    requires
        src.wf(),
    ensures
        r.wf(),
        r@ == src@,
{
    let mut out = Buffer::new_0();
    let mut i: usize = 0;
    while i < 512
        invariant
            src.wf(),
            out.wf(),
            i <= 512,
            forall|j: int| 0 <= j < i ==> out@[j] == src@[j],
        decreases 512 - i,
    {
        let w = src.word(i);
        out.set_word(i, w);
        i += 1;
    }
    proof {
        assert(out@ =~= src@);
    }
    out
}

proof fn lemma_set_bit_sets(w: i64, sh: u64)
    by (bit_vector)
    requires
        sh < 64,
    ensures
        ((w | (1i64 << sh)) >> sh) & 1 == 1,
{
}

proof fn lemma_set_bit_keeps(w: i64, sh: u64, k: u64)
    by (bit_vector)
    requires
        sh < 64,
        k < 64,
        (w >> k) & 1 == 1,
    ensures
        ((w | (1i64 << sh)) >> k) & 1 == 1,
{
}

} // verus!
