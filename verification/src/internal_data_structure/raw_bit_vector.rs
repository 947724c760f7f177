//! A packed, byte-backed bit sequence of fixed positive length.

use vstd::prelude::*;
use vstd::utf8::is_ascii_chars_encode_utf8;
use crate::bit_vector::bit_vector_string::BitVectorString;
use crate::bits::{
    bits_of, byte_bit, byte_bits, lemma_popcount_bound, lemma_popcount_concat,
    lemma_popcount_none, popcount_of, word_bit, word_bits, zeros,
};

verus! {

/// What `u8::count_ones` of the standard library returns: the number of set
/// bits among the eight bits of the byte. Not proved here.
pub assume_specification[ u8::count_ones ](b: u8) -> (r: u32)
    ensures
        r == popcount_of(byte_bits(b)),
;

/// Bit vector of fixed length `N`, with `1 <= N < 2^64`.
///
/// Bit `i` is stored in byte `i / 8`, at position `i % 8` counted from the most
/// significant bit. The unused low bits of the last byte are kept at zero.
pub struct RawBitVector {
    byte_vec: Vec<u8>,
    last_byte_len: u8,
}

impl View for RawBitVector {
    type V = Seq<bool>;

    closed spec fn view(&self) -> Seq<bool> {
        bits_of(self.byte_vec@, self.bit_len())
    }
}

/// A zero byte has no set bit.
proof fn lemma_zero_byte(k: u8)
    by (bit_vector)
    ensures
        !byte_bit(0u8, k),
{
}

/// Or-ing in the mask of bit `j` sets bit `j` and leaves the others.
proof fn lemma_set_byte_bit(b: u8, j: u8, k: u8)
    by (bit_vector)
    requires
        j < 8,
        k < 8,
    ensures
        byte_bit(b | (0x80u8 >> j), k) == (k == j || byte_bit(b, k)),
{
}

/// The byte read at bit offset `a` across two adjacent bytes `x`, `y`.
spec fn window(x: u8, y: u8, a: u8) -> u8 {
    if a == 0 {
        x
    } else {
        (x << a) | (y >> ((8 - a) as u8))
    }
}

/// Bit `k` of the window at offset `a` is bit `a + k` of the two bytes laid
/// side by side.
proof fn lemma_window_bit(x: u8, y: u8, a: u8, k: u8)
    by (bit_vector)
    requires
        a < 8,
        k < 8,
    ensures
        byte_bit(window(x, y, a), k) == (if a + k < 8 {
            byte_bit(x, (a + k) as u8)
        } else {
            byte_bit(y, (a + k - 8) as u8)
        }),
{
}

/// Masking keeps the first `keep` bits of a byte and clears the rest.
proof fn lemma_mask_byte_bit(b: u8, keep: u8, k: u8)
    by (bit_vector)
    requires
        1 <= keep < 8,
        k < 8,
    ensures
        byte_bit(b & (0xFFu8 << ((8 - keep) as u8)), k) == (k < keep && byte_bit(b, k)),
{
}

/// The word made of four bytes, the first byte on top.
spec fn pack(b0: u8, b1: u8, b2: u8, b3: u8) -> u32 {
    ((b0 as u32) << 24) | ((b1 as u32) << 16) | ((b2 as u32) << 8) | (b3 as u32)
}

/// Bit `k` of a packed word is bit `k % 8` of its byte `k / 8`.
proof fn lemma_pack_bit(b0: u8, b1: u8, b2: u8, b3: u8, k: u32)
    by (bit_vector)
    requires
        k < 32,
    ensures
        word_bit(pack(b0, b1, b2, b3), k) == byte_bit(
            if k < 8 {
                b0
            } else if k < 16 {
                b1
            } else if k < 24 {
                b2
            } else {
                b3
            },
            (k % 8) as u8,
        ),
{
}

impl RawBitVector {
    /// Number of bits held.
    closed spec fn bit_len(&self) -> nat {
        ((self.byte_vec@.len() - 1) * 8 + self.last_byte_len) as nat
    }

    /// The representation invariant: at least one byte, a last byte holding
    /// 1 to 8 bits, a length that fits in 64 bits, and zero padding.
    pub closed spec fn wf(&self) -> bool {
        &&& self.byte_vec@.len() >= 1
        &&& 1 <= self.last_byte_len <= 8
        &&& (self.byte_vec@.len() - 1) * 8 + self.last_byte_len <= u64::MAX
        &&& forall|k: u8|
            self.last_byte_len <= k < 8 ==> !#[trigger] byte_bit(self.byte_vec@.last(), k)
    }

    /// Bits of storage that the packed bytes take.
    pub closed spec fn stored_bits(&self) -> nat {
        8 * self.byte_vec@.len()
    }

    /// The packed bytes take fewer than 8 bits more than there are bits.
    pub proof fn lemma_stored_bits(&self)
        requires
            self.wf(),
        ensures
            self@.len() <= self.stored_bits() < self@.len() + 8,
    {
    }

    /// A well-formed vector holds between 1 and `u64::MAX` bits.
    pub proof fn lemma_len_bounds(&self)
        requires
            self.wf(),
        ensures
            1 <= self@.len() <= u64::MAX,
    {
    }

    /// Makes a bit vector of `length` bits, all zero.
    pub fn from_length(length: u64) -> (r: RawBitVector)
        requires
            length > 0,
        ensures
            r.wf(),
            r@ == zeros(length as nat),
    {
        let last_byte_len_or_0: u8 = (length % 8) as u8;
        let last_byte_len: u8 = if last_byte_len_or_0 == 0 {
            8
        } else {
            last_byte_len_or_0
        };
        let n_bytes: u64 = (length - 1) / 8 + 1;
        let mut byte_vec: Vec<u8> = Vec::new();
        let mut j: u64 = 0;
        while j < n_bytes
            invariant
                j <= n_bytes,
                byte_vec@.len() == j,
                forall|q: int| 0 <= q < j ==> byte_vec@[q] == 0u8,
            decreases n_bytes - j,
        {
            byte_vec.push(0u8);
            j += 1;
        }
        let r = RawBitVector { byte_vec, last_byte_len };
        proof {
            assert forall|k: u8| !#[trigger] byte_bit(0u8, k) by {
                lemma_zero_byte(k);
            }
            assert(r@ =~= zeros(length as nat));
        }
        r
    }

    /// Makes a bit vector from its string representation: bit `i` is set
    /// where character `i` is `'1'`.
    pub fn from_str(bit_vector_str: &BitVectorString) -> (r: RawBitVector)
        requires
            bit_vector_str.wf(),
        ensures
            r.wf(),
            r@ == bit_vector_str.bits(),
    {
        let s: &str = bit_vector_str.str();
        proof {
            is_ascii_chars_encode_utf8(s@);
        }
        let length: usize = s.as_bytes().len();
        let mut rbv = RawBitVector::from_length(length as u64);
        let mut i: u64 = 0;
        for c in it: s.chars()
            invariant
                it.seq() == s@,
                s@.len() == length,
                i == it.index(),
                rbv.wf(),
                rbv@.len() == length,
                forall|j: int| 0 <= j < i ==> rbv@[j] == (s@[j] == '1'),
                forall|j: int| i <= j < length ==> !rbv@[j],
        {
            if c == '1' {
                rbv.set_bit(i);
            }
            i += 1;
        }
        proof {
            assert(rbv@ =~= bit_vector_str.bits());
        }
        rbv
    }

    /// Returns the `i`-th bit.
    pub fn access(&self, i: u64) -> (r: bool)
        requires
            self.wf(),
            i < self@.len(),
        ensures
            r == self@[i as int],
    {
        assert(i / 8 < self.byte_vec.len());
        let byte: u8 = self.byte_vec[(i / 8) as usize];
        let k: u8 = (i % 8) as u8;
        byte & (0x80u8 >> k) != 0
    }

    /// Sets the `i`-th bit to 1.
    pub fn set_bit(&mut self, i: u64)
        requires
            old(self).wf(),
            i < old(self)@.len(),
        ensures
            final(self).wf(),
            final(self)@ == old(self)@.update(i as int, true),
    {
        assert(i / 8 < self.byte_vec.len());
        let idx: usize = (i / 8) as usize;
        let j: u8 = (i % 8) as u8;
        let byte: u8 = self.byte_vec[idx];
        self.byte_vec[idx] = byte | (0x80u8 >> j);
        proof {
            assert forall|k: u8| k < 8 implies #[trigger] byte_bit(self.byte_vec@[idx as int], k)
                == (k == j || byte_bit(byte, k)) by {
                lemma_set_byte_bit(byte, j, k);
            }
            assert(self@ =~= old(self)@.update(i as int, true));
            assert forall|k: u8| self.last_byte_len <= k < 8 implies !#[trigger] byte_bit(
                self.byte_vec@.last(),
                k,
            ) by {
                assert(!byte_bit(old(self).byte_vec@.last(), k));
                if idx == self.byte_vec@.len() - 1 {
                    assert(byte_bit(self.byte_vec@[idx as int], k) == (k == j || byte_bit(byte, k)));
                }
            }
        }
    }

    /// Returns the number of bits.
    pub fn length(&self) -> (r: u64)
        requires
            self.wf(),
        ensures
            r == self@.len(),
            r >= 1,
    {
        (self.byte_vec.len() as u64 - 1) * 8 + (self.last_byte_len as u64)
    }

    /// Returns the number of set bits of the whole vector.
    pub fn popcount(&self) -> (r: u64)
        requires
            self.wf(),
        ensures
            r == popcount_of(self@),
    {
        let n: usize = self.byte_vec.len();
        let mut total: u64 = 0;
        let mut j: usize = 0;
        while j < n
            invariant
                self.wf(),
                n == self.byte_vec@.len(),
                j <= n,
                j < n ==> total == popcount_of(bits_of(self.byte_vec@, (8 * j) as nat)),
                j == n ==> total == popcount_of(self@),
            decreases n - j,
        {
            let ones: u32 = self.byte_vec[j].count_ones();
            proof {
                let bytes = self.byte_vec@;
                let before = bits_of(bytes, (8 * j) as nat);
                let after = bits_of(bytes, (8 * (j + 1)) as nat);
                assert(after =~= before + byte_bits(bytes[j as int]));
                lemma_popcount_concat(before, byte_bits(bytes[j as int]));
                if j + 1 == n {
                    let pad = zeros((8 - self.last_byte_len) as nat);
                    assert forall|t: int| self@.len() <= t < after.len() implies !after[t] by {
                        assert(t / 8 == n - 1);
                        assert(!byte_bit(bytes.last(), (t % 8) as u8));
                    }
                    assert(after =~= self@ + pad);
                    lemma_popcount_concat(self@, pad);
                    lemma_popcount_none(pad);
                    lemma_popcount_bound(self@);
                } else {
                    lemma_popcount_bound(after);
                }
            }
            total = total + ones as u64;
            j += 1;
        }
        total
    }

    /// Makes another bit vector from the bits `[i, i + size)` of this one.
    pub fn copy_sub(&self, i: u64, size: u64) -> (r: RawBitVector)
        requires
            self.wf(),
            size > 0,
            i + size <= self@.len(),
        ensures
            r.wf(),
            r@ == self@.subrange(i as int, i + size),
    {
        let n_src: usize = self.byte_vec.len();
        let shift: u8 = (i % 8) as u8;
        let first: u64 = i / 8;
        let n_bytes: u64 = (size - 1) / 8 + 1;
        let tail: u8 = (size % 8) as u8;
        let mut sub: Vec<u8> = Vec::new();
        let mut j: u64 = 0;
        while j < n_bytes
            invariant
                self.wf(),
                n_src == self.byte_vec@.len(),
                size > 0,
                i + size <= self@.len(),
                shift == i % 8,
                first == i / 8,
                n_bytes == (size - 1) / 8 + 1,
                tail == size % 8,
                j <= n_bytes,
                sub@.len() == j,
                forall|q: int, k: u8|
                    0 <= q < j && k < 8 ==> #[trigger] byte_bit(sub@[q], k) == (8 * q + k < size
                        && self@[i + 8 * q + k]),
            decreases n_bytes - j,
        {
            let hi: u8 = self.byte_vec[(first + j) as usize];
            let lo: u8 = if shift > 0 && first + j + 1 < n_src as u64 {
                self.byte_vec[(first + j + 1) as usize]
            } else {
                0
            };
            let joined: u8 = if shift == 0 {
                hi
            } else {
                (hi << shift) | (lo >> (8 - shift))
            };
            let byte: u8 = if j == n_bytes - 1 && tail != 0 {
                joined & (0xFFu8 << (8 - tail))
            } else {
                joined
            };
            proof {
                assert forall|k: u8| k < 8 implies #[trigger] byte_bit(byte, k) == (8 * j + k < size
                    && self@[i + 8 * j + k]) by {
                    lemma_window_bit(hi, lo, shift, k);
                    lemma_zero_byte((shift + k - 8) as u8);
                    if j == n_bytes - 1 && tail != 0 {
                        lemma_mask_byte_bit(joined, tail, k);
                    }
                }
            }
            sub.push(byte);
            j += 1;
        }
        let last_byte_len: u8 = if tail == 0 {
            8
        } else {
            tail
        };
        let r = RawBitVector { byte_vec: sub, last_byte_len };
        proof {
            assert(r@ =~= self@.subrange(i as int, i + size));
        }
        r
    }

    /// Returns the bits as a 32-bit word, first bit on top, zero-filled below.
    pub fn as_u32(&self) -> (r: u32)
        requires
            self.wf(),
            self@.len() <= 32,
        ensures
            word_bits(r) == self@ + zeros((32 - self@.len()) as nat),
    {
        let n: usize = self.byte_vec.len();
        let b0: u8 = self.byte_vec[0];
        let b1: u8 = if n > 1 {
            self.byte_vec[1]
        } else {
            0
        };
        let b2: u8 = if n > 2 {
            self.byte_vec[2]
        } else {
            0
        };
        let b3: u8 = if n > 3 {
            self.byte_vec[3]
        } else {
            0
        };
        let r: u32 = ((b0 as u32) << 24) | ((b1 as u32) << 16) | ((b2 as u32) << 8) | (b3 as u32);
        proof {
            assert forall|k: int| 0 <= k < 32 implies #[trigger] word_bit(r, k as u32) == (k
                < self@.len() && self@[k]) by {
                lemma_pack_bit(b0, b1, b2, b3, k as u32);
                lemma_zero_byte((k % 8) as u8);
                assert(r == pack(b0, b1, b2, b3));
                assert(((k as u32) % 8) as u8 == (k % 8) as u8);
                if k >= self@.len() && k / 8 < n {
                    assert(k / 8 == n - 1);
                    assert(!byte_bit(self.byte_vec@.last(), (k % 8) as u8));
                }
            }
            assert(word_bits(r) =~= self@ + zeros((32 - self@.len()) as nat));
        }
        r
    }
}

} // verus!
