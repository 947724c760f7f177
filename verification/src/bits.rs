//! The mathematical model: a bit sequence is a `Seq<bool>` whose index 0 is
//! the first (most significant) bit. This module says what popcount, rank,
//! select and the numeric value of such a sequence are, and how packed bytes
//! and words are read as bit sequences.

use vstd::prelude::*;
use vstd::arithmetic::power2::{lemma_pow2_unfold, pow2};

verus! {

/// Number of `true` entries of `s`.
pub open spec fn popcount_of(s: Seq<bool>) -> nat
    decreases s.len(),
{
    if s.len() == 0 {
        0
    } else {
        popcount_of(s.drop_last()) + if s.last() {
            1nat
        } else {
            0nat
        }
    }
}

/// Number of ones among the bits `[0, i]` of `s`, bit `i` included.
pub open spec fn rank_of(s: Seq<bool>, i: int) -> nat {
    popcount_of(s.take(i + 1))
}

/// Whether `r` is what `select(k)` answers on the bits `s`: index 0 for
/// `k == 0`; otherwise the least index whose rank is `k`, or nothing where no
/// index has rank `k`.
pub open spec fn is_select(s: Seq<bool>, k: nat, r: Option<int>) -> bool {
    if k == 0 {
        r == Some(0int)
    } else {
        match r {
            Some(i) => {
                &&& 0 <= i < s.len()
                &&& rank_of(s, i) == k
                &&& forall|j: int| 0 <= j < i ==> rank_of(s, j) != k
            },
            None => forall|j: int| 0 <= j < s.len() ==> rank_of(s, j) != k,
        }
    }
}

/// Number of ones in the binary representation of `k`.
pub open spec fn ones_in(k: nat) -> nat
    decreases k,
{
    if k == 0 {
        0
    } else {
        k % 2 + ones_in(k / 2)
    }
}

/// The number that `s` spells in binary, most significant bit first.
pub open spec fn bits_value(s: Seq<bool>) -> nat
    decreases s.len(),
{
    if s.len() == 0 {
        0
    } else {
        2 * bits_value(s.drop_last()) + if s.last() {
            1nat
        } else {
            0nat
        }
    }
}

/// Bit `k` of the byte `b`, counted from the most significant bit.
pub open spec fn byte_bit(b: u8, k: u8) -> bool {
    b & (0x80u8 >> k) != 0
}

/// The eight bits of `b`, most significant first.
pub open spec fn byte_bits(b: u8) -> Seq<bool> {
    Seq::new(8, |k: int| byte_bit(b, k as u8))
}

/// Bit `k` of the word `w`, counted from the most significant bit.
pub open spec fn word_bit(w: u32, k: u32) -> bool {
    w & (0x8000_0000u32 >> k) != 0
}

/// The thirty-two bits of `w`, most significant first.
pub open spec fn word_bits(w: u32) -> Seq<bool> {
    Seq::new(32, |k: int| word_bit(w, k as u32))
}

/// The first `n` bits of the packed bytes `bytes`: bit `i` is bit `i % 8` of
/// byte `i / 8`, each byte read from its most significant bit.
pub open spec fn bits_of(bytes: Seq<u8>, n: nat) -> Seq<bool> {
    Seq::new(n, |i: int| byte_bit(bytes[i / 8], (i % 8) as u8))
}

/// `n` zero bits.
pub open spec fn zeros(n: nat) -> Seq<bool> {
    Seq::new(n, |i: int| false)
}

/// `popcount_of` adds up over concatenation.
pub proof fn lemma_popcount_concat(a: Seq<bool>, b: Seq<bool>)
    ensures
        popcount_of(a + b) == popcount_of(a) + popcount_of(b),
    decreases b.len(),
{
    if b.len() == 0 {
        assert(a + b =~= a);
    } else {
        assert((a + b).drop_last() =~= a + b.drop_last());
        lemma_popcount_concat(a, b.drop_last());
    }
}

/// The ones of a prefix are those of a shorter prefix and of the bits between.
pub proof fn lemma_popcount_split(s: Seq<bool>, i: int, j: int)
    requires
        0 <= i <= j <= s.len(),
    ensures
        popcount_of(s.take(j)) == popcount_of(s.take(i)) + popcount_of(s.subrange(i, j)),
{
    assert(s.take(j) =~= s.take(i) + s.subrange(i, j));
    lemma_popcount_concat(s.take(i), s.subrange(i, j));
}

/// The ones of a range are those of its two halves.
pub proof fn lemma_popcount_range_split(s: Seq<bool>, i: int, m: int, j: int)
    requires
        0 <= i <= m <= j <= s.len(),
    ensures
        popcount_of(s.subrange(i, j)) == popcount_of(s.subrange(i, m)) + popcount_of(
            s.subrange(m, j),
        ),
{
    assert(s.subrange(i, j) =~= s.subrange(i, m) + s.subrange(m, j));
    lemma_popcount_concat(s.subrange(i, m), s.subrange(m, j));
}

/// A sequence has no more ones than bits.
pub proof fn lemma_popcount_bound(s: Seq<bool>)
    ensures
        popcount_of(s) <= s.len(),
    decreases s.len(),
{
    if s.len() > 0 {
        lemma_popcount_bound(s.drop_last());
    }
}

/// A sequence without a set bit has no ones.
pub proof fn lemma_popcount_none(s: Seq<bool>)
    requires
        forall|i: int| 0 <= i < s.len() ==> !s[i],
    ensures
        popcount_of(s) == 0,
    decreases s.len(),
{
    if s.len() > 0 {
        lemma_popcount_none(s.drop_last());
    }
}

/// A longer prefix has at least as many ones.
pub proof fn lemma_rank_monotone(s: Seq<bool>, i: int, j: int)
    requires
        0 <= i <= j < s.len(),
    ensures
        rank_of(s, i) <= rank_of(s, j),
{
    lemma_popcount_split(s, i + 1, j + 1);
}

/// One more bit adds one to the rank exactly when that bit is set.
pub proof fn lemma_rank_step(s: Seq<bool>, i: int)
    requires
        0 <= i < s.len(),
    ensures
        rank_of(s, i) == (if i == 0 {
            0
        } else {
            rank_of(s, i - 1)
        }) + (if s[i] {
            1nat
        } else {
            0nat
        }),
{
    assert(s.take(i + 1).drop_last() =~= s.take(i));
}

/// The binary representation of the value of `s` has the ones of `s`.
pub proof fn lemma_ones_in_value(s: Seq<bool>)
    ensures
        ones_in(bits_value(s)) == popcount_of(s),
    decreases s.len(),
{
    if s.len() > 0 {
        lemma_ones_in_value(s.drop_last());
        let v = bits_value(s.drop_last());
        let b = if s.last() {
            1nat
        } else {
            0nat
        };
        assert((2 * v + b) % 2 == b);
        assert((2 * v + b) / 2 == v);
    }
}

/// A string of `m` bits spells a number below `2^m`.
pub proof fn lemma_bits_value_bound(s: Seq<bool>)
    ensures
        bits_value(s) < pow2(s.len()),
    decreases s.len(),
{
    if s.len() == 0 {
        vstd::arithmetic::power2::lemma2_to64();
    } else {
        lemma_bits_value_bound(s.drop_last());
        lemma_pow2_unfold(s.len());
    }
}

/// Shifting one bit less far to the right doubles the result and brings in
/// the next bit of the word.
proof fn lemma_word_shift_step(w: u32, t: u32)
    by (bit_vector)
    requires
        t < 32,
    ensures
        (w as u64) >> ((31 - t) as u64) == 2 * ((w as u64) >> ((32 - t) as u64)) + (if word_bit(
            w,
            t,
        ) {
            1u64
        } else {
            0u64
        }),
{
}

/// A word shifted right all the way is zero.
proof fn lemma_word_shift_all(w: u32)
    by (bit_vector)
    ensures
        (w as u64) >> 32u64 == 0,
{
}

/// Shifting a word right by less than its width agrees with shifting its
/// 64-bit extension.
proof fn lemma_word_shift_narrow(w: u32, sh: u32)
    by (bit_vector)
    requires
        sh < 32,
    ensures
        (w >> sh) as u64 == (w as u64) >> (sh as u64),
{
}

/// The first `t` bits of a word spell the word shifted right by `32 - t`.
pub proof fn lemma_word_prefix_value(w: u32, t: nat)
    requires
        1 <= t <= 32,
    ensures
        bits_value(word_bits(w).take(t as int)) == w >> ((32 - t) as u32),
{
    lemma_word_prefix_value_wide(w, t);
    lemma_word_shift_narrow(w, (32 - t) as u32);
}

proof fn lemma_word_prefix_value_wide(w: u32, t: nat)
    requires
        t <= 32,
    ensures
        bits_value(word_bits(w).take(t as int)) == (w as u64) >> ((32 - t) as u64),
    decreases t,
{
    let s = word_bits(w).take(t as int);
    if t == 0 {
        lemma_word_shift_all(w);
    } else {
        lemma_word_prefix_value_wide(w, (t - 1) as nat);
        assert(s.drop_last() =~= word_bits(w).take(t - 1));
        assert(s.last() == word_bit(w, (t - 1) as u32));
        lemma_word_shift_step(w, (t - 1) as u32);
    }
}

/// A value of `m` bits has at most `m` ones.
pub proof fn lemma_ones_in_bound(k: nat, m: nat)
    requires
        k < pow2(m),
    ensures
        ones_in(k) <= m,
    decreases m,
{
    if k > 0 {
        if m == 0 {
            assert(pow2(0) == 1) by {
                vstd::arithmetic::power2::lemma2_to64();
            }
        } else {
            lemma_pow2_unfold(m);
            lemma_ones_in_bound(k / 2, (m - 1) as nat);
        }
    }
}

} // verus!
