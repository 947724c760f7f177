//! How the length of a bit sequence fixes the layout of its rank index: the
//! sizes of chunks and blocks, how many of each there are, and where a bit
//! lies among them.

use vstd::prelude::*;
use vstd::arithmetic::div_mod::{
    lemma_div_is_ordered, lemma_fundamental_div_mod, lemma_fundamental_div_mod_converse,
};
use vstd::arithmetic::power2::{lemma2_to64, lemma2_to64_rest, lemma_pow2_unfold, pow2};

verus! {

/// The integer part of the base-2 logarithm of `n`; 0 for `n <= 1`.
pub open spec fn floor_log2(n: nat) -> nat
    decreases n,
{
    if n <= 1 {
        0
    } else {
        1 + floor_log2(n / 2)
    }
}

/// Size of a chunk for a sequence of `n` bits: the square of `floor_log2(n)`,
/// and at least 1.
pub open spec fn chunk_size_for(n: nat) -> nat {
    let lg = floor_log2(n);
    if lg * lg == 0 {
        1
    } else {
        lg * lg
    }
}

/// Size of a block for a sequence of `n` bits: half of `floor_log2(n)`, and
/// at least 1.
pub open spec fn block_size_for(n: nat) -> nat {
    let lg = floor_log2(n);
    if lg / 2 == 0 {
        1
    } else {
        lg / 2
    }
}

/// Number of pieces of `d` items needed to cover `n` items.
pub open spec fn div_ceil(n: nat, d: nat) -> nat {
    if n % d == 0 {
        n / d
    } else {
        n / d + 1
    }
}

/// The logarithm of a number below `2^m` is below `m`.
pub proof fn lemma_floor_log2_bound(n: nat, m: nat)
    requires
        n < pow2(m),
        m >= 1,
    ensures
        floor_log2(n) < m,
    decreases m,
{
    if n > 1 {
        lemma_pow2_unfold(m);
        if m == 1 {
            lemma2_to64();
        } else {
            lemma_floor_log2_bound(n / 2, (m - 1) as nat);
        }
    }
}

/// Piece `c` of a cover by pieces of `d` items starts inside the `n` items.
pub proof fn lemma_piece_starts_inside(n: nat, d: nat, c: nat)
    requires
        d > 0,
        c < div_ceil(n, d),
    ensures
        c * d < n,
{
    lemma_fundamental_div_mod(n as int, d as int);
    let q = n / d;
    if c < q {
        assert(c * d <= (q - 1) * d) by (nonlinear_arith)
            requires
                c <= q - 1,
                d > 0,
        ;
        assert((q - 1) * d == q * d - d) by (nonlinear_arith);
        assert(d * q == q * d) by (nonlinear_arith);
    } else {
        assert(c == q);
        assert(d * q == q * d) by (nonlinear_arith);
    }
}

/// A piece that starts inside the `n` items is one of the pieces of the cover.
pub proof fn lemma_piece_inside_counts(n: nat, d: nat, c: nat)
    requires
        d > 0,
        c * d < n,
    ensures
        c < div_ceil(n, d),
{
    lemma_fundamental_div_mod(n as int, d as int);
    let q = n / d;
    assert(d * q == q * d) by (nonlinear_arith);
    if c >= q + 1 {
        assert(c * d >= (q + 1) * d) by (nonlinear_arith)
            requires
                c >= q + 1,
                d > 0,
        ;
        assert((q + 1) * d == q * d + d) by (nonlinear_arith);
    }
}

/// The pieces of a cover reach to the end of the `n` items.
pub proof fn lemma_cover_reaches_end(n: nat, d: nat)
    requires
        d > 0,
    ensures
        div_ceil(n, d) * d >= n,
        n > 0 ==> div_ceil(n, d) >= 1,
{
    lemma_fundamental_div_mod(n as int, d as int);
    let q = n / d;
    assert(d * q == q * d) by (nonlinear_arith);
    assert((q + 1) * d == q * d + d) by (nonlinear_arith);
    if n > 0 && q == 0 {
        assert(n % d == n);
    }
}

/// A block is never larger than a chunk.
pub proof fn lemma_block_fits_chunk(n: nat)
    ensures
        1 <= block_size_for(n) <= chunk_size_for(n),
{
    let lg = floor_log2(n);
    assert(lg <= lg * lg) by (nonlinear_arith)
        requires
            lg >= 0,
    ;
}

/// For a length of 64 bits a block has at most 31 bits and a chunk at most
/// `63 * 63`.
pub proof fn lemma_sizes_bounded(n: nat)
    requires
        n <= u64::MAX,
    ensures
        block_size_for(n) <= 31,
        chunk_size_for(n) <= 63 * 63,
{
    lemma2_to64_rest();
    lemma_floor_log2_bound(n, 64);
    let lg = floor_log2(n);
    assert(lg * lg <= 63 * 63) by (nonlinear_arith)
        requires
            0 <= lg <= 63,
    ;
}

/// Number of block entries for `n` bits: `chunk_size / block_size` for each
/// full chunk, and for the bits left over as many as cover them, but no more
/// than for a full chunk.
pub open spec fn blocks_needed(n: nat, chunk_size: nat, block_size: nat) -> nat {
    let per_chunk = chunk_size / block_size;
    let in_last = div_ceil(n % chunk_size, block_size);
    (n / chunk_size) * per_chunk + if in_last <= per_chunk {
        in_last
    } else {
        per_chunk
    }
}

/// There are no more block entries than bits.
pub proof fn lemma_blocks_needed_bound(n: nat, chunk_size: nat, block_size: nat)
    requires
        1 <= block_size <= chunk_size,
    ensures
        blocks_needed(n, chunk_size, block_size) <= n,
{
    let per = chunk_size / block_size;
    let q = n / chunk_size;
    let rest = n % chunk_size;
    lemma_fundamental_div_mod(n as int, chunk_size as int);
    lemma_fundamental_div_mod(chunk_size as int, block_size as int);
    lemma_fundamental_div_mod(rest as int, block_size as int);
    assert(per <= chunk_size) by (nonlinear_arith)
        requires
            chunk_size == block_size * per + chunk_size % block_size,
            chunk_size % block_size >= 0,
            block_size >= 1,
            per >= 0,
    ;
    assert(q * per <= q * chunk_size) by (nonlinear_arith)
        requires
            per <= chunk_size,
            q >= 0,
    ;
    assert(chunk_size * q == q * chunk_size) by (nonlinear_arith);
    assert(rest / block_size <= rest - rest % block_size) by (nonlinear_arith)
        requires
            rest == block_size * (rest / block_size) + rest % block_size,
            block_size >= 1,
            rest / block_size >= 0,
    ;
}

/// A block of a chunk that starts inside the `n` bits has an entry, at the
/// index `c * per_chunk + b`.
pub proof fn lemma_block_index(n: nat, chunk_size: nat, block_size: nat, c: nat, b: nat)
    requires
        1 <= block_size <= chunk_size,
        b < chunk_size / block_size,
        c * chunk_size + b * block_size < n,
    ensures
        c * (chunk_size / block_size) + b < blocks_needed(n, chunk_size, block_size),
        ((c * (chunk_size / block_size) + b) as int) / ((chunk_size / block_size) as int) == c,
        ((c * (chunk_size / block_size) + b) as int) % ((chunk_size / block_size) as int) == b,
{
    let per = chunk_size / block_size;
    let q = n / chunk_size;
    lemma_fundamental_div_mod_converse((c * per + b) as int, per as int, c as int, b as int);
    lemma_fundamental_div_mod(n as int, chunk_size as int);
    assert(chunk_size * q == q * chunk_size) by (nonlinear_arith);
    assert(b * block_size >= 0) by (nonlinear_arith)
        requires
            b >= 0,
            block_size >= 0,
    ;
    lemma_piece_inside_counts(n, chunk_size, c);
    if c < q {
        assert((c + 1) * per <= q * per) by (nonlinear_arith)
            requires
                c + 1 <= q,
                per >= 0,
        ;
        assert((c + 1) * per == c * per + per) by (nonlinear_arith);
    } else {
        assert(c == q);
        lemma_piece_inside_counts(n % chunk_size, block_size, b);
    }
}

/// Every entry stands for a block that starts inside the `n` bits.
pub proof fn lemma_block_inside(n: nat, chunk_size: nat, block_size: nat, g: nat)
    requires
        1 <= block_size <= chunk_size,
        g < blocks_needed(n, chunk_size, block_size),
    ensures
        (g / (chunk_size / block_size)) * chunk_size + (g % (chunk_size / block_size)) * block_size
            < n,
        chunk_size / block_size >= 1,
{
    let per = chunk_size / block_size;
    let q = n / chunk_size;
    let rest = n % chunk_size;
    lemma_fundamental_div_mod(chunk_size as int, block_size as int);
    assert(block_size * per == per * block_size) by (nonlinear_arith);
    assert(per >= 1) by (nonlinear_arith)
        requires
            chunk_size == per * block_size + chunk_size % block_size,
            0 <= chunk_size % block_size < block_size,
            block_size <= chunk_size,
            per >= 0,
    ;
    lemma_fundamental_div_mod(n as int, chunk_size as int);
    assert(chunk_size * q == q * chunk_size) by (nonlinear_arith);
    lemma_fundamental_div_mod(g as int, per as int);
    let c = g / per;
    let b = g % per;
    assert(per * c == c * per) by (nonlinear_arith);
    assert(b * block_size <= (per - 1) * block_size) by (nonlinear_arith)
        requires
            0 <= b <= per - 1,
            block_size >= 0,
    ;
    assert((per - 1) * block_size == per * block_size - block_size) by (nonlinear_arith);
    if c < q {
        assert((c + 1) * chunk_size <= q * chunk_size) by (nonlinear_arith)
            requires
                c + 1 <= q,
                chunk_size >= 0,
        ;
        assert((c + 1) * chunk_size == c * chunk_size + chunk_size) by (nonlinear_arith);
    } else {
        if c > q {
            assert(c * per >= (q + 1) * per) by (nonlinear_arith)
                requires
                    c >= q + 1,
                    per >= 0,
            ;
            assert((q + 1) * per == q * per + per) by (nonlinear_arith);
        }
        assert(c == q);
        lemma_piece_starts_inside(rest, block_size, b);
    }
}

/// Where bit `i` of `n` bits lies: in block `b` of chunk `c`, which starts
/// at bit `c * chunk_size + b * block_size`.
pub proof fn lemma_locate(n: nat, chunk_size: nat, block_size: nat, i: nat)
    requires
        1 <= block_size <= chunk_size,
        i < n,
    ensures
        ({
            let c = i / chunk_size;
            let b = (i - c * chunk_size) / (block_size as int);
            let per = chunk_size / block_size;
            let pos = c * chunk_size + b * block_size;
            &&& c * chunk_size <= pos <= i < pos + block_size
            &&& i < c * chunk_size + chunk_size
            &&& 0 <= b <= per
            &&& c < div_ceil(n, chunk_size)
            &&& b >= 1 ==> {
                &&& c * per + b - 1 < blocks_needed(n, chunk_size, block_size)
                &&& 0 <= c * per + b - 1
                &&& (c * per + b - 1) / (per as int) == c
                &&& (c * per + b - 1) % (per as int) == b - 1
            }
        }),
{
    let c = i / chunk_size;
    let start = c * chunk_size;
    lemma_fundamental_div_mod(i as int, chunk_size as int);
    assert(chunk_size * c == c * chunk_size) by (nonlinear_arith);
    let off = (i - start) as nat;
    let b = off / block_size;
    let per = chunk_size / block_size;
    lemma_fundamental_div_mod(off as int, block_size as int);
    assert(block_size * b == b * block_size) by (nonlinear_arith);
    lemma_div_is_ordered(off as int, chunk_size as int, block_size as int);
    lemma_piece_inside_counts(n, chunk_size, c);
    if b >= 1 {
        assert((b - 1) * block_size == b * block_size - block_size) by (nonlinear_arith);
        lemma_block_index(n, chunk_size, block_size, c, (b - 1) as nat);
        assert(c * per >= 0) by (nonlinear_arith)
            requires
                c >= 0,
                per >= 0,
        ;
    }
}

/// Computes the integer part of the base-2 logarithm of `n`.
pub fn calc_log2(n: u64) -> (r: u8)
    ensures
        r == floor_log2(n as nat),
        r <= 63,
{
    let mut rest: u64 = n;
    let mut lg: u8 = 0;
    proof {
        lemma2_to64_rest();
        lemma_floor_log2_bound(n as nat, 64);
    }
    while rest > 1
        invariant
            lg + floor_log2(rest as nat) == floor_log2(n as nat),
            floor_log2(n as nat) <= 63,
        decreases rest,
    {
        rest = rest / 2;
        lg = lg + 1;
    }
    lg
}

} // verus!
