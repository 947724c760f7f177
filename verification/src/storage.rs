//! How much the rank index takes beside the bits themselves, and why that is
//! little: for `n` bits it stays within a fixed multiple of `n / log2(n)`.

use vstd::prelude::*;
use vstd::arithmetic::div_mod::lemma_fundamental_div_mod;
use vstd::arithmetic::power2::{lemma2_to64, lemma_pow2_adds, lemma_pow2_unfold, pow2};
use crate::sizing::{block_size_for, blocks_needed, chunk_size_for, div_ceil, floor_log2};

verus! {

/// Bits that the rank index of `n` bits takes: 64 for each chunk entry, 16
/// for each block entry, and 8 for each entry of the popcount table.
pub open spec fn index_bits(n: nat) -> nat {
    let chunk_size = chunk_size_for(n);
    let block_size = block_size_for(n);
    64 * div_ceil(n, chunk_size) + 16 * blocks_needed(n, chunk_size, block_size) + 8 * pow2(
        block_size,
    )
}

/// A positive number lies between the power of 2 of its logarithm and the
/// next one.
pub proof fn lemma_floor_log2_brackets(n: nat)
    requires
        n >= 1,
    ensures
        pow2(floor_log2(n)) <= n < 2 * pow2(floor_log2(n)),
    decreases n,
{
    if n == 1 {
        lemma2_to64();
    } else {
        lemma_floor_log2_brackets(n / 2);
        lemma_pow2_unfold(floor_log2(n));
    }
}

/// A number is below its power of 2.
pub proof fn lemma_below_pow2(e: nat)
    ensures
        e < pow2(e),
    decreases e,
{
    if e == 0 {
        lemma2_to64();
    } else {
        lemma_below_pow2((e - 1) as nat);
        lemma_pow2_unfold(e);
    }
}

/// A square is at most twice the power of 2.
pub proof fn lemma_square_below_pow2(e: nat)
    ensures
        e * e <= 2 * pow2(e),
    decreases e,
{
    lemma2_to64();
    if e <= 3 {
        assert(e * e <= 2 * pow2(e)) by {
            if e == 0 {
            } else if e == 1 {
            } else if e == 2 {
            } else {
                assert(e == 3);
            }
        }
    } else {
        let d = (e - 1) as nat;
        lemma_square_below_pow2(d);
        lemma_pow2_unfold(e);
        assert(e * e <= 2 * (d * d)) by (nonlinear_arith)
            requires
                e == d + 1,
                d >= 3,
        ;
    }
}

/// The chunk entries of `n` bits, times the logarithm of `n`, are at most
/// `n` and that logarithm.
proof fn lemma_chunks_are_few(n: nat)
    requires
        floor_log2(n) >= 1,
    ensures
        div_ceil(n, chunk_size_for(n)) * floor_log2(n) <= n + floor_log2(n),
{
    let lg = floor_log2(n);
    let c = chunk_size_for(n);
    let q = n / c;
    lemma_fundamental_div_mod(n as int, c as int);
    assert(lg <= c) by (nonlinear_arith)
        requires
            lg >= 1,
            c == lg * lg || c == 1 && lg * lg == 0,
    ;
    assert(q * lg <= q * c) by (nonlinear_arith)
        requires
            lg <= c,
            q >= 0,
    ;
    assert(c * q == q * c) by (nonlinear_arith);
    assert((q + 1) * lg == q * lg + lg) by (nonlinear_arith);
    assert(div_ceil(n, c) * lg <= (q + 1) * lg) by (nonlinear_arith)
        requires
            div_ceil(n, c) <= q + 1,
            lg >= 0,
    ;
}

/// The block entries of `n` bits, times the logarithm of `n`, are at most
/// 9 times `n`.
proof fn lemma_blocks_are_few(n: nat)
    requires
        n >= 1,
        floor_log2(n) >= 1,
    ensures
        blocks_needed(n, chunk_size_for(n), block_size_for(n)) * floor_log2(n) <= 9 * n,
{
    let lg = floor_log2(n);
    let c = chunk_size_for(n);
    let b = block_size_for(n);
    let per = c / b;
    let q = n / c;
    let total = blocks_needed(n, c, b);
    lemma_fundamental_div_mod(n as int, c as int);
    lemma_fundamental_div_mod(c as int, b as int);
    assert(c * q == q * c) by (nonlinear_arith);
    assert(b * per == per * b) by (nonlinear_arith);
    // A chunk is at most twice `n`.
    lemma_square_below_pow2(lg);
    lemma_floor_log2_brackets(n);
    assert(c <= 2 * n);
    // The logarithm is at most three blocks.
    assert(lg <= 3 * b);
    // A full chunk's entries, times the logarithm, are at most three chunks.
    assert(per * lg <= 3 * c) by (nonlinear_arith)
        requires
            lg <= 3 * b,
            per * b <= c,
            per >= 0,
            lg >= 0,
    ;
    assert(q * (per * lg) <= q * (3 * c)) by (nonlinear_arith)
        requires
            per * lg <= 3 * c,
            q >= 0,
    ;
    assert(q * (3 * c) == 3 * (q * c)) by (nonlinear_arith);
    assert((q * per + per) * lg == q * (per * lg) + per * lg) by (nonlinear_arith);
    assert(q * per >= 0) by (nonlinear_arith)
        requires
            q >= 0,
            per >= 0,
    ;
    assert(total * lg <= (q * per + per) * lg) by (nonlinear_arith)
        requires
            total <= q * per + per,
            lg >= 0,
    ;
}

/// The entries of the popcount table for `n` bits, times the logarithm of
/// `n`, are at most twice `n`.
proof fn lemma_table_is_small(n: nat)
    requires
        n >= 1,
        floor_log2(n) >= 1,
    ensures
        pow2(block_size_for(n)) * floor_log2(n) <= 2 * n,
{
    let lg = floor_log2(n);
    let b = block_size_for(n);
    let p = pow2(b);
    lemma_floor_log2_brackets(n);
    lemma_below_pow2(b);
    lemma2_to64();
    if lg == 1 {
        assert(p == 2);
        assert(p * lg == 2) by (nonlinear_arith)
            requires
                p == 2,
                lg == 1,
        ;
    } else {
        // Two blocks fit in the logarithm, so the table squared fits in `n`.
        lemma_pow2_adds(b, b);
        if 2 * b < lg {
            vstd::arithmetic::power2::lemma_pow2_strictly_increases(2 * b, lg);
        }
        assert(p * p <= n);
        assert(lg <= 2 * p);
        assert(p * lg <= p * (2 * p)) by (nonlinear_arith)
            requires
                lg <= 2 * p,
                p >= 0,
        ;
        assert(p * (2 * p) == 2 * (p * p)) by (nonlinear_arith);
    }
}

/// The rank index is small beside the bits: for `n` bits it takes at most
/// `288 * n / log2(n)` bits, a share of `n` that falls towards 0 as `n`
/// grows.
pub proof fn lemma_index_is_small(n: nat)
    requires
        n >= 1,
    ensures
        index_bits(n) * floor_log2(n) <= 288 * n,
{
    let lg = floor_log2(n);
    if lg == 0 {
        assert(index_bits(n) * lg == 0) by (nonlinear_arith)
            requires
                lg == 0,
        ;
    } else {
        let chunks = div_ceil(n, chunk_size_for(n));
        let blocks = blocks_needed(n, chunk_size_for(n), block_size_for(n));
        let table = pow2(block_size_for(n));
        lemma_chunks_are_few(n);
        lemma_blocks_are_few(n);
        lemma_table_is_small(n);
        lemma_below_pow2(lg);
        lemma_floor_log2_brackets(n);
        assert((64 * chunks + 16 * blocks + 8 * table) * lg == 64 * (chunks * lg) + 16 * (blocks
            * lg) + 8 * (table * lg)) by (nonlinear_arith);
    }
}

} // verus!
