//! What holds of `access`, `rank` and `select` taken together, of what a
//! builder yields, and of the entries of the rank index. Each statement is
//! over the bit sequence that a bit vector holds, as the contracts of the
//! queries are.

use vstd::prelude::*;
use vstd::arithmetic::div_mod::{lemma_fundamental_div_mod, lemma_fundamental_div_mod_converse};
use crate::bit_vector::bit_vector_builder::built_bits;
use crate::bit_vector::bit_vector_string::BitVectorString;
use crate::bit_vector::blocks::{block_value, Blocks};
use crate::bit_vector::chunks::{chunk_value, lemma_chunk_value_before, Chunks};
use crate::bit_vector::index::BitVector;
use crate::bits::{
    is_select, lemma_popcount_range_split, lemma_popcount_split, lemma_rank_monotone,
    lemma_rank_step, popcount_of, rank_of, zeros,
};
use crate::sizing::{
    blocks_needed, chunk_size_for, div_ceil, floor_log2, lemma_block_fits_chunk,
    lemma_block_inside, lemma_cover_reaches_end, lemma_piece_inside_counts,
    lemma_piece_starts_inside,
};
use crate::storage::{index_bits, lemma_index_is_small};

verus! {

/// Every rank from 1 to the popcount of `s` is the rank of some index.
pub proof fn lemma_rank_reaches(s: Seq<bool>, k: nat)
    requires
        1 <= k <= popcount_of(s),
    ensures
        exists|i: int| 0 <= i < s.len() && rank_of(s, i) == k,
    decreases s.len(),
{
    let shorter = s.drop_last();
    if k <= popcount_of(shorter) {
        lemma_rank_reaches(shorter, k);
        let i = choose|i: int| 0 <= i < shorter.len() && rank_of(shorter, i) == k;
        assert(shorter.take(i + 1) =~= s.take(i + 1));
        assert(0 <= i < s.len() && rank_of(s, i) == k);
    } else {
        let i = s.len() - 1;
        assert(s.take(i + 1) =~= s);
        assert(0 <= i < s.len() && rank_of(s, i) == k);
    }
}

/// From one index to the next the rank grows by 0 or 1, and by 1 exactly
/// where the bit at the next index is set.
pub proof fn law_rank_step(bv: BitVector, i: u64)
    requires
        bv.wf(),
        1 <= i < bv@.len(),
    ensures
        rank_of(bv@, i as int) - rank_of(bv@, i - 1) == (if bv@[i as int] {
            1int
        } else {
            0int
        }),
{
    lemma_rank_step(bv@, i as int);
}

/// The rank of index 0 is 1 where bit 0 is set, and 0 where it is not.
pub proof fn law_rank_first(bv: BitVector)
    requires
        bv.wf(),
    ensures
        rank_of(bv@, 0) == (if bv@[0] {
            1nat
        } else {
            0nat
        }),
{
    bv.lemma_len_bounds();
    lemma_rank_step(bv@, 0);
}

/// The rank never decreases from one index to a later one.
pub proof fn law_rank_monotone(bv: BitVector, i: u64, j: u64)
    requires
        bv.wf(),
        i <= j < bv@.len(),
    ensures
        rank_of(bv@, i as int) <= rank_of(bv@, j as int),
{
    lemma_rank_monotone(bv@, i as int, j as int);
}

/// The rank of the last index is the popcount of all the bits.
pub proof fn law_rank_last(bv: BitVector)
    requires
        bv.wf(),
    ensures
        rank_of(bv@, bv@.len() - 1) == popcount_of(bv@),
{
    assert(bv@.take(bv@.len() - 1 + 1) =~= bv@);
}

/// Where `select(k)` answers an index, the rank of that index is `k`; it
/// answers one for every `k` from 1 to the popcount, and none for a `k` above
/// the popcount. The case `k == 0` on a vector whose bit 0 is set is left
/// out: there `select` answers index 0, whose rank is 1.
pub proof fn law_rank_of_select(bv: BitVector, k: u64, r: Option<int>)
    requires
        bv.wf(),
        is_select(bv@, k as nat, r),
        k >= 1 || !bv@[0],
    ensures
        r matches Some(i) ==> 0 <= i < bv@.len() && rank_of(bv@, i) == k,
        1 <= k <= popcount_of(bv@) ==> r is Some,
        k > popcount_of(bv@) ==> r is None,
{
    bv.lemma_len_bounds();
    let s = bv@;
    if k == 0 {
        lemma_rank_step(s, 0);
    } else if k <= popcount_of(s) {
        lemma_rank_reaches(s, k as nat);
    } else {
        if let Some(i) = r {
            lemma_rank_monotone(s, i, s.len() - 1);
            assert(s.take(s.len() - 1 + 1) =~= s);
        }
    }
}

/// For `k >= 1`, `select(k)` answers the least index whose rank is `k`: no
/// earlier index has that rank. `select(0)` answers index 0.
pub proof fn law_select_least(bv: BitVector, k: u64, r: Option<int>, j: int)
    requires
        bv.wf(),
        is_select(bv@, k as nat, r),
    ensures
        k == 0 ==> r == Some(0int),
        k >= 1 && r is Some && 0 <= j < r->0 ==> rank_of(bv@, j) != k,
        k >= 1 && r is None && 0 <= j < bv@.len() ==> rank_of(bv@, j) != k,
{
}

/// `select(k)` has one answer only.
pub proof fn law_select_unique(bv: BitVector, k: u64, r1: Option<int>, r2: Option<int>)
    requires
        bv.wf(),
        is_select(bv@, k as nat, r1),
        is_select(bv@, k as nat, r2),
    ensures
        r1 == r2,
{
}

/// A bit vector of `n` bits takes `n` bits and little more: fewer than 8
/// bits of padding, and a rank index of at most `288 * n / log2(n)` bits,
/// which is a share of `n` that falls towards 0 as `n` grows.
pub proof fn law_storage_is_succinct(bv: BitVector)
    requires
        bv.wf(),
    ensures
        bv.storage_bits() < bv@.len() + 8 + index_bits(bv@.len()),
        index_bits(bv@.len()) * floor_log2(bv@.len()) <= 288 * bv@.len(),
{
    bv.lemma_len_bounds();
    bv.lemma_storage_bits();
    lemma_index_is_small(bv@.len());
}

/// A bit vector built from a validated string alone holds the bits that the
/// string spells: bit `i` is set exactly where character `i` is `'1'`.
pub proof fn law_pattern_round_trip(p: BitVectorString)
    requires
        p.wf(),
    ensures
        built_bits(p.bits(), Set::<u64>::empty()) == p.bits(),
        p.bits().len() == p@.len(),
        forall|i: int| 0 <= i < p@.len() ==> p.bits()[i] == (p@[i] == '1'),
{
    assert(built_bits(p.bits(), Set::<u64>::empty()) =~= p.bits());
}

/// A bit vector built from a length and a set of indices has its set bits
/// exactly at those indices.
pub proof fn law_set_indices(n: u64, marked: Set<u64>)
    requires
        n >= 1,
        forall|i: u64| marked.contains(i) ==> i < n,
    ensures
        built_bits(zeros(n as nat), marked).len() == n,
        forall|j: u64| j < n ==> built_bits(zeros(n as nat), marked)[j as int] == marked.contains(j),
        Set::new(|j: u64| j < n && built_bits(zeros(n as nat), marked)[j as int]) == marked,
{
    let built = built_bits(zeros(n as nat), marked);
    assert(Set::new(|j: u64| j < n && built[j as int]) =~= marked);
}

/// Recording an index twice yields what recording it once yields.
pub proof fn law_set_bit_idempotent(seed: Seq<bool>, marked: Set<u64>, i: u64)
    ensures
        marked.insert(i).insert(i) == marked.insert(i),
        built_bits(seed, marked.insert(i).insert(i)) == built_bits(seed, marked.insert(i)),
{
    assert(marked.insert(i).insert(i) =~= marked.insert(i));
}

/// Setting a bit twice leaves what setting it once leaves.
pub proof fn law_raw_set_bit_idempotent(bits: Seq<bool>, i: int)
    requires
        0 <= i < bits.len(),
    ensures
        bits.update(i, true).update(i, true) == bits.update(i, true),
{
    assert(bits.update(i, true).update(i, true) =~= bits.update(i, true));
}

/// The chunk entries never decrease.
pub proof fn law_chunks_monotone(chunks: Chunks, bits: Seq<bool>, c1: int, c2: int)
    requires
        chunks.describes(bits),
        0 <= c1 <= c2 < chunks@.len(),
    ensures
        chunks@[c1] <= chunks@[c2],
{
    let size = chunks.size();
    assert(chunks@[c1] == chunk_value(bits, size, c1));
    assert(chunks@[c2] == chunk_value(bits, size, c2));
    assert((c1 + 1) * size <= (c2 + 1) * size) by (nonlinear_arith)
        requires
            0 <= c1 <= c2,
            size >= 0,
    ;
    assert(0 <= (c1 + 1) * size) by (nonlinear_arith)
        requires
            0 <= c1,
            size >= 0,
    ;
    let end1 = if (c1 + 1) * size <= bits.len() {
        (c1 + 1) * size
    } else {
        bits.len() as int
    };
    let end2 = if (c2 + 1) * size <= bits.len() {
        (c2 + 1) * size
    } else {
        bits.len() as int
    };
    lemma_popcount_split(bits, end1, end2);
}

/// The last chunk entry is the popcount of all the bits.
pub proof fn law_last_chunk_is_total(chunks: Chunks, bits: Seq<bool>)
    requires
        chunks.describes(bits),
        bits.len() >= 1,
    ensures
        chunks@.len() >= 1,
        chunks@.last() == popcount_of(bits),
{
    let size = chunks.size();
    lemma_block_fits_chunk(bits.len());
    lemma_cover_reaches_end(bits.len(), size);
    let c = chunks@.len() - 1;
    assert(chunks@[c] == chunk_value(bits, size, c));
    assert(bits.take(bits.len() as int) =~= bits);
}

/// Within one chunk the block entries never decrease.
pub proof fn law_blocks_monotone(blocks: Blocks, bits: Seq<bool>, g1: int, g2: int)
    requires
        blocks.describes(bits),
        0 <= g1 <= g2 < blocks@.len(),
        g1 / ((chunk_size_for(bits.len()) / blocks.size()) as int) == g2 / ((chunk_size_for(
            bits.len(),
        ) / blocks.size()) as int),
    ensures
        blocks@[g1] <= blocks@[g2],
{
    let n = bits.len();
    let chunk_size = chunk_size_for(n);
    let size = blocks.size();
    let per = (chunk_size / size) as int;
    lemma_block_fits_chunk(n);
    lemma_block_inside(n, chunk_size, size, g1 as nat);
    lemma_block_inside(n, chunk_size, size, g2 as nat);
    lemma_fundamental_div_mod(g1, per);
    lemma_fundamental_div_mod(g2, per);
    let c = g1 / per;
    let b1 = g1 % per;
    let b2 = g2 % per;
    assert(blocks@[g1] == block_value(bits, chunk_size, size, c, b1));
    assert(blocks@[g2] == block_value(bits, chunk_size, size, c, b2));
    let start = c * chunk_size;
    assert(start >= 0) by (nonlinear_arith)
        requires
            start == c * chunk_size,
            c >= 0,
            chunk_size >= 0,
    ;
    assert(b1 * size >= 0) by (nonlinear_arith)
        requires
            b1 >= 0,
            size >= 0,
    ;
    assert((b1 + 1) * size <= (b2 + 1) * size) by (nonlinear_arith)
        requires
            0 <= b1 <= b2,
            size >= 0,
    ;
    assert((b1 + 1) * size == b1 * size + size) by (nonlinear_arith);
    let end1 = if start + (b1 + 1) * size <= n {
        start + (b1 + 1) * size
    } else {
        n as int
    };
    let end2 = if start + (b2 + 1) * size <= n {
        start + (b2 + 1) * size
    } else {
        n as int
    };
    lemma_popcount_range_split(bits, start, end1, end2);
}

/// Where the block size divides the chunk size, the last block entry of a
/// chunk is what the chunk adds to the chunk before it.
pub proof fn law_last_block_closes_chunk(chunks: Chunks, blocks: Blocks, bits: Seq<bool>, c: int)
    requires
        chunks.describes(bits),
        blocks.describes(bits),
        chunks.size() % blocks.size() == 0,
        0 <= c < chunks@.len(),
    ensures
        ({
            let per = (chunks.size() / blocks.size()) as int;
            let last = if (c + 1) * per <= blocks@.len() {
                (c + 1) * per - 1
            } else {
                blocks@.len() - 1
            };
            &&& 0 <= last < blocks@.len()
            &&& last / per == c
            &&& blocks@[last] == chunks@[c] - (if c == 0 {
                0
            } else {
                chunks@[c - 1] as int
            })
        }),
{
    let n = bits.len();
    let cs = chunks.size();
    let bs = blocks.size();
    let per = (cs / bs) as int;
    let q = (n / cs) as int;
    let rest = n % cs;
    lemma_block_fits_chunk(n);
    lemma_fundamental_div_mod(cs as int, bs as int);
    lemma_fundamental_div_mod(n as int, cs as int);
    assert(bs * per == per * bs) by (nonlinear_arith);
    assert(cs * q == q * cs) by (nonlinear_arith);
    assert(per >= 1) by (nonlinear_arith)
        requires
            cs == per * bs,
            bs <= cs,
            bs >= 1,
            per >= 0,
    ;
    lemma_piece_starts_inside(n, cs, c as nat);
    let start = c * cs;
    assert((c + 1) * cs == start + cs) by (nonlinear_arith)
        requires
            start == c * cs,
    ;
    assert((c + 1) * per == c * per + per) by (nonlinear_arith);
    assert(c * per >= 0) by (nonlinear_arith)
        requires
            c >= 0,
            per >= 0,
    ;
    // The index of the last entry of chunk `c`, and its place in the chunk.
    let b: int = if start + cs <= n {
        per - 1
    } else {
        div_ceil(rest, bs) - 1
    };
    if start + cs <= n {
        // A full chunk: `c < q`, or `c == q` with nothing left over.
        if c >= q {
            assert(c * cs >= q * cs) by (nonlinear_arith)
                requires
                    c >= q,
                    cs >= 0,
            ;
        }
        assert(c < q);
        assert((c + 1) * per <= q * per) by (nonlinear_arith)
            requires
                c + 1 <= q,
                per >= 0,
        ;
    } else {
        // The last chunk, cut short.
        if c < q {
            assert((c + 1) * cs <= q * cs) by (nonlinear_arith)
                requires
                    c + 1 <= q,
                    cs >= 0,
            ;
        }
        lemma_piece_inside_counts(n, cs, c as nat);
        assert(c == q);
        assert(rest > 0);
        lemma_cover_reaches_end(rest, bs);
        // The blocks needed for what is left are at most those of a chunk.
        if div_ceil(rest, bs) > per {
            lemma_piece_starts_inside(rest, bs, per as nat);
        }
        assert(div_ceil(rest, bs) <= per);
    }
    let last = c * per + b;
    assert(0 <= b < per);
    lemma_fundamental_div_mod_converse(last, per, c, b);
    assert(blocks@[last] == block_value(bits, cs, bs, last / per, last % per));
    assert(chunks@[c] == chunk_value(bits, cs, c));
    let end: int = if start + cs <= n {
        start + cs
    } else {
        n as int
    };
    assert((b + 1) * bs == b * bs + bs) by (nonlinear_arith);
    let block_end: int = if start + (b + 1) * bs <= n {
        start + (b + 1) * bs
    } else {
        n as int
    };
    assert(block_end == end) by {
        if start + cs <= n {
            assert((b + 1) * bs == cs) by (nonlinear_arith)
                requires
                    b + 1 == per,
                    cs == per * bs,
            ;
        } else {
            assert((b + 1) * bs >= rest) by (nonlinear_arith)
                requires
                    b + 1 == div_ceil(rest, bs),
                    div_ceil(rest, bs) * bs >= rest,
            ;
        }
    }
    assert(blocks@[last] == popcount_of(bits.subrange(start, end)));
    assert(chunks@[c] == popcount_of(bits.take(end)));
    lemma_popcount_split(bits, start, end);
    if c == 0 {
        assert(start == 0) by (nonlinear_arith)
            requires
                start == c * cs,
                c == 0,
        ;
        assert(bits.take(0) =~= Seq::<bool>::empty());
    } else {
        assert(chunks@[c - 1] == chunk_value(bits, cs, c - 1));
        lemma_chunk_value_before(bits, cs, c);
    }
}

/// Where the block size divides the chunk size, the blocks tile the bits,
/// and there are as many block entries as blocks cover the bits.
pub proof fn law_blocks_tile_when_aligned(n: nat, chunk_size: nat, block_size: nat)
    requires
        1 <= block_size <= chunk_size,
        chunk_size % block_size == 0,
    ensures
        blocks_needed(n, chunk_size, block_size) == div_ceil(n, block_size),
{
    let per = chunk_size / block_size;
    let q = n / chunk_size;
    let rest = n % chunk_size;
    lemma_fundamental_div_mod(chunk_size as int, block_size as int);
    assert(block_size * per == per * block_size) by (nonlinear_arith);
    lemma_fundamental_div_mod(n as int, chunk_size as int);
    assert(chunk_size * q == q * chunk_size) by (nonlinear_arith);
    lemma_fundamental_div_mod(rest as int, block_size as int);
    let rq = rest / block_size;
    let rr = rest % block_size;
    assert(block_size * rq == rq * block_size) by (nonlinear_arith);
    // The bits left over need no more blocks than a chunk holds.
    if rq >= per {
        assert(rq * block_size >= per * block_size) by (nonlinear_arith)
            requires
                rq >= per,
                block_size >= 0,
        ;
    }
    assert(rq < per);
    // The whole is `q * per + rq` blocks and `rr` bits.
    assert(q * chunk_size == (q * per) * block_size) by (nonlinear_arith)
        requires
            chunk_size == per * block_size,
    ;
    assert((q * per + rq) * block_size == (q * per) * block_size + rq * block_size)
        by (nonlinear_arith);
    assert(q * per >= 0) by (nonlinear_arith)
        requires
            q >= 0,
            per >= 0,
    ;
    lemma_fundamental_div_mod_converse(
        n as int,
        block_size as int,
        (q * per + rq) as int,
        rr as int,
    );
}

} // verus!
