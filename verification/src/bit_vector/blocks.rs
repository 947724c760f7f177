//! Second level of the rank index: one running popcount per block, counted
//! from the start of the chunk that the block lies in.
//!
//! The blocks of a chunk start at the first bit of the chunk, and a chunk
//! holds `chunk_size / block_size` of them. Where the block size does not
//! divide the chunk size, the bits of a chunk behind its last block, fewer
//! than one block, have no entry: `rank` reads them from the bits.

use vstd::prelude::*;
use vstd::arithmetic::div_mod::{lemma_fundamental_div_mod, lemma_fundamental_div_mod_converse};
use crate::bit_vector::chunks::Chunks;
use crate::bits::{lemma_popcount_bound, lemma_popcount_range_split, popcount_of};
use crate::internal_data_structure::raw_bit_vector::RawBitVector;
use crate::sizing::{
    block_size_for, blocks_needed, calc_log2, chunk_size_for, div_ceil, lemma_block_fits_chunk,
    lemma_piece_inside_counts, lemma_piece_starts_inside,
};

verus! {

/// What block `b` of chunk `c` holds for `bits`: the number of ones from the
/// first bit of the chunk through the last bit of the block.
pub open spec fn block_value(
    bits: Seq<bool>,
    chunk_size: nat,
    block_size: nat,
    c: int,
    b: int,
) -> nat {
    let start = c * chunk_size;
    let end = if start + (b + 1) * block_size <= bits.len() {
        start + (b + 1) * block_size
    } else {
        bits.len() as int
    };
    popcount_of(bits.subrange(start, end))
}

/// The entry of a block that ends inside `bits` counts the ones of its chunk
/// before the next block.
pub proof fn lemma_block_value_before(
    bits: Seq<bool>,
    chunk_size: nat,
    block_size: nat,
    c: int,
    b: int,
)
    requires
        b >= 1,
        c * chunk_size + b * block_size <= bits.len(),
    ensures
        block_value(bits, chunk_size, block_size, c, b - 1) == popcount_of(
            bits.subrange(c * chunk_size, c * chunk_size + b * block_size),
        ),
{
    assert((b - 1 + 1) * block_size == b * block_size);
}

/// Collection of block entries, chunk after chunk: the entry of block `b` of
/// chunk `c` stands at index `c * (chunk_size / block_size) + b`.
pub struct Blocks {
    blocks: Vec<u16>,
    block_size: u8,
    blocks_cnt: u64,
}

impl View for Blocks {
    type V = Seq<u16>;

    closed spec fn view(&self) -> Seq<u16> {
        self.blocks@
    }
}

impl Blocks {
    /// Size of one block, in bits.
    pub closed spec fn size(&self) -> nat {
        self.block_size as nat
    }

    /// The representation invariant: a positive block size, and a count that
    /// is the number of entries.
    pub closed spec fn wf(&self) -> bool {
        &&& self.block_size >= 1
        &&& self.blocks_cnt == self.blocks@.len()
    }

    /// Whether these are the blocks of `bits`: the size that the length of
    /// `bits` calls for, and entry `g` the value of block `g % per_chunk` of
    /// chunk `g / per_chunk`, where `per_chunk` is the number of entries of a
    /// full chunk.
    pub open spec fn describes(&self, bits: Seq<bool>) -> bool {
        let chunk_size = chunk_size_for(bits.len());
        let per_chunk = (chunk_size / self.size()) as int;
        &&& self.wf()
        &&& self.size() == block_size_for(bits.len())
        &&& self@.len() == blocks_needed(bits.len(), chunk_size, self.size())
        &&& forall|g: int|
            0 <= g < self@.len() ==> #[trigger] self@[g] == block_value(
                bits,
                chunk_size,
                self.size(),
                g / per_chunk,
                g % per_chunk,
            )
    }

    /// Builds the blocks of `rbv`, whose chunks are `chunks`.
    pub fn new(rbv: &RawBitVector, chunks: &Chunks) -> (r: Blocks)
        requires
            rbv.wf(),
            chunks.describes(rbv@),
        ensures
            r.describes(rbv@),
    {
        let n: u64 = rbv.length();
        let block_size: u8 = Blocks::calc_block_size(n);
        let size: u64 = block_size as u64;
        let chunk_size: u64 = chunks.chunk_size() as u64;
        let chunks_cnt: u64 = chunks.chunks_cnt();
        proof {
            lemma_block_fits_chunk(n as nat);
            lemma_fundamental_div_mod(chunk_size as int, size as int);
            let per = chunk_size / size;
            assert(size * per == per * size) by (nonlinear_arith);
            assert(per >= 1) by (nonlinear_arith)
                requires
                    chunk_size == per * size + chunk_size % size,
                    0 <= chunk_size % size < size,
                    size <= chunk_size,
                    per >= 0,
            ;
        }
        let blocks_in_chunk_cnt: u64 = chunk_size / size;
        let mut blocks: Vec<u16> = Vec::new();
        let mut c: u64 = 0;
        while c < chunks_cnt
            invariant
                rbv.wf(),
                n == rbv@.len(),
                size == block_size_for(n as nat),
                chunk_size == chunk_size_for(n as nat),
                1 <= size <= chunk_size <= u16::MAX,
                blocks_in_chunk_cnt == chunk_size / size,
                blocks_in_chunk_cnt >= 1,
                blocks_in_chunk_cnt * size <= chunk_size,
                chunks_cnt == div_ceil(n as nat, chunk_size as nat),
                c <= chunks_cnt,
                c < chunks_cnt ==> blocks@.len() == c * blocks_in_chunk_cnt,
                c == chunks_cnt ==> blocks@.len() == blocks_needed(
                    n as nat,
                    chunk_size as nat,
                    size as nat,
                ),
                forall|g: int|
                    0 <= g < blocks@.len() ==> #[trigger] blocks@[g] == block_value(
                        rbv@,
                        chunk_size as nat,
                        size as nat,
                        g / (blocks_in_chunk_cnt as int),
                        g % (blocks_in_chunk_cnt as int),
                    ),
            decreases chunks_cnt - c,
        {
            proof {
                lemma_piece_starts_inside(n as nat, chunk_size as nat, c as nat);
            }
            let start: u64 = c * chunk_size;
            let rest: u64 = n - start;
            let mut b: u64 = 0;
            while b < blocks_in_chunk_cnt && b * size < rest
                invariant
                    rbv.wf(),
                    n == rbv@.len(),
                    1 <= size <= chunk_size <= u16::MAX,
                    blocks_in_chunk_cnt == chunk_size / size,
                    blocks_in_chunk_cnt >= 1,
                    blocks_in_chunk_cnt * size <= chunk_size,
                    start == c * chunk_size,
                    start < n,
                    rest == n - start,
                    b <= blocks_in_chunk_cnt,
                    b * size <= chunk_size,
                    b > 0 ==> (b - 1) * size < rest,
                    blocks@.len() == c * blocks_in_chunk_cnt + b,
                    forall|g: int|
                        0 <= g < blocks@.len() ==> #[trigger] blocks@[g] == block_value(
                            rbv@,
                            chunk_size as nat,
                            size as nat,
                            g / (blocks_in_chunk_cnt as int),
                            g % (blocks_in_chunk_cnt as int),
                        ),
                decreases blocks_in_chunk_cnt - b,
            {
                proof {
                    assert(b * size <= blocks_in_chunk_cnt * size) by (nonlinear_arith)
                        requires
                            b <= blocks_in_chunk_cnt,
                            size >= 0,
                    ;
                    assert((b + 1) * size == b * size + size) by (nonlinear_arith);
                    assert((b + 1) * size <= blocks_in_chunk_cnt * size) by (nonlinear_arith)
                        requires
                            b + 1 <= blocks_in_chunk_cnt,
                            size >= 0,
                    ;
                }
                let offset: u64 = b * size;
                let pos: u64 = start + offset;
                let this_block_size: u64 = if n - pos >= size {
                    size
                } else {
                    n - pos
                };
                let block_rbv = rbv.copy_sub(pos, this_block_size);
                let popcount_in_block: u64 = block_rbv.popcount();
                let g: usize = blocks.len();
                let before: u16 = if b == 0 {
                    0
                } else {
                    blocks[g - 1]
                };
                proof {
                    let per = blocks_in_chunk_cnt as int;
                    let end = pos + this_block_size;
                    lemma_fundamental_div_mod_converse(g as int, per, c as int, b as int);
                    lemma_popcount_range_split(rbv@, start as int, pos as int, end as int);
                    lemma_popcount_bound(rbv@.subrange(start as int, end as int));
                    lemma_popcount_bound(rbv@.subrange(pos as int, end as int));
                    if b > 0 {
                        lemma_fundamental_div_mod_converse(g - 1, per, c as int, b - 1);
                        assert(blocks@[g - 1] == block_value(
                            rbv@,
                            chunk_size as nat,
                            size as nat,
                            (g - 1) / per,
                            (g - 1) % per,
                        ));
                        assert(start + (b - 1 + 1) * size == pos);
                    } else {
                        assert(rbv@.subrange(start as int, pos as int) =~= Seq::<bool>::empty());
                    }
                }
                let entry: u16 = popcount_in_block as u16 + before;
                blocks.push(entry);
                b += 1;
            }
            proof {
                let per = blocks_in_chunk_cnt as nat;
                let cs = chunk_size as nat;
                lemma_fundamental_div_mod(n as int, chunk_size as int);
                if c + 1 < chunks_cnt {
                    lemma_piece_starts_inside(n as nat, cs, (c + 1) as nat);
                    assert((c + 1) * chunk_size == start + chunk_size) by (nonlinear_arith)
                        requires
                            start == c * chunk_size,
                    ;
                    if b < per {
                        assert((b + 1) * size <= per * size) by (nonlinear_arith)
                            requires
                                b + 1 <= per,
                                size >= 0,
                        ;
                        assert((b + 1) * size == b * size + size) by (nonlinear_arith);
                    }
                    assert(b == per);
                    assert((c + 1) * per == c * per + per) by (nonlinear_arith);
                } else {
                    Self::lemma_last_chunk_count(n as nat, cs, size as nat, c as nat, b as nat);
                }
            }
            c += 1;
        }
        proof {
            if chunks_cnt == 0 {
                lemma_piece_inside_counts(n as nat, chunk_size as nat, 0);
            }
        }
        let blocks_cnt: u64 = blocks.len() as u64;
        Blocks { blocks, block_size, blocks_cnt }
    }

    /// The entries written for the last chunk complete the count.
    proof fn lemma_last_chunk_count(n: nat, chunk_size: nat, size: nat, c: nat, b: nat)
        requires
            1 <= size <= chunk_size,
            c + 1 == div_ceil(n, chunk_size),
            c * chunk_size < n,
            b <= chunk_size / size,
            b > 0 ==> (b - 1) * size < n - c * chunk_size,
            !(b < chunk_size / size && b * size < n - c * chunk_size),
        ensures
            c * (chunk_size / size) + b == blocks_needed(n, chunk_size, size),
    {
        let per = chunk_size / size;
        let rest = (n - c * chunk_size) as nat;
        lemma_fundamental_div_mod(n as int, chunk_size as int);
        lemma_fundamental_div_mod(chunk_size as int, size as int);
        assert(chunk_size * (n / chunk_size) == (n / chunk_size) * chunk_size) by (nonlinear_arith);
        assert(size * per == per * size) by (nonlinear_arith);
        if n % chunk_size == 0 {
            // The last chunk is full: `c + 1 == n / chunk_size`.
            assert((c + 1) * chunk_size == c * chunk_size + chunk_size) by (nonlinear_arith);
            assert(rest == chunk_size);
            if b < per {
                assert((b + 1) * size <= per * size) by (nonlinear_arith)
                    requires
                        b + 1 <= per,
                        size >= 0,
                ;
                assert((b + 1) * size == b * size + size) by (nonlinear_arith);
            }
            assert(b == per);
            assert((c + 1) * per == c * per + per) by (nonlinear_arith);
            assert(0nat % size == 0);
            assert(0nat / size == 0);
        } else {
            assert(c == n / chunk_size);
            assert(rest == n % chunk_size);
            if b < per {
                assert(b * size >= rest);
                if b > 0 {
                    lemma_piece_inside_counts(rest, size, (b - 1) as nat);
                }
                if b < div_ceil(rest, size) {
                    lemma_piece_starts_inside(rest, size, b);
                }
                assert(b == div_ceil(rest, size));
            } else {
                lemma_piece_inside_counts(rest, size, (b - 1) as nat);
            }
        }
    }

    /// Returns the size of one block.
    pub fn block_size(&self) -> (r: u8)
        requires
            self.wf(),
        ensures
            r == self.size(),
            r >= 1,
    {
        self.block_size
    }

    /// Returns the count of blocks.
    pub fn blocks_cnt(&self) -> (r: u64)
        requires
            self.wf(),
        ensures
            r == self@.len(),
    {
        self.blocks_cnt
    }

    /// Returns the content of the `i`-th block.
    pub fn access(&self, i: u64) -> (r: u16)
        requires
            self.wf(),
            i < self@.len(),
        ensures
            r == self@[i as int],
    {
        assert(i < self.blocks.len());
        self.blocks[i as usize]
    }

    /// Computes the block size for a bit vector of `n` bits.
    pub fn calc_block_size(n: u64) -> (r: u8)
        ensures
            r == block_size_for(n as nat),
            1 <= r <= 31,
    {
        let lg2: u8 = calc_log2(n);
        let sz: u8 = lg2 / 2;
        if sz == 0 {
            1
        } else {
            sz
        }
    }
}

} // verus!
