//! The succinct bit vector itself: the bits, their rank index, and the three
//! queries `access`, `rank` and `select`.

use vstd::prelude::*;
use vstd::arithmetic::power2::lemma_pow2_strictly_increases;
use crate::bit_vector::blocks::{lemma_block_value_before, Blocks};
use crate::bit_vector::chunks::{lemma_chunk_value_before, Chunks};
use crate::bits::{
    bits_value, is_select, lemma_bits_value_bound, lemma_ones_in_value, lemma_popcount_bound,
    lemma_popcount_range_split, lemma_popcount_split, lemma_rank_monotone, lemma_rank_step,
    lemma_word_prefix_value, popcount_of, rank_of, word_bits,
};
use crate::internal_data_structure::popcount_table::PopcountTable;
use crate::internal_data_structure::raw_bit_vector::RawBitVector;
use crate::sizing::{
    lemma_block_fits_chunk, lemma_blocks_needed_bound, lemma_locate, lemma_sizes_bounded,
};
use crate::storage::index_bits;

verus! {

/// Succinct bit vector: an immutable bit sequence that answers `access` and
/// `rank` in constant time and `select` in logarithmic time.
pub struct BitVector {
    /// Raw data.
    rbv: RawBitVector,
    /// Popcount from the first bit through the last bit of each chunk.
    chunks: Chunks,
    /// Popcount from the first bit of its chunk through the last bit of each
    /// block.
    blocks: Blocks,
    /// Table that answers the rank inside a block in one lookup.
    table: PopcountTable,
}

impl View for BitVector {
    type V = Seq<bool>;

    closed spec fn view(&self) -> Seq<bool> {
        self.rbv@
    }
}

impl BitVector {
    /// The representation invariant: the chunks and blocks are those of the
    /// bits, and the table covers keys of one block.
    pub closed spec fn wf(&self) -> bool {
        &&& self.rbv.wf()
        &&& self.chunks.describes(self.rbv@)
        &&& self.blocks.describes(self.rbv@)
        &&& self.table.wf()
        &&& self.table.width() == self.blocks.size()
    }

    /// Bits of storage that the bit vector takes: its packed bytes, and the
    /// entries of its chunks (64 bits each), blocks (16 bits each) and
    /// popcount table (8 bits each). The sizes and counts kept beside them, a
    /// fixed number of bits, are not counted.
    pub closed spec fn storage_bits(&self) -> nat {
        self.rbv.stored_bits() + 64 * self.chunks@.len() + 16 * self.blocks@.len() + 8
            * self.table@.len()
    }

    /// The storage is the bits, fewer than 8 bits of padding, and the rank
    /// index.
    pub proof fn lemma_storage_bits(&self)
        requires
            self.wf(),
        ensures
            self@.len() + index_bits(self@.len()) <= self.storage_bits() < self@.len() + 8
                + index_bits(self@.len()),
    {
        self.rbv.lemma_stored_bits();
    }

    /// A well-formed bit vector holds between 1 and `u64::MAX` bits.
    pub proof fn lemma_len_bounds(&self)
        requires
            self.wf(),
        ensures
            1 <= self@.len() <= u64::MAX,
    {
        self.rbv.lemma_len_bounds();
    }

    /// Bundles the bits with their rank index.
    pub(crate) fn new(
        rbv: RawBitVector,
        chunks: Chunks,
        blocks: Blocks,
        table: PopcountTable,
    ) -> (r: BitVector)
        requires
            rbv.wf(),
            chunks.describes(rbv@),
            blocks.describes(rbv@),
            table.wf(),
            table.width() == blocks.size(),
        ensures
            r.wf(),
            r@ == rbv@,
    {
        BitVector { rbv, chunks, blocks, table }
    }

    /// Returns the `i`-th bit.
    pub fn access(&self, i: u64) -> (r: bool)
        requires
            self.wf(),
            i < self@.len(),
        ensures
            r == self@[i as int],
    {
        self.rbv.access(i)
    }

    /// Returns the number of ones among the bits `[0, i]`.
    pub fn rank(&self, i: u64) -> (r: u64)
        requires
            self.wf(),
            i < self@.len(),
        ensures
            r == rank_of(self@, i as int),
    {
        let ghost bits = self.rbv@;
        let n: u64 = self.rbv.length();
        let chunk_size: u64 = self.chunks.chunk_size() as u64;
        let block_size: u64 = self.blocks.block_size() as u64;
        proof {
            lemma_block_fits_chunk(n as nat);
            lemma_sizes_bounded(n as nat);
            lemma_blocks_needed_bound(n as nat, chunk_size as nat, block_size as nat);
            lemma_locate(n as nat, chunk_size as nat, block_size as nat, i as nat);
        }

        // The chunk that holds bit `i`, and the ones before that chunk.
        let i_chunk: u64 = i / chunk_size;
        let chunk_start: u64 = i_chunk * chunk_size;
        let rank_from_chunk: u64 = if i_chunk == 0 {
            proof {
                assert(chunk_start == 0) by (nonlinear_arith)
                    requires
                        chunk_start == i_chunk * chunk_size,
                        i_chunk == 0,
                ;
                assert(bits.take(0) =~= Seq::<bool>::empty());
            }
            0
        } else {
            proof {
                lemma_chunk_value_before(bits, chunk_size as nat, i_chunk as int);
            }
            self.chunks.access(i_chunk - 1)
        };
        assert(rank_from_chunk == popcount_of(bits.take(chunk_start as int)));

        // The block of that chunk that holds bit `i`, and the ones of the
        // chunk before that block.
        let blocks_in_chunk: u64 = chunk_size / block_size;
        let i_block: u64 = (i - chunk_start) / block_size;
        let pos_block_start: u64 = chunk_start + i_block * block_size;
        let rank_from_block: u16 = if i_block == 0 {
            proof {
                assert(pos_block_start == chunk_start) by (nonlinear_arith)
                    requires
                        pos_block_start == chunk_start + i_block * block_size,
                        i_block == 0,
                ;
                assert(bits.subrange(chunk_start as int, pos_block_start as int) =~= Seq::<
                    bool,
                >::empty());
            }
            0
        } else {
            proof {
                lemma_block_value_before(
                    bits,
                    chunk_size as nat,
                    block_size as nat,
                    i_chunk as int,
                    i_block as int,
                );
            }
            self.blocks.access(i_chunk * blocks_in_chunk + i_block - 1)
        };
        assert(rank_from_block == popcount_of(
            bits.subrange(chunk_start as int, pos_block_start as int),
        ));

        // The ones of that block up to bit `i`, looked up in the table.
        let block_len: u64 = if n - pos_block_start >= block_size {
            block_size
        } else {
            n - pos_block_start
        };
        let block_rbv = self.rbv.copy_sub(pos_block_start, block_len);
        let block_as_u32: u32 = block_rbv.as_u32();
        let bits_to_use: u64 = i - pos_block_start + 1;
        let block_bits: u32 = block_as_u32 >> ((32 - bits_to_use) as u32);
        proof {
            let used = block_rbv@.take(bits_to_use as int);
            lemma_word_prefix_value(block_as_u32, bits_to_use as nat);
            assert(word_bits(block_as_u32).take(bits_to_use as int) =~= used);
            assert(block_bits == bits_value(used));
            lemma_bits_value_bound(used);
            if bits_to_use < block_size {
                lemma_pow2_strictly_increases(bits_to_use as nat, block_size as nat);
            }
            lemma_ones_in_value(used);
            assert(used =~= bits.subrange(pos_block_start as int, i + 1));
        }
        let rank_from_table: u8 = self.table.popcount(block_bits as u64);
        proof {
            lemma_popcount_range_split(
                bits,
                chunk_start as int,
                pos_block_start as int,
                i + 1,
            );
            lemma_popcount_split(bits, chunk_start as int, i + 1);
            lemma_popcount_bound(bits.take(i + 1));
        }
        rank_from_chunk + rank_from_block as u64 + rank_from_table as u64
    }

    /// Returns the least `i` such that `rank(i) == num`, or `None` where
    /// there is none. For `num == 0` the answer is 0.
    pub fn select(&self, num: u64) -> (r: Option<u64>)
        requires
            self.wf(),
        ensures
            is_select(
                self@,
                num as nat,
                match r {
                    Some(i) => Some(i as int),
                    None => None,
                },
            ),
            num >= 1 ==> (r is None <==> num > popcount_of(self@)),
    {
        let n: u64 = self.rbv.length();
        proof {
            lemma_rank_step(self@, 0);
            assert(self@.take(n as int) =~= self@);
            assert forall|j: int| 0 <= j < n implies rank_of(self@, j) <= popcount_of(self@) by {
                lemma_rank_monotone(self@, j, n - 1);
            }
        }
        if num == 0 || (num == 1 && self.access(0)) {
            return Some(0);
        }
        if self.rank(n - 1) < num {
            return None;
        }
        // Binary search: the rank at `below` is under `num`, the rank at
        // `reached` is not.
        let mut below: u64 = 0;
        let mut reached: u64 = n - 1;
        while reached - below > 1
            invariant
                self.wf(),
                n == self@.len(),
                below < reached < n,
                rank_of(self@, below as int) < num <= rank_of(self@, reached as int),
            decreases reached - below,
        {
            let mid: u64 = below + (reached - below) / 2;
            if self.rank(mid) >= num {
                reached = mid;
            } else {
                below = mid;
            }
        }
        proof {
            lemma_rank_step(self@, reached as int);
            assert forall|j: int| 0 <= j < reached implies rank_of(self@, j) != num by {
                lemma_rank_monotone(self@, j, below as int);
            }
        }
        Some(reached)
    }
}

} // verus!
