//! First level of the rank index: one running popcount per chunk.

use vstd::prelude::*;
use crate::bits::{lemma_popcount_bound, lemma_popcount_split, popcount_of};
use crate::internal_data_structure::raw_bit_vector::RawBitVector;
use crate::sizing::{calc_log2, chunk_size_for, div_ceil, lemma_piece_starts_inside};

verus! {

/// What chunk `c` holds for `bits` cut into chunks of `size` bits: the number
/// of ones from the start of `bits` through the last bit of the chunk.
pub open spec fn chunk_value(bits: Seq<bool>, size: nat, c: int) -> nat {
    let end = if (c + 1) * size <= bits.len() {
        (c + 1) * size
    } else {
        bits.len() as int
    };
    popcount_of(bits.take(end))
}

/// The entry of a chunk that ends inside `bits` counts the ones before the
/// next chunk.
pub proof fn lemma_chunk_value_before(bits: Seq<bool>, size: nat, c: int)
    requires
        c >= 1,
        c * size <= bits.len(),
    ensures
        chunk_value(bits, size, c - 1) == popcount_of(bits.take(c * size)),
{
    assert((c - 1 + 1) * size == c * size);
}

/// Collection of chunk entries.
pub struct Chunks {
    chunks: Vec<u64>,
    chunk_size: u16,
    chunks_cnt: u64,
}

impl View for Chunks {
    type V = Seq<u64>;

    closed spec fn view(&self) -> Seq<u64> {
        self.chunks@
    }
}

impl Chunks {
    /// Size of one chunk, in bits.
    pub closed spec fn size(&self) -> nat {
        self.chunk_size as nat
    }

    /// The representation invariant: a positive chunk size, and a count that
    /// is the number of entries.
    pub closed spec fn wf(&self) -> bool {
        &&& self.chunk_size >= 1
        &&& self.chunks_cnt == self.chunks@.len()
    }

    /// Whether these are the chunks of `bits`: the size that the length of
    /// `bits` calls for, one entry per chunk, each entry the popcount of
    /// `bits` through the end of its chunk.
    pub open spec fn describes(&self, bits: Seq<bool>) -> bool {
        &&& self.wf()
        &&& self.size() == chunk_size_for(bits.len())
        &&& self@.len() == div_ceil(bits.len(), self.size())
        &&& forall|c: int|
            0 <= c < self@.len() ==> #[trigger] self@[c] == chunk_value(bits, self.size(), c)
    }

    /// Builds the chunks of `rbv`.
    pub fn new(rbv: &RawBitVector) -> (r: Chunks)
        requires
            rbv.wf(),
        ensures
            r.describes(rbv@),
    {
        let n: u64 = rbv.length();
        let chunk_size: u16 = Chunks::calc_chunk_size(n);
        let size: u64 = chunk_size as u64;
        proof {
            vstd::arithmetic::div_mod::lemma_fundamental_div_mod(n as int, size as int);
            if size >= 2 {
                assert(2 * (n / size) <= size * (n / size)) by (nonlinear_arith)
                    requires
                        size >= 2,
                        n / size >= 0,
                ;
            }
        }
        let chunks_cnt: u64 = n / size + if n % size == 0 {
            0
        } else {
            1
        };
        let mut chunks: Vec<u64> = Vec::new();
        let mut c: u64 = 0;
        while c < chunks_cnt
            invariant
                rbv.wf(),
                n == rbv@.len(),
                size >= 1,
                chunks_cnt == div_ceil(n as nat, size as nat),
                c <= chunks_cnt,
                chunks@.len() == c,
                forall|q: int|
                    0 <= q < c ==> #[trigger] chunks@[q] == chunk_value(rbv@, size as nat, q),
            decreases chunks_cnt - c,
        {
            proof {
                lemma_piece_starts_inside(n as nat, size as nat, c as nat);
            }
            let start: u64 = c * size;
            let this_chunk_size: u64 = if n - start >= size {
                size
            } else {
                n - start
            };
            let chunk_rbv = rbv.copy_sub(start, this_chunk_size);
            let popcount_in_chunk: u64 = chunk_rbv.popcount();
            let before: u64 = if c == 0 {
                0
            } else {
                assert(c - 1 < chunks.len());
                chunks[(c - 1) as usize]
            };
            proof {
                let end = start + this_chunk_size;
                assert((c + 1) * size == start + size) by (nonlinear_arith)
                    requires
                        start == c * size,
                ;
                lemma_popcount_split(rbv@, start as int, end as int);
                lemma_popcount_bound(rbv@.take(end as int));
                if c > 0 {
                    assert((c - 1 + 1) * size == start);
                    assert(chunks@[c - 1] == chunk_value(rbv@, size as nat, c - 1));
                } else {
                    assert(rbv@.take(0) =~= Seq::<bool>::empty());
                }
            }
            chunks.push(popcount_in_chunk + before);
            c += 1;
        }
        Chunks { chunks, chunk_size, chunks_cnt }
    }

    /// Returns the size of one chunk.
    pub fn chunk_size(&self) -> (r: u16)
        requires
            self.wf(),
        ensures
            r == self.size(),
            r >= 1,
    {
        self.chunk_size
    }

    /// Returns the count of chunks.
    pub fn chunks_cnt(&self) -> (r: u64)
        requires
            self.wf(),
        ensures
            r == self@.len(),
    {
        self.chunks_cnt
    }

    /// Returns the content of the `i`-th chunk.
    pub fn access(&self, i: u64) -> (r: u64)
        requires
            self.wf(),
            i < self@.len(),
        ensures
            r == self@[i as int],
    {
        assert(i < self.chunks.len());
        self.chunks[i as usize]
    }

    /// Computes the chunk size for a bit vector of `n` bits.
    pub fn calc_chunk_size(n: u64) -> (r: u16)
        ensures
            r == chunk_size_for(n as nat),
            1 <= r <= 63 * 63,
    {
        let lg2: u16 = calc_log2(n) as u16;
        assert(lg2 * lg2 <= 63 * 63) by (nonlinear_arith)
            requires
                lg2 <= 63,
        ;
        let sz: u16 = lg2 * lg2;
        if sz == 0 {
            1
        } else {
            sz
        }
    }
}

} // verus!
