//! Builder of the succinct bit vector: a seed, and the bits to set on it.

use std::collections::HashSet;
use vstd::prelude::*;
use crate::bit_vector::bit_vector_string::BitVectorString;
use crate::bit_vector::blocks::Blocks;
use crate::bit_vector::chunks::Chunks;
use crate::bit_vector::index::BitVector;
use crate::bits::zeros;
use crate::internal_data_structure::popcount_table::PopcountTable;
use crate::internal_data_structure::raw_bit_vector::RawBitVector;
use crate::sizing::lemma_sizes_bounded;

verus! {

broadcast use vstd::std_specs::hash::group_hash_axioms;

/// The bits that a builder yields: those of the seed, with every marked
/// index set.
pub open spec fn built_bits(seed: Seq<bool>, marked: Set<u64>) -> Seq<bool> {
    Seq::new(seed.len(), |i: int| seed[i] || marked.contains(i as u64))
}

/// Setting the next listed bit extends the marked set by that index.
proof fn lemma_mark_next(
    seed: Seq<bool>,
    order: Seq<u64>,
    k: int,
    before: Seq<bool>,
    after: Seq<bool>,
)
    requires
        seed.len() <= u64::MAX,
        0 <= k < order.len(),
        order[k] < seed.len(),
        before == built_bits(seed, order.take(k).to_set()),
        after == before.update(order[k] as int, true),
    ensures
        after == built_bits(seed, order.take(k + 1).to_set()),
{
    let shorter = order.take(k);
    let longer = order.take(k + 1);
    let done = shorter.to_set();
    let next = longer.to_set();
    assert forall|x: u64| next.contains(x) == (done.contains(x) || x == order[k]) by {
        if longer.contains(x) {
            let q = choose|q: int| 0 <= q < longer.len() && #[trigger] longer[q] == x;
            if q < k {
                assert(shorter[q] == x);
            }
        }
        if shorter.contains(x) {
            let q = choose|q: int| 0 <= q < shorter.len() && #[trigger] shorter[q] == x;
            assert(longer[q] == x);
        }
        if x == order[k] {
            assert(longer[k] == x);
        }
    }
    assert(after =~= built_bits(seed, next));
}

/// What a bit vector starts from.
enum BitVectorSeed {
    /// That many zero bits.
    Length(u64),
    /// The bits that a validated string spells.
    Str(BitVectorString),
}

/// Builder of a [`BitVector`].
pub struct BitVectorBuilder {
    seed: BitVectorSeed,
    bits_set: HashSet<u64>,
}

impl BitVectorBuilder {
    /// The bits of the seed.
    pub closed spec fn seed_bits(&self) -> Seq<bool> {
        match self.seed {
            BitVectorSeed::Length(n) => zeros(n as nat),
            BitVectorSeed::Str(bvs) => bvs.bits(),
        }
    }

    /// The indices recorded so far to be set.
    pub closed spec fn marked(&self) -> Set<u64> {
        self.bits_set@
    }

    /// The representation invariant: a valid seed of at least one bit, and
    /// every recorded index inside it.
    pub closed spec fn wf(&self) -> bool {
        &&& match self.seed {
            BitVectorSeed::Length(n) => n > 0,
            BitVectorSeed::Str(bvs) => bvs.wf(),
        }
        &&& forall|i: u64| self.bits_set@.contains(i) ==> i < self.seed_bits().len()
    }

    /// Prepares a bit vector of `length` bits, all zero.
    pub fn from_length(length: u64) -> (r: BitVectorBuilder)
        requires
            length > 0,
        ensures
            r.wf(),
            r.seed_bits() == zeros(length as nat),
            r.marked() == Set::<u64>::empty(),
    {
        BitVectorBuilder { seed: BitVectorSeed::Length(length), bits_set: HashSet::new() }
    }

    /// Prepares a bit vector from its string representation.
    pub fn from_str(bit_vector_str: BitVectorString) -> (r: BitVectorBuilder)
        requires
            bit_vector_str.wf(),
        ensures
            r.wf(),
            r.seed_bits() == bit_vector_str.bits(),
            r.marked() == Set::<u64>::empty(),
    {
        BitVectorBuilder { seed: BitVectorSeed::Str(bit_vector_str), bits_set: HashSet::new() }
    }

    /// Records that the `i`-th bit is to be set, and hands the builder back
    /// for the next call. What is stated of the returned builder holds of
    /// this one as soon as the returned reference is let go.
    pub fn set_bit(&mut self, i: u64) -> (r: &mut BitVectorBuilder)
        requires
            old(self).wf(),
            i < old(self).seed_bits().len(),
        ensures
            *final(r) == *final(self),
            r.wf(),
            r.seed_bits() == old(self).seed_bits(),
            r.marked() == old(self).marked().insert(i),
    {
        self.bits_set.insert(i);
        self
    }

    /// Builds the bit vector: the seed with every recorded bit set, and its
    /// rank index.
    pub fn build(&self) -> (r: BitVector)
        requires
            self.wf(),
        ensures
            r.wf(),
            r@ == built_bits(self.seed_bits(), self.marked()),
    {
        let mut rbv = match &self.seed {
            BitVectorSeed::Length(n) => RawBitVector::from_length(*n),
            BitVectorSeed::Str(bvs) => RawBitVector::from_str(bvs),
        };
        let ghost seed = self.seed_bits();
        proof {
            rbv.lemma_len_bounds();
            assert(rbv@ =~= built_bits(seed, Seq::<u64>::empty().to_set()));
        }
        for bit in it: self.bits_set.iter()
            invariant
                self.wf(),
                seed == self.seed_bits(),
                it.seq().unref().to_set() == self.bits_set@,
                rbv.wf(),
                seed.len() <= u64::MAX,
                rbv@ == built_bits(seed, it.seq().unref().take(it.index() as int).to_set()),
                it.index() == it.seq().len() ==> rbv@ == built_bits(seed, self.bits_set@),
        {
            assert(it.seq().unref()[it.index() as int] == *bit);
            assert(it.seq().unref().to_set().contains(*bit));
            let ghost before = rbv@;
            rbv.set_bit(*bit);
            assert(rbv@ == built_bits(seed, it.seq().unref().take(it.index() + 1).to_set())) by {
                lemma_mark_next(seed, it.seq().unref(), it.index() as int, before, rbv@);
            }
            assert(it.index() + 1 == it.seq().len() ==> it.seq().unref().take(it.index() + 1)
                =~= it.seq().unref());
        }
        let chunks = Chunks::new(&rbv);
        let blocks = Blocks::new(&rbv, &chunks);
        proof {
            lemma_sizes_bounded(rbv@.len());
        }
        let table = PopcountTable::new(blocks.block_size());
        BitVector::new(rbv, chunks, blocks, table)
    }
}

} // verus!
