//! A precomputed table of popcounts for every bit pattern of a small width.

use vstd::prelude::*;
use vstd::arithmetic::power2::{lemma2_to64, lemma_pow2_strictly_increases, pow2};
use vstd::bits::lemma_u64_shl_is_mul;
use crate::bits::{lemma_ones_in_bound, ones_in};

verus! {

/// Table that answers the popcount of any key of `bit_length` bits in one
/// lookup: entry `k` is the number of ones in the binary representation of `k`.
pub struct PopcountTable {
    bit_length: u8,
    table: Vec<u8>,
}

impl View for PopcountTable {
    type V = Seq<u8>;

    closed spec fn view(&self) -> Seq<u8> {
        self.table@
    }
}

impl PopcountTable {
    /// Width of the keys, in bits.
    pub closed spec fn width(&self) -> nat {
        self.bit_length as nat
    }

    /// The representation invariant: the width is at most 32, the table has
    /// `2^width` entries, and entry `k` is the popcount of `k`.
    pub open spec fn wf(&self) -> bool {
        &&& self.width() <= 32
        &&& self@.len() == pow2(self.width())
        &&& forall|k: int| 0 <= k < self@.len() ==> self@[k] == ones_in(k as nat)
    }

    /// Builds the table for keys of `bit_length` bits.
    pub fn new(bit_length: u8) -> (r: PopcountTable)
        requires
            bit_length <= 32,
        ensures
            r.wf(),
            r.width() == bit_length,
    {
        let size: u64 = 1u64 << bit_length;
        proof {
            lemma2_to64();
            if bit_length < 32 {
                lemma_pow2_strictly_increases(bit_length as nat, 32);
            }
            lemma_u64_shl_is_mul(1u64, bit_length as u64);
        }
        let mut table: Vec<u8> = Vec::new();
        let mut k: u64 = 0;
        while k < size
            invariant
                bit_length <= 32,
                size == pow2(bit_length as nat),
                k <= size,
                table@.len() == k,
                forall|j: int| 0 <= j < k ==> table@[j] == ones_in(j as nat),
            decreases size - k,
        {
            let entry: u8 = if k == 0 {
                0
            } else {
                proof {
                    lemma_ones_in_bound(k as nat, bit_length as nat);
                    assert(k / 2 < table.len());
                }
                table[(k / 2) as usize] + (k % 2) as u8
            };
            table.push(entry);
            k += 1;
        }
        PopcountTable { bit_length, table }
    }

    /// Returns the popcount of `target`.
    pub fn popcount(&self, target: u64) -> (r: u8)
        requires
            self.wf(),
            target < pow2(self.width()),
        ensures
            r == self@[target as int],
            r == ones_in(target as nat),
    {
        assert(target < self.table.len());
        self.table[target as usize]
    }
}

} // verus!
