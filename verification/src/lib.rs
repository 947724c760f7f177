//! Succinct indexable dictionary over a bit sequence: `access`, `rank` and
//! `select` on `N` bits in `N + o(N)` bits of storage.
//!
//! A [`BitVector`] is made by a [`BitVectorBuilder`], from a length or from a
//! [`BitVectorString`], and is immutable afterwards. Its contracts are stated
//! over the bit sequence that it holds, a `Seq<bool>`: the module [`bits`]
//! says what popcount, rank and select mean on such a sequence, [`sizing`]
//! how its length lays out the rank index, [`storage`] how much that index
//! takes, and [`laws`] what holds of the queries taken together.

pub mod bit_vector;
pub mod bits;
pub mod internal_data_structure;
pub mod laws;
pub mod sizing;
pub mod storage;

pub use bit_vector::bit_vector_builder::BitVectorBuilder;
pub use bit_vector::bit_vector_string::BitVectorString;
pub use bit_vector::index::BitVector;
