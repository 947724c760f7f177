//! The building blocks under the index: the packed bit sequence and the
//! popcount table.

pub mod popcount_table;
pub mod raw_bit_vector;
