//! The succinct bit vector, its builder, and the two levels of its rank index.

pub mod bit_vector_builder;
pub mod bit_vector_string;
pub mod blocks;
pub mod chunks;
pub mod index;

pub use bit_vector_builder::BitVectorBuilder;
pub use bit_vector_string::BitVectorString;
pub use index::BitVector;
