//! Compact bit sets: `TinySet`, a set of integers in `[0, 64)` held in one
//! `u64`, `BitSet`, a growable array of them, and `ReadSerializedBitSet`,
//! which reads the serialized form of a `BitSet` lazily.

pub mod bits;
pub mod tinyset;
pub mod bitset;
pub mod serialized;
pub mod laws;

pub use bitset::BitSet;
pub use serialized::ReadSerializedBitSet;
pub use tinyset::{TinySet, TinySetIterator};
