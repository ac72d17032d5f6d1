# tantivy_common bit sets, verified

Compact bit sets with contracts proved by Verus.

- `src/bits.rs`: bit-level facts about `u64` words and the count of set bits.
- `src/tinyset.rs`: `TinySet`, a set of integers within `[0, 64)` in one `u64`, viewed as a `Set<u32>`.
- `src/bitset.rs`: `BitSet`, an array of `TinySet` buckets, its serialized form and the lemmas about it.
- `src/serialized.rs`: `ReadSerializedBitSet`, which reads a serialized `BitSet` held in an `ownedbytes::OwnedBytes`.
- `src/laws.rs`: properties relating serialization, deserialization and the lazy reader.
- `app/lib.rs`: writing to any `std::io::Write`, a `std::iter::Iterator` over a `TinySet`, and formatting.
