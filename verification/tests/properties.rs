use ownedbytes::OwnedBytes;
use tantivy_common::bitset::num_buckets;
use tantivy_common::{BitSet, ReadSerializedBitSet, TinySet};

fn serialized(bitset: &BitSet) -> Vec<u8> {
    let mut out = vec![];
    bitset.serialize(&mut out).unwrap();
    out
}

#[test]
fn tinyset_basic_operations() {
    let a = TinySet::empty().insert(0).insert(7).insert(63);
    let b = TinySet::singleton(7).insert(8);
    assert_eq!(a.len(), 3);
    assert!(a.contains(0) && a.contains(7) && a.contains(63));
    assert!(!a.contains(1));
    assert_eq!(a.intersect(b).into_iter().collect(), [7]);
    assert_eq!(a.union(b).into_iter().collect(), [0, 7, 8, 63]);
    assert_eq!(TinySet::full().len(), 64);
    assert_eq!(a.complement().len(), 61);
    assert!(!a.complement().contains(7));
    assert!(a.complement().contains(8));
    assert!(TinySet::full().complement().is_empty());
    let mut c = a;
    c.clear();
    assert!(c.is_empty());
    assert_eq!(c, TinySet::empty());
}

#[test]
fn tinyset_insert_remove_mut_report_changes() {
    let mut u = TinySet::empty();
    assert!(u.insert_mut(4));
    assert!(!u.insert_mut(4));
    assert!(u.remove_mut(4));
    assert!(!u.remove_mut(4));
    assert!(u.is_empty());
}

#[test]
fn tinyset_range_bounds_wrap_modulo_64() {
    assert!(TinySet::range_lower(64).is_empty());
    assert_eq!(TinySet::range_lower(65).into_iter().collect(), [0]);
    assert_eq!(TinySet::range_greater_or_equal(0).len(), 64);
    assert_eq!(TinySet::range_greater_or_equal(63).into_iter().collect(), [63]);
    assert_eq!(
        TinySet::range_lower(10).union(TinySet::range_greater_or_equal(10)),
        TinySet::full()
    );
    assert!(TinySet::range_lower(10)
        .intersect(TinySet::range_greater_or_equal(10))
        .is_empty());
}

#[test]
fn tinyset_iterator_hands_out_in_increasing_order() {
    let mut it = TinySet::empty().insert(40).insert(2).insert(17).into_iter();
    assert_eq!(it.next(), Some(2));
    assert_eq!(it.next(), Some(17));
    assert_eq!(it.next(), Some(40));
    assert_eq!(it.next(), None);
    assert_eq!(it.next(), None);
}

#[test]
fn tinyset_serialize_is_little_endian_word() {
    let u = TinySet::empty().insert(0).insert(9).insert(63);
    let mut data = vec![0xAAu8];
    u.serialize(&mut data).unwrap();
    assert_eq!(data, vec![0xAA, 0x01, 0x02, 0, 0, 0, 0, 0, 0x80]);
    let back = TinySet::deserialize(data[1..].try_into().unwrap()).unwrap();
    assert_eq!(back, u);
}

#[test]
fn bitset_full_holds_exactly_values_below_max() {
    let bitset = BitSet::with_max_value_and_full(70);
    assert_eq!(bitset.len(), 70);
    assert!(bitset.contains(0));
    assert!(bitset.contains(69));
    assert!(!bitset.contains(70));
    assert!(!bitset.contains(127));
    assert_eq!(bitset.tinyset(0), TinySet::full());
    assert_eq!(bitset.tinyset(1), TinySet::range_lower(6));
    let bitset = BitSet::with_max_value_and_full(128);
    assert_eq!(bitset.len(), 128);
    assert!(bitset.contains(127));
}

#[test]
fn bitset_clear_resets_len() {
    let mut bitset = BitSet::with_max_value(200);
    bitset.insert(1);
    bitset.insert(150);
    assert_eq!(bitset.len(), 2);
    bitset.clear();
    assert_eq!(bitset.len(), 0);
    assert!(!bitset.contains(1));
    assert!(!bitset.contains(150));
    assert_eq!(bitset.max_value(), 200);
}

#[test]
fn bitset_first_non_empty_bucket() {
    let mut bitset = BitSet::with_max_value(64 * 5);
    assert_eq!(bitset.first_non_empty_bucket(0), None);
    bitset.insert(64 * 2 + 3);
    bitset.insert(64 * 4);
    assert_eq!(bitset.first_non_empty_bucket(0), Some(2));
    assert_eq!(bitset.first_non_empty_bucket(2), Some(2));
    assert_eq!(bitset.first_non_empty_bucket(3), Some(4));
    assert_eq!(bitset.first_non_empty_bucket(5), None);
    assert_eq!(bitset.tinyset(2).into_iter().collect(), [3]);
}

#[test]
fn bitset_serialize_layout_and_roundtrip() {
    let mut bitset = BitSet::with_max_value(70);
    bitset.insert(1);
    bitset.insert(64);
    let out = serialized(&bitset);
    assert_eq!(
        out,
        vec![70, 0, 0, 0, 2, 0, 0, 0, 0, 0, 0, 0, 1, 0, 0, 0, 0, 0, 0, 0]
    );
    let back = BitSet::deserialize(&out).unwrap();
    assert_eq!(back.max_value(), 70);
    assert_eq!(back.len(), 2);
    assert!(back.contains(1) && back.contains(64) && !back.contains(2));
    // trailing bytes that do not fill a word are ignored
    let mut longer = out.clone();
    longer.extend_from_slice(&[0xFF, 0xFF, 0xFF]);
    let back = BitSet::deserialize(&longer).unwrap();
    assert_eq!(back.len(), 2);
    assert_eq!(back.first_non_empty_bucket(0), Some(0));
}

#[test]
fn read_serialized_agrees_with_bitset() {
    let mut bitset = BitSet::with_max_value(130);
    for el in [0u32, 5, 63, 64, 100, 129] {
        bitset.insert(el);
    }
    let reader = ReadSerializedBitSet::new(OwnedBytes::new(serialized(&bitset)));
    assert_eq!(reader.max_value(), 130);
    for el in 0..130 {
        assert_eq!(reader.contains(el), bitset.contains(el));
    }
    assert_eq!(reader.count_unset(), 130 - 6);
    let unset = reader.iter_unset();
    let expected: Vec<u32> = (0..130).filter(|el| !bitset.contains(*el)).collect();
    assert_eq!(unset, expected);
    assert_eq!(unset.len(), reader.count_unset());
    let copy = reader.clone();
    assert_eq!(copy.count_unset(), 124);
}

#[test]
fn read_serialized_iter_unset_stops_at_max_value() {
    let mut bitset = BitSet::with_max_value(10);
    bitset.insert(2);
    bitset.insert(9);
    // a value past max_value that still fits the bucket
    bitset.insert(12);
    let reader = ReadSerializedBitSet::new(OwnedBytes::new(serialized(&bitset)));
    assert_eq!(reader.iter_unset(), vec![0, 1, 3, 4, 5, 6, 7, 8]);
    assert_eq!(reader.count_unset(), 8);
}

#[test]
fn read_serialized_count_unset_with_max_multiple_of_64() {
    let mut bitset = BitSet::with_max_value(64);
    bitset.insert(5);
    let reader = ReadSerializedBitSet::new(OwnedBytes::new(serialized(&bitset)));
    assert_eq!(reader.count_unset(), 63);
    assert_eq!(reader.iter_unset().len(), 63);

    let full = BitSet::with_max_value_and_full(64);
    let reader = ReadSerializedBitSet::new(OwnedBytes::new(serialized(&full)));
    assert_eq!(reader.count_unset(), 0);
    assert!(reader.iter_unset().is_empty());

    let full = BitSet::with_max_value_and_full(128);
    let reader = ReadSerializedBitSet::new(OwnedBytes::new(serialized(&full)));
    assert_eq!(reader.count_unset(), 0);
}

#[test]
fn read_serialized_values_past_the_chunks_are_unset() {
    // a bound of 100 with a single, full chunk
    let mut data = vec![100u8, 0, 0, 0];
    data.extend_from_slice(&[0xFF; 8]);
    let reader = ReadSerializedBitSet::new(OwnedBytes::new(data));
    assert_eq!(reader.count_unset(), 36);
    assert_eq!(reader.iter_unset(), (64u32..100).collect::<Vec<_>>());
    assert!(reader.contains(63));
    assert_eq!(reader.try_contains(64), None);
}

#[test]
fn read_serialized_checked_variants() {
    assert!(ReadSerializedBitSet::try_new(OwnedBytes::new(vec![1u8, 2, 3])).is_none());
    let mut bitset = BitSet::with_max_value(20);
    bitset.insert(7);
    let reader = ReadSerializedBitSet::try_new(OwnedBytes::new(serialized(&bitset))).unwrap();
    assert_eq!(reader.try_count_unset(), Some(19));
    assert_eq!(reader.try_contains(7), Some(true));
    assert_eq!(reader.try_contains(8), Some(false));
    assert_eq!(reader.try_contains(64), None);
    assert_eq!(reader.try_iter_unset().map(|v| v.len()), Some(19));

    // a chunk cut short
    let reader = ReadSerializedBitSet::new(OwnedBytes::new(vec![20u8, 0, 0, 0, 1, 2, 3]));
    assert_eq!(reader.try_count_unset(), None);
    assert!(reader.try_iter_unset().is_none());
    assert_eq!(reader.try_contains(7), Some(false));
}

#[test]
fn num_buckets_large_values() {
    assert_eq!(num_buckets(u32::MAX - 63), 67_108_863);
    assert_eq!(num_buckets(640), 10);
}

#[test]
fn bitset_len_follows_any_sequence_of_calls() {
    let mut bitset = BitSet::with_max_value_and_full(150);
    for el in [0u32, 7, 7, 64, 149] {
        bitset.remove(el);
    }
    bitset.insert(64);
    let count = (0..150).filter(|el| bitset.contains(*el)).count();
    assert_eq!(bitset.len(), count);
    assert_eq!(bitset.len(), 147);
    assert_eq!(bitset.max_value(), 150);
    bitset.clear();
    bitset.insert(3);
    assert_eq!(bitset.len(), 1);
    assert_eq!(bitset.max_value(), 150);
    let back = BitSet::deserialize(&serialized(&bitset)).unwrap();
    assert_eq!(back.len(), 1);
    assert_eq!(back.max_value(), 150);
    assert!(back.contains(3) && !back.contains(4));
}
