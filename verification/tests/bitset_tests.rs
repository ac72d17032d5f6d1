use ownedbytes::OwnedBytes;
use rand::distributions::Bernoulli;
use rand::rngs::StdRng;
use rand::{Rng, SeedableRng};
use std::collections::HashSet;
use std::convert::TryInto;
use tantivy_common::bitset::num_buckets;
use tantivy_common::{BitSet, ReadSerializedBitSet, TinySet};

#[test]
fn test_read_serialized_bitset_full() {
    let mut bitset = BitSet::with_max_value_and_full(5);
    bitset.remove(3);
    let mut out = vec![];
    bitset.serialize(&mut out).unwrap();

    let bitset = ReadSerializedBitSet::new(OwnedBytes::new(out));
    assert_eq!(bitset.count_unset(), 1);
}

#[test]
fn test_read_serialized_bitset_empty() {
    let mut bitset = BitSet::with_max_value(5);
    bitset.insert(3);
    let mut out = vec![];
    bitset.serialize(&mut out).unwrap();

    let bitset = ReadSerializedBitSet::new(OwnedBytes::new(out));
    assert_eq!(bitset.count_unset(), 4);

    {
        let bitset = BitSet::with_max_value(5);
        let mut out = vec![];
        bitset.serialize(&mut out).unwrap();

        let bitset = ReadSerializedBitSet::new(OwnedBytes::new(out));
        assert_eq!(bitset.count_unset(), 5);
    }
}

#[test]
fn test_tiny_set_remove() {
    {
        let mut u = TinySet::empty().insert(63u32).insert(5).remove(63u32);
        assert_eq!(u.pop_lowest(), Some(5u32));
        assert!(u.pop_lowest().is_none());
    }
    {
        let mut u = TinySet::empty()
            .insert(63u32)
            .insert(1)
            .insert(5)
            .remove(63u32);
        assert_eq!(u.pop_lowest(), Some(1u32));
        assert_eq!(u.pop_lowest(), Some(5u32));
        assert!(u.pop_lowest().is_none());
    }
    {
        let mut u = TinySet::empty().insert(1).remove(63u32);
        assert_eq!(u.pop_lowest(), Some(1u32));
        assert!(u.pop_lowest().is_none());
    }
    {
        let mut u = TinySet::empty().insert(1).remove(1u32);
        assert!(u.pop_lowest().is_none());
    }
}

#[test]
fn test_tiny_set() {
    assert!(TinySet::empty().is_empty());
    {
        let mut u = TinySet::empty().insert(1u32);
        assert_eq!(u.pop_lowest(), Some(1u32));
        assert!(u.pop_lowest().is_none())
    }
    {
        let mut u = TinySet::empty().insert(1u32).insert(1u32);
        assert_eq!(u.pop_lowest(), Some(1u32));
        assert!(u.pop_lowest().is_none())
    }
    {
        let mut u = TinySet::empty().insert(2u32);
        assert_eq!(u.pop_lowest(), Some(2u32));
        u.insert_mut(1u32);
        assert_eq!(u.pop_lowest(), Some(1u32));
        assert!(u.pop_lowest().is_none());
    }
    {
        let mut u = TinySet::empty().insert(63u32);
        assert_eq!(u.pop_lowest(), Some(63u32));
        assert!(u.pop_lowest().is_none());
    }
    {
        let mut u = TinySet::empty().insert(63u32).insert(5);
        assert_eq!(u.pop_lowest(), Some(5u32));
        assert_eq!(u.pop_lowest(), Some(63u32));
        assert!(u.pop_lowest().is_none());
    }
    {
        let u = TinySet::empty().insert(63u32).insert(5);
        let mut data = vec![];
        u.serialize(&mut data).unwrap();
        let mut u = TinySet::deserialize(data[..8].try_into().unwrap()).unwrap();
        assert_eq!(u.pop_lowest(), Some(5u32));
        assert_eq!(u.pop_lowest(), Some(63u32));
        assert!(u.pop_lowest().is_none());
    }
}

#[test]
fn test_bitset() {
    let test_against_hashset = |els: &[u32], max_value: u32| {
        let mut hashset: HashSet<u32> = HashSet::new();
        let mut bitset = BitSet::with_max_value(max_value);
        for &el in els {
            assert!(el < max_value);
            hashset.insert(el);
            bitset.insert(el);
        }
        for el in 0..max_value {
            assert_eq!(hashset.contains(&el), bitset.contains(el));
        }
        assert_eq!(bitset.max_value(), max_value);

        // test deser
        let mut data = vec![];
        bitset.serialize(&mut data).unwrap();
        let bitset = BitSet::deserialize(&data).unwrap();
        for el in 0..max_value {
            assert_eq!(hashset.contains(&el), bitset.contains(el));
        }
        assert_eq!(bitset.max_value(), max_value);
        assert_eq!(bitset.len(), els.len());
    };

    test_against_hashset(&[], 0);
    test_against_hashset(&[], 1);
    test_against_hashset(&[0u32], 1);
    test_against_hashset(&[0u32], 100);
    test_against_hashset(&[1u32, 2u32], 4);
    test_against_hashset(&[99u32], 100);
    test_against_hashset(&[63u32], 64);
    test_against_hashset(&[62u32, 63u32], 64);
}

#[test]
fn test_bitset_num_buckets() {
    assert_eq!(num_buckets(0u32), 0);
    assert_eq!(num_buckets(1u32), 1);
    assert_eq!(num_buckets(64u32), 1);
    assert_eq!(num_buckets(65u32), 2);
    assert_eq!(num_buckets(128u32), 2);
    assert_eq!(num_buckets(129u32), 3);
}

#[test]
fn test_tinyset_range() {
    assert_eq!(TinySet::range_lower(3).into_iter().collect(), [0, 1, 2]);
    assert!(TinySet::range_lower(0).is_empty());
    assert_eq!(
        TinySet::range_lower(63).into_iter().collect(),
        (0u32..63u32).collect::<Vec<_>>()
    );
    assert_eq!(TinySet::range_lower(1).into_iter().collect(), [0]);
    assert_eq!(TinySet::range_lower(2).into_iter().collect(), [0, 1]);
    assert_eq!(
        TinySet::range_greater_or_equal(3).into_iter().collect(),
        (3u32..64u32).collect::<Vec<_>>()
    );
}

#[test]
fn test_bitset_len() {
    let mut bitset = BitSet::with_max_value(1_000);
    assert_eq!(bitset.len(), 0);
    bitset.insert(3u32);
    assert_eq!(bitset.len(), 1);
    bitset.insert(103u32);
    assert_eq!(bitset.len(), 2);
    bitset.insert(3u32);
    assert_eq!(bitset.len(), 2);
    bitset.insert(103u32);
    assert_eq!(bitset.len(), 2);
    bitset.insert(104u32);
    assert_eq!(bitset.len(), 3);
    bitset.remove(105u32);
    assert_eq!(bitset.len(), 3);
    bitset.remove(104u32);
    assert_eq!(bitset.len(), 2);
    bitset.remove(3u32);
    assert_eq!(bitset.len(), 1);
    bitset.remove(103u32);
    assert_eq!(bitset.len(), 0);
}

fn sample_with_seed(n: u32, ratio: f64, seed_val: u8) -> Vec<u32> {
    StdRng::from_seed([seed_val; 32])
        .sample_iter(&Bernoulli::new(ratio).unwrap())
        .take(n as usize)
        .enumerate()
        .filter_map(|(val, keep)| if keep { Some(val as u32) } else { None })
        .collect()
}

fn sample(n: u32, ratio: f64) -> Vec<u32> {
    sample_with_seed(n, ratio, 4)
}

#[test]
fn test_bitset_clear() {
    let mut bitset = BitSet::with_max_value(1_000);
    let els = sample(1_000, 0.01f64);
    for &el in &els {
        bitset.insert(el);
    }
    assert!(els.iter().all(|el| bitset.contains(*el)));
    bitset.clear();
    for el in 0u32..1000u32 {
        assert!(!bitset.contains(el));
    }
}
