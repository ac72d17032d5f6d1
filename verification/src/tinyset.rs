//! `TinySet`: a set of integers within `[0, 64)` stored as the bits of a
//! single `u64`.

use vstd::prelude::*;
use vstd::bytes::{spec_u64_from_le_bytes, spec_u64_to_le_bytes};
use crate::bits::{
    has_bit, lemma_bit_and, lemma_bit_low_mask, lemma_bit_not, lemma_bit_or, lemma_bit_single,
    lemma_bit_xor, lemma_bit_zero, lemma_bits_equal, lemma_ones_below_bound, lemma_positions_below,
    ones_below, positions_below, u64_count_ones,
};

verus! {

/// `std::io::Error`, carried in the `Result`s of the (de)serialization
/// functions; Verus sees nothing inside it.
#[verifier::external_type_specification]
#[verifier::external_body]
pub struct ExIoError(std::io::Error);

/// The integers a `TinySet` may hold: `[0, 64)`.
pub open spec fn tiny_domain() -> Set<u32> {
    Set::new(|i: u32| i < 64)
}

/// The integers of `[0, 64)` below `n`.
pub open spec fn tiny_below(n: u32) -> Set<u32> {
    Set::new(|i: u32| i < 64 && i < n)
}

/// One step of handing out elements lowest first: `None` from an empty set,
/// which stays as it is, or `Some` of the least element, which leaves the set.
pub open spec fn pop_step(before: Set<u32>, r: Option<u32>, after: Set<u32>) -> bool {
    match r {
        None => before == Set::<u32>::empty() && after == before,
        Some(x) => {
            &&& before.contains(x)
            &&& forall|y: u32| before.contains(y) ==> x <= y
            &&& after == before.remove(x)
        },
    }
}

/// A set of integers within `[0, 64)`; bit `i` of the word is set iff `i`
/// belongs to the set.
#[derive(Clone, Copy, Debug, PartialEq, Eq, Structural)]
pub struct TinySet(u64);

impl TinySet {
    /// The word that holds the set.
    pub closed spec fn value(self) -> u64 {
        self.0
    }

    /// The set whose word is `v`.
    pub closed spec fn from_value(v: u64) -> TinySet {
        TinySet(v)
    }

    /// The set whose word is `v` has word `v`.
    pub proof fn lemma_value_from_value(v: u64)
        ensures
            TinySet::from_value(v).value() == v,
    {
    }

    /// A set is the set of its word.
    pub proof fn lemma_from_value_value(self)
        ensures
            TinySet::from_value(self.value()) == self,
    {
    }
}

impl View for TinySet {
    type V = Set<u32>;

    open spec fn view(&self) -> Set<u32> {
        Set::new(|i: u32| i < 64 && has_bit(self.value(), i as u64))
    }
}

/// Two sets with the same elements are the same value.
pub proof fn lemma_view_injective(a: TinySet, b: TinySet)
    requires
        a@ == b@,
    ensures
        a == b,
{
    assert forall|i: u64| i < 64 implies has_bit(a.value(), i) == has_bit(b.value(), i) by {
        let j = i as u32;
        assert(j as u64 == i);
        assert(a@.contains(j) == (j < 64 && has_bit(a.value(), j as u64)));
        assert(b@.contains(j) == (j < 64 && has_bit(b.value(), j as u64)));
        assert(a@.contains(j) == b@.contains(j));
    }
    lemma_bits_equal(a.value(), b.value());
    a.lemma_from_value_value();
    b.lemma_from_value_value();
}

/// A `TinySet` is finite and holds as many elements as its word has set bits.
pub proof fn lemma_view_len(s: TinySet)
    ensures
        s@.finite(),
        s@.len() == ones_below(s.value(), 64),
        s@.len() <= 64,
{
    lemma_positions_below(s.value(), 64);
    assert(s@ =~= positions_below(s.value(), 64));
    lemma_ones_below_bound(s.value(), 64);
}

impl TinySet {
    /// Appends the eight little-endian bytes of the word to `writer`.
    pub fn serialize(&self, writer: &mut Vec<u8>) -> (r: Result<(), std::io::Error>)
        ensures
            r is Ok,
            final(writer)@ == old(writer)@ + spec_u64_to_le_bytes(self.value()),
    {
        let mut bytes = vstd::bytes::u64_to_le_bytes(self.0);
        writer.append(&mut bytes);
        Ok(())
    }

    /// Reads a set from the eight little-endian bytes of its word.
    pub fn deserialize(data: [u8; 8]) -> (r: Result<TinySet, std::io::Error>)
        ensures
            r matches Ok(t) && t.value() == spec_u64_from_le_bytes(data@),
    {
        let val: u64 = vstd::bytes::u64_from_le_bytes(&data);
        Ok(TinySet(val))
    }

    /// Returns an empty `TinySet`.
    pub fn empty() -> (r: TinySet)
        ensures
            r@ == Set::<u32>::empty(),
    {
        let r = TinySet(0u64);
        proof {
            assert forall|i: u32| !r@.contains(i) by {
                lemma_bit_zero(i as u64);
            }
            assert(r@ =~= Set::<u32>::empty());
        }
        r
    }

    /// Returns a full `TinySet`.
    pub fn full() -> (r: TinySet)
        ensures
            r@ == tiny_domain(),
    {
        TinySet::empty().complement()
    }

    /// Removes all elements.
    pub fn clear(&mut self)
        ensures
            final(self)@ == Set::<u32>::empty(),
    {
        self.0 = 0u64;
        proof {
            assert forall|i: u32| !self@.contains(i) by {
                lemma_bit_zero(i as u64);
            }
            assert(self@ =~= Set::<u32>::empty());
        }
    }

    /// Returns the complement of the set in `[0, 64[`.
    pub fn complement(self) -> (r: TinySet)
        ensures
            r@ == tiny_domain().difference(self@),
    {
        let r = TinySet(!self.0);
        proof {
            assert forall|i: u32| i < 64 implies r@.contains(i) == !self@.contains(i) by {
                lemma_bit_not(self.0, i as u64);
            }
            assert(r@ =~= tiny_domain().difference(self@));
        }
        r
    }

    /// Returns true iff the `TinySet` contains the element `el`.
    pub fn contains(self, el: u32) -> (r: bool)
        requires
            el < 64,
        ensures
            r == self@.contains(el),
    {
        let inter = self.intersect(TinySet::singleton(el));
        proof {
            if self@.contains(el) {
                assert(inter@.contains(el));
            } else {
                assert(inter@ =~= Set::<u32>::empty());
            }
        }
        !inter.is_empty()
    }

    /// Returns the number of elements in the TinySet.
    pub fn len(self) -> (r: u32)
        ensures
            r as nat == self@.len(),
            r <= 64,
    {
        proof {
            lemma_view_len(self);
        }
        u64_count_ones(self.0)
    }

    /// Returns the intersection of `self` and `other`
    pub fn intersect(self, other: TinySet) -> (r: TinySet)
        ensures
            r@ == self@.intersect(other@),
    {
        let r = TinySet(self.0 & other.0);
        proof {
            assert forall|i: u32| #[trigger] r@.contains(i) == (self@.contains(i) && other@.contains(i)) by {
                lemma_bit_and(self.0, other.0, i as u64);
            }
            assert(r@ =~= self@.intersect(other@));
        }
        r
    }

    /// Creates a new `TinySet` containing only one element
    /// within `[0; 64[`
    pub fn singleton(el: u32) -> (r: TinySet)
        requires
            el < 64,
        ensures
            r@ == set![el],
            r.value() == 1u64 << (el as u64),
    {
        let r = TinySet(1u64 << (el as u64));
        proof {
            assert forall|i: u32| #[trigger] r@.contains(i) == (i == el) by {
                if i < 64 {
                    lemma_bit_single(el as u64, i as u64);
                }
            }
            assert(r@ =~= set![el]);
        }
        r
    }

    /// Insert a new element within [0..64)
    pub fn insert(self, el: u32) -> (r: TinySet)
        requires
            el < 64,
        ensures
            r@ == self@.insert(el),
    {
        self.union(TinySet::singleton(el))
    }

    /// Removes an element within [0..64)
    pub fn remove(self, el: u32) -> (r: TinySet)
        requires
            el < 64,
        ensures
            r@ == self@.remove(el),
    {
        let r = self.intersect(TinySet::singleton(el).complement());
        assert(r@ =~= self@.remove(el));
        r
    }

    /// Insert a new element within [0..64)
    ///
    /// returns true if the set changed
    pub fn insert_mut(&mut self, el: u32) -> (changed: bool)
        requires
            el < 64,
        ensures
            final(self)@ == old(self)@.insert(el),
            changed == !old(self)@.contains(el),
    {
        let old = *self;
        *self = old.insert(el);
        proof {
            if old@.contains(el) {
                assert(self@ =~= old@);
                lemma_view_injective(*self, old);
            }
        }
        old != *self
    }

    /// Remove a element within [0..64)
    ///
    /// returns true if the set changed
    pub fn remove_mut(&mut self, el: u32) -> (changed: bool)
        requires
            el < 64,
        ensures
            final(self)@ == old(self)@.remove(el),
            changed == old(self)@.contains(el),
    {
        let old = *self;
        *self = old.remove(el);
        proof {
            if !old@.contains(el) {
                assert(self@ =~= old@);
                lemma_view_injective(*self, old);
            }
        }
        old != *self
    }

    /// Returns the union of two tinysets
    pub fn union(self, other: TinySet) -> (r: TinySet)
        ensures
            r@ == self@.union(other@),
    {
        let r = TinySet(self.0 | other.0);
        proof {
            assert forall|i: u32| #[trigger] r@.contains(i) == (self@.contains(i) || other@.contains(i)) by {
                lemma_bit_or(self.0, other.0, i as u64);
            }
            assert(r@ =~= self@.union(other@));
        }
        r
    }

    /// Returns true iff the `TinySet` is empty.
    pub fn is_empty(self) -> (r: bool)
        ensures
            r == (self@ == Set::<u32>::empty()),
    {
        proof {
            if self.0 == 0 {
                assert forall|i: u32| !self@.contains(i) by {
                    lemma_bit_zero(i as u64);
                }
                assert(self@ =~= Set::<u32>::empty());
            } else {
                vstd::std_specs::bits::axiom_u64_trailing_zeros(self.0);
                let t = vstd::std_specs::bits::u64_trailing_zeros(self.0);
                assert(self@.contains(t));
            }
        }
        self.0 == 0u64
    }

    /// Returns the lowest element in the `TinySet`
    /// and removes it.
    pub fn pop_lowest(&mut self) -> (r: Option<u32>)
        ensures
            pop_step(old(self)@, r, final(self)@),
    {
        if self.is_empty() {
            None
        } else {
            let ghost old_self = *self;
            proof {
                if self.0 == 0 {
                    assert forall|i: u32| !self@.contains(i) by {
                        lemma_bit_zero(i as u64);
                    }
                    assert(self@ =~= Set::<u32>::empty());
                }
                vstd::std_specs::bits::axiom_u64_trailing_zeros(self.0);
            }
            let lowest = self.0.trailing_zeros() as u32;
            self.0 = self.0 ^ TinySet::singleton(lowest).0;
            proof {
                let t = lowest as u64;
                assert(has_bit(old_self.0, t));
                assert forall|y: u32| old_self@.contains(y) implies lowest <= y by {
                    if y < lowest {
                        assert((old_self.0 >> (y as u64)) & 1u64 == 0u64);
                    }
                }
                assert forall|i: u32| #[trigger] self@.contains(i) == (old_self@.contains(i) && i != lowest) by {
                    if i < 64 {
                        lemma_bit_xor(old_self.0, 1u64 << t, i as u64);
                        lemma_bit_single(t, i as u64);
                    }
                }
                assert(self@ =~= old_self@.remove(lowest));
            }
            Some(lowest)
        }
    }

    /// Returns a `TinySet` than contains all values up
    /// to limit excluded.
    ///
    /// The limit is assumed to be strictly lower than 64.
    pub fn range_lower(upper_bound: u32) -> (r: TinySet)
        ensures
            r@ == tiny_below(upper_bound % 64),
    {
        let k: u64 = (upper_bound % 64u32) as u64;
        proof {
            lemma_bit_low_mask(k, 0);
        }
        let r = TinySet((1u64 << k) - 1u64);
        proof {
            assert forall|i: u32| #[trigger] r@.contains(i) == (i < 64 && i < k) by {
                if i < 64 {
                    lemma_bit_low_mask(k, i as u64);
                }
            }
            assert(r@ =~= tiny_below(upper_bound % 64));
        }
        r
    }

    /// Returns a `TinySet` that contains all values greater
    /// or equal to the given limit, included. (and up to 63)
    ///
    /// The limit is assumed to be strictly lower than 64.
    pub fn range_greater_or_equal(from_included: u32) -> (r: TinySet)
        ensures
            r@ == tiny_domain().difference(tiny_below(from_included % 64)),
    {
        TinySet::range_lower(from_included).complement()
    }
}


/// Iterator over the elements of a `TinySet`, lowest first.
pub struct TinySetIterator(TinySet);

impl View for TinySetIterator {
    type V = Set<u32>;

    /// The elements not yet handed out.
    open spec fn view(&self) -> Set<u32> {
        self.remaining()@
    }
}

impl TinySetIterator {
    pub closed spec fn remaining(&self) -> TinySet {
        self.0
    }

    /// Hands out the lowest element not yet handed out.
    pub fn next(&mut self) -> (r: Option<u32>)
        ensures
            pop_step(old(self)@, r, final(self)@),
    {
        self.0.pop_lowest()
    }

    /// Hands out all remaining elements, in increasing order.
    pub fn collect(self) -> (r: Vec<u32>)
        ensures
            forall|i: int, j: int| 0 <= i < j < r@.len() ==> r@[i] < r@[j],
            forall|x: u32| r@.contains(x) <==> self@.contains(x),
    {
        let mut it = self;
        let mut out: Vec<u32> = Vec::new();
        proof {
            lemma_view_len(it.0);
        }
        loop
            invariant
                it@.finite(),
                forall|i: int, j: int| 0 <= i < j < out@.len() ==> out@[i] < out@[j],
                forall|i: int, y: u32| 0 <= i < out@.len() && it@.contains(y) ==> out@[i] < y,
                forall|x: u32| (out@.contains(x) || it@.contains(x)) <==> self@.contains(x),
                forall|x: u32| !(out@.contains(x) && it@.contains(x)),
            ensures
                it@ == Set::<u32>::empty(),
            decreases it@.len(),
        {
            let ghost before = it@;
            match it.next() {
                None => {
                    break;
                },
                Some(x) => {
                    proof {
                        assert(before.remove(x).len() < before.len());
                    }
                    let ghost old_out = out@;
                    out.push(x);
                    proof {
                        assert forall|y: u32| out@.contains(y) implies (old_out.contains(y) || y == x) by {
                            let k = choose|k: int| 0 <= k < out@.len() && out@[k] == y;
                            if k < old_out.len() {
                                assert(old_out[k] == y);
                            }
                        }
                        assert forall|y: u32| old_out.contains(y) implies out@.contains(y) by {
                            let k = choose|k: int| 0 <= k < old_out.len() && old_out[k] == y;
                            assert(out@[k] == y);
                        }
                        assert(out@[out@.len() - 1] == x);
                        assert(out@.contains(x));
                    }
                },
            }
        }
        out
    }
}

impl TinySet {
    /// An iterator over the elements, lowest first.
    pub fn into_iter(self) -> (r: TinySetIterator)
        ensures
            r@ == self@,
    {
        TinySetIterator(self)
    }
}

} // verus!
