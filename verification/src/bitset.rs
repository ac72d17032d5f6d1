//! `BitSet`: a set of `u32` values held as an array of `TinySet` buckets;
//! bucket `b` holds the elements from `64 * b` to `64 * b + 63`.

use vstd::prelude::*;
use vstd::bytes::{spec_u32_from_le_bytes, spec_u32_to_le_bytes, spec_u64_from_le_bytes, spec_u64_to_le_bytes};
use vstd::bytes::{lemma_auto_spec_u32_to_from_le_bytes, lemma_auto_spec_u64_to_from_le_bytes};
use crate::bits::{has_bit, lemma_positions_below, ones_below, positions_below};
use crate::tinyset::{lemma_view_len, tiny_below, tiny_domain, TinySet};

verus! {

/// Number of buckets needed to hold the values of `[0, max_val)`.
pub open spec fn spec_num_buckets(max_val: u32) -> int {
    (max_val + 63) / 64
}

/// The values held by a sequence of buckets.
pub open spec fn buckets_view(bs: Seq<TinySet>) -> Set<u32> {
    Set::new(|el: u32| (el / 64) < bs.len() && bs[(el / 64) as int]@.contains(el % 64))
}

/// Sum of the sizes of the buckets.
pub open spec fn total_ones(bs: Seq<TinySet>) -> nat
    decreases bs.len(),
{
    if bs.len() == 0 {
        0
    } else {
        total_ones(bs.drop_last()) + bs.last()@.len()
    }
}

/// The buckets written one after the other, each as the eight
/// little-endian bytes of its word.
pub open spec fn buckets_bytes(bs: Seq<TinySet>) -> Seq<u8>
    decreases bs.len(),
{
    if bs.len() == 0 {
        Seq::empty()
    } else {
        buckets_bytes(bs.drop_last()) + spec_u64_to_le_bytes(bs.last().value())
    }
}

/// The buckets read from consecutive 8-byte little-endian words; trailing
/// bytes that do not fill a word are ignored.
pub open spec fn decode_buckets(d: Seq<u8>) -> Seq<TinySet> {
    Seq::new(
        d.len() / 8,
        |i: int| TinySet::from_value(spec_u64_from_le_bytes(d.subrange(8 * i, 8 * i + 8))),
    )
}

pub proof fn lemma_tiny_below_len(k: u32)
    requires
        k <= 64,
    ensures
        tiny_below(k).finite(),
        tiny_below(k).len() == k,
    decreases k,
{
    if k == 0 {
        assert(tiny_below(k) =~= Set::<u32>::empty());
    } else {
        lemma_tiny_below_len((k - 1) as u32);
        assert(tiny_below(k) =~= tiny_below((k - 1) as u32).insert((k - 1) as u32));
    }
}

pub proof fn lemma_tiny_domain_len()
    ensures
        tiny_domain().finite(),
        tiny_domain().len() == 64,
{
    lemma_tiny_below_len(64);
    assert(tiny_domain() =~= tiny_below(64));
}

pub proof fn lemma_total_ones_push(bs: Seq<TinySet>, t: TinySet)
    ensures
        total_ones(bs.push(t)) == total_ones(bs) + t@.len(),
{
    assert(bs.push(t).drop_last() =~= bs);
}

pub proof fn lemma_total_ones_update(bs: Seq<TinySet>, i: int, t: TinySet)
    requires
        0 <= i < bs.len(),
    ensures
        total_ones(bs.update(i, t)) + bs[i]@.len() == total_ones(bs) + t@.len(),
    decreases bs.len(),
{
    let u = bs.update(i, t);
    if i == bs.len() - 1 {
        assert(u.drop_last() =~= bs.drop_last());
    } else {
        lemma_total_ones_update(bs.drop_last(), i, t);
        assert(u.drop_last() =~= bs.drop_last().update(i, t));
    }
}

pub proof fn lemma_total_ones_bound(bs: Seq<TinySet>)
    ensures
        total_ones(bs) <= 64 * bs.len(),
    decreases bs.len(),
{
    if bs.len() > 0 {
        lemma_total_ones_bound(bs.drop_last());
        lemma_view_len(bs.last());
    }
}

pub proof fn lemma_total_ones_empty(bs: Seq<TinySet>)
    requires
        forall|i: int| 0 <= i < bs.len() ==> bs[i]@ == Set::<u32>::empty(),
    ensures
        total_ones(bs) == 0,
    decreases bs.len(),
{
    if bs.len() > 0 {
        lemma_total_ones_empty(bs.drop_last());
        assert(bs.last()@ == Set::<u32>::empty());
    }
}

/// Whether the value at flat position `t` (bucket `t / 64`, bit `t % 64`)
/// is set.
pub open spec fn flat_member(bs: Seq<TinySet>, t: int) -> bool {
    0 <= t && t / 64 < bs.len() && bs[t / 64]@.contains((t % 64) as u32)
}

/// Number of set values among the flat positions `0 .. t`.
pub open spec fn flat_count(bs: Seq<TinySet>, t: nat) -> nat
    decreases t,
{
    if t == 0 {
        0
    } else {
        flat_count(bs, (t - 1) as nat) + if flat_member(bs, t - 1) { 1nat } else { 0nat }
    }
}

/// The set flat positions below `t` are as many as `flat_count` says.
pub proof fn lemma_flat_prefix(bs: Seq<TinySet>, t: nat)
    requires
        t <= 0x1_0000_0000,
    ensures
        Set::new(|el: u32| el < t && flat_member(bs, el as int)).finite(),
        Set::new(|el: u32| el < t && flat_member(bs, el as int)).len() == flat_count(bs, t),
    decreases t,
{
    let s = Set::new(|el: u32| el < t && flat_member(bs, el as int));
    if t == 0 {
        assert(s =~= Set::<u32>::empty());
    } else {
        let m = (t - 1) as nat;
        lemma_flat_prefix(bs, m);
        let p = Set::new(|el: u32| el < m && flat_member(bs, el as int));
        let x = m as u32;
        if flat_member(bs, m as int) {
            assert(s =~= p.insert(x));
        } else {
            assert(s =~= p);
        }
    }
}

/// Counting up to bit `n` of bucket `m` is counting the full buckets before
/// it, then the bits of bucket `m` below `n`.
pub proof fn lemma_flat_count_buckets(bs: Seq<TinySet>, m: nat, n: nat)
    requires
        m < bs.len(),
        n <= 64,
    ensures
        flat_count(bs, 64 * m + n) == total_ones(bs.take(m as int)) + ones_below(
            bs[m as int].value(),
            n,
        ),
    decreases m, n,
{
    if n == 0 {
        if m == 0 {
            assert(bs.take(0) =~= Seq::<TinySet>::empty());
        } else {
            let p = (m - 1) as nat;
            lemma_flat_count_buckets(bs, p, 64);
            lemma_view_len(bs[p as int]);
            assert(bs.take(m as int).drop_last() =~= bs.take(p as int));
            assert(64 * p + 64 == 64 * m);
        }
    } else {
        let k = (n - 1) as nat;
        lemma_flat_count_buckets(bs, m, k);
        let t = 64 * m + k;
        assert(t / 64 == m && t % 64 == k) by (nonlinear_arith)
            requires
                t == 64 * m + k,
                k < 64,
        ;
        assert(flat_member(bs, t as int) == has_bit(bs[m as int].value(), k as u64));
    }
}

pub proof fn lemma_flat_count_bound(bs: Seq<TinySet>, t: nat)
    ensures
        flat_count(bs, t) <= t,
    decreases t,
{
    if t > 0 {
        lemma_flat_count_bound(bs, (t - 1) as nat);
    }
}

/// The values below `max_value` that the buckets hold.
pub open spec fn set_below(bs: Seq<TinySet>, max_value: u32) -> Set<u32> {
    Set::new(|x: u32| x < max_value && buckets_view(bs).contains(x))
}

/// The values below `max_value` that the buckets do not hold.
pub open spec fn unset_below(bs: Seq<TinySet>, max_value: u32) -> Set<u32> {
    Set::new(|x: u32| x < max_value && !buckets_view(bs).contains(x))
}

/// The set values below `max_value` are the set flat positions below
/// `t`, the smaller of `max_value` and the number of positions; together with
/// the unset values below `max_value` they are `max_value` values.
pub proof fn lemma_below_counts(bs: Seq<TinySet>, max_value: u32, t: nat)
    requires
        t == if max_value < 64 * bs.len() { max_value as nat } else { 64 * bs.len() },
    ensures
        set_below(bs, max_value).finite(),
        set_below(bs, max_value).len() == flat_count(bs, t),
        unset_below(bs, max_value).finite(),
        unset_below(bs, max_value).len() + set_below(bs, max_value).len() == max_value,
{
    lemma_flat_prefix(bs, t);
    assert forall|x: u32| #[trigger] set_below(bs, max_value).contains(x) == (x < t && flat_member(
        bs,
        x as int,
    )) by {
        assert((x / 64 < bs.len()) == (x < 64 * bs.len()));
    }
    assert(set_below(bs, max_value) =~= Set::new(|el: u32| el < t && flat_member(bs, el as int)));
    let all = Set::new(|x: u32| x < max_value);
    lemma_u32_below_len(max_value);
    vstd::set_lib::lemma_set_subset_finite(all, unset_below(bs, max_value));
    vstd::set_lib::lemma_set_disjoint_lens(set_below(bs, max_value), unset_below(bs, max_value));
    assert(set_below(bs, max_value) + unset_below(bs, max_value) =~= all);
}

/// `[0, m)` holds `m` values.
pub proof fn lemma_u32_below_len(m: u32)
    ensures
        Set::new(|x: u32| x < m).finite(),
        Set::new(|x: u32| x < m).len() == m,
    decreases m,
{
    if m == 0 {
        assert(Set::new(|x: u32| x < m) =~= Set::<u32>::empty());
    } else {
        let p = (m - 1) as u32;
        lemma_u32_below_len(p);
        assert(Set::new(|x: u32| x < m) =~= Set::new(|x: u32| x < p).insert(p));
    }
}

/// The elements of a `TinySet` below `n` are as many as its word's set bits
/// below `n`.
pub proof fn lemma_tiny_prefix_len(t: TinySet, n: u32)
    requires
        n <= 64,
    ensures
        t@.intersect(tiny_below(n)).finite(),
        t@.intersect(tiny_below(n)).len() == ones_below(t.value(), n as nat),
{
    lemma_positions_below(t.value(), n as nat);
    assert(t@.intersect(tiny_below(n)) =~= positions_below(t.value(), n as nat));
}

/// The number of values held by a sequence of buckets is the sum of the
/// bucket sizes, when every position is a `u32`.
pub proof fn lemma_total_ones_is_len(bs: Seq<TinySet>)
    requires
        bs.len() * 64 <= 0x1_0000_0000,
    ensures
        buckets_view(bs).finite(),
        buckets_view(bs).len() == total_ones(bs),
{
    let t = 64 * bs.len();
    lemma_flat_prefix(bs, t);
    assert forall|el: u32| #[trigger] buckets_view(bs).contains(el) == (el < t && flat_member(bs, el as int)) by {
        assert((el / 64 < bs.len()) == (el < t));
    }
    assert(buckets_view(bs) =~= Set::new(|el: u32| el < t && flat_member(bs, el as int)));
    if bs.len() > 0 {
        let m = (bs.len() - 1) as nat;
        lemma_flat_count_buckets(bs, m, 64);
        lemma_view_len(bs[m as int]);
        assert(bs.take(m as int) =~= bs.drop_last());
        assert(64 * m + 64 == t);
    } else {
        assert(total_ones(bs) == 0);
    }
}

pub proof fn lemma_buckets_bytes_len(bs: Seq<TinySet>)
    ensures
        buckets_bytes(bs).len() == 8 * bs.len(),
    decreases bs.len(),
{
    lemma_auto_spec_u64_to_from_le_bytes();
    if bs.len() > 0 {
        lemma_buckets_bytes_len(bs.drop_last());
    }
}

/// Bytes `8 * k .. 8 * k + 8` of the written buckets are the word of bucket `k`.
pub proof fn lemma_buckets_bytes_word(bs: Seq<TinySet>, k: int)
    requires
        0 <= k < bs.len(),
    ensures
        buckets_bytes(bs).subrange(8 * k, 8 * k + 8) == spec_u64_to_le_bytes(bs[k].value()),
    decreases bs.len(),
{
    lemma_auto_spec_u64_to_from_le_bytes();
    let p = bs.drop_last();
    lemma_buckets_bytes_len(p);
    if k == bs.len() - 1 {
        assert(buckets_bytes(bs).subrange(8 * k, 8 * k + 8) =~= spec_u64_to_le_bytes(
            bs[k].value(),
        ));
    } else {
        lemma_buckets_bytes_word(p, k);
        assert(8 * k + 8 <= 8 * p.len()) by (nonlinear_arith)
            requires
                k < p.len(),
        ;
        assert(buckets_bytes(bs).subrange(8 * k, 8 * k + 8) =~= buckets_bytes(p).subrange(
            8 * k,
            8 * k + 8,
        ));
    }
}

/// Reading written buckets gives them back.
pub proof fn lemma_decode_buckets_bytes(bs: Seq<TinySet>)
    ensures
        decode_buckets(buckets_bytes(bs)) == bs,
{
    lemma_auto_spec_u64_to_from_le_bytes();
    lemma_buckets_bytes_len(bs);
    let d = decode_buckets(buckets_bytes(bs));
    assert forall|k: int| 0 <= k < bs.len() implies d[k] == bs[k] by {
        lemma_buckets_bytes_word(bs, k);
        bs[k].lemma_from_value_value();
    }
    assert(d =~= bs);
}

/// The number of buckets for the values of `[0, max_val)` is the least `n`
/// whose `n` buckets of 64 values cover them: `64 * n >= max_val`, and
/// `n - 1` buckets would not.
pub proof fn law_num_buckets_is_least_cover(max_val: u32)
    ensures
        spec_num_buckets(max_val) >= 0,
        64 * spec_num_buckets(max_val) >= max_val,
        spec_num_buckets(max_val) == 0 || 64 * (spec_num_buckets(max_val) - 1) < max_val,
{
}

/// Number of buckets needed to hold the values of `[0, max_val)`.
pub fn num_buckets(max_val: u32) -> (r: u32)
    requires
        max_val + 63 <= u32::MAX,
    ensures
        r == spec_num_buckets(max_val),
        64 * r >= max_val,
        r == 0 || 64 * (r - 1) < max_val,
{
    proof {
        law_num_buckets_is_least_cover(max_val);
    }
    (max_val + 63u32) / 64u32
}

/// A set of `u32` values held in buckets of 64.
#[derive(Clone)]
pub struct BitSet {
    tinysets: Vec<TinySet>,
    len: u64,
    max_value: u32,
}

impl BitSet {
    /// The buckets; bucket `b` holds the values `64 * b .. 64 * b + 64`.
    pub closed spec fn buckets(&self) -> Seq<TinySet> {
        self.tinysets@
    }

    /// The element count that the set keeps up to date.
    pub closed spec fn counted_len(&self) -> u64 {
        self.len
    }

    /// The bound given at creation, or read with the serialized form.
    pub closed spec fn max(&self) -> u32 {
        self.max_value
    }

    /// The kept count is the number of set bits, and the count of all the
    /// bits that the buckets could hold fits a `u64`.
    pub open spec fn wf(&self) -> bool {
        &&& self.counted_len() == total_ones(self.buckets())
        &&& self.buckets().len() * 64 <= u64::MAX
    }

    /// The state that the constructors set up and that `insert` (of a value
    /// below the bound), `remove` and `clear` keep: well formed, one bucket
    /// per 64 values below the bound, and every held value below the bound.
    pub open spec fn within_bound(&self) -> bool {
        &&& self.wf()
        &&& self.max() + 63 <= u32::MAX
        &&& self.buckets().len() == spec_num_buckets(self.max())
        &&& forall|x: u32| #[trigger] self@.contains(x) ==> x < self.max()
    }

    /// The serialized form: the little-endian bytes of `max_value`, then
    /// those of each bucket's word.
    pub open spec fn serialized(&self) -> Seq<u8> {
        spec_u32_to_le_bytes(self.max()) + buckets_bytes(self.buckets())
    }
}

impl View for BitSet {
    type V = Set<u32>;

    open spec fn view(&self) -> Set<u32> {
        buckets_view(self.buckets())
    }
}

impl BitSet {
    /// Create a new `BitSet` that may contain elements
    /// within `[0, max_val)`.
    pub fn with_max_value(max_value: u32) -> (r: BitSet)
        requires
            max_value + 63 <= u32::MAX,
        ensures
            r.wf(),
            r.max() == max_value,
            r.buckets().len() == spec_num_buckets(max_value),
            64 * r.buckets().len() >= max_value,
            r.buckets().len() == 0 || 64 * (r.buckets().len() - 1) < max_value,
            forall|i: int| 0 <= i < r.buckets().len() ==> r.buckets()[i]@ == Set::<u32>::empty(),
            r@ == Set::<u32>::empty(),
            r.counted_len() == 0,
            r.within_bound(),
    {
        let num_buckets = num_buckets(max_value);
        let mut tinysets: Vec<TinySet> = Vec::new();
        let mut i: u32 = 0;
        while i < num_buckets
            invariant
                i <= num_buckets,
                num_buckets == spec_num_buckets(max_value),
                tinysets@.len() == i,
                forall|j: int| 0 <= j < i ==> tinysets@[j]@ == Set::<u32>::empty(),
            decreases num_buckets - i,
        {
            tinysets.push(TinySet::empty());
            i = i + 1;
        }
        let r = BitSet { tinysets, len: 0, max_value };
        proof {
            lemma_total_ones_empty(r.buckets());
            assert(r@ =~= Set::<u32>::empty());
        }
        r
    }

    /// Create a new `BitSet` that may contain elements. Initially all values will be set.
    /// within `[0, max_val)`.
    pub fn with_max_value_and_full(max_value: u32) -> (r: BitSet)
        requires
            max_value + 63 <= u32::MAX,
        ensures
            r.wf(),
            r.max() == max_value,
            r.buckets().len() == spec_num_buckets(max_value),
            64 * r.buckets().len() >= max_value,
            r.buckets().len() == 0 || 64 * (r.buckets().len() - 1) < max_value,
            r@ == Set::new(|el: u32| el < max_value),
            r.counted_len() == max_value,
            r.within_bound(),
    {
        let num_buckets = num_buckets(max_value);
        let mut tinysets: Vec<TinySet> = Vec::new();
        let mut i: u32 = 0;
        proof {
            lemma_tiny_domain_len();
        }
        while i < num_buckets
            invariant
                i <= num_buckets,
                num_buckets == spec_num_buckets(max_value),
                tinysets@.len() == i,
                forall|j: int| 0 <= j < i ==> tinysets@[j]@ == tiny_domain(),
                total_ones(tinysets@) == 64 * i,
                tiny_domain().len() == 64,
            decreases num_buckets - i,
        {
            let t = TinySet::full();
            proof {
                lemma_total_ones_push(tinysets@, t);
            }
            tinysets.push(t);
            i = i + 1;
        }
        let lower = max_value % 64u32;
        if lower != 0 {
            let last = tinysets.len() - 1;
            let t = TinySet::range_lower(lower);
            proof {
                lemma_total_ones_update(tinysets@, last as int, t);
                lemma_tiny_below_len(lower);
            }
            tinysets.set(last, t);
        }
        let r = BitSet { tinysets, len: max_value as u64, max_value };
        proof {
            let nb = num_buckets as int;
            assert(max_value % 64 != 0 ==> nb == max_value / 64 + 1);
            assert(max_value % 64 == 0 ==> nb == max_value / 64);
            assert forall|el: u32| #[trigger] r@.contains(el) == (el < max_value) by {
                let h = (el / 64) as int;
                if h < nb - 1 {
                    assert(r.buckets()[h]@ == tiny_domain());
                } else if h == nb - 1 {
                    if lower != 0 {
                        assert(r.buckets()[h]@ == tiny_below(lower));
                    } else {
                        assert(r.buckets()[h]@ == tiny_domain());
                    }
                }
            }
            assert(r@ =~= Set::new(|el: u32| el < max_value));
        }
        r
    }

    /// Removes all elements from the `BitSet`.
    pub fn clear(&mut self)
        requires
            old(self).wf(),
        ensures
            final(self).wf(),
            final(self).max() == old(self).max(),
            final(self).buckets().len() == old(self).buckets().len(),
            forall|i: int|
                0 <= i < final(self).buckets().len() ==> final(self).buckets()[i]@ == Set::<
                    u32,
                >::empty(),
            final(self)@ == Set::<u32>::empty(),
            final(self).counted_len() == 0,
            old(self).within_bound() ==> final(self).within_bound(),
    {
        let n = self.tinysets.len();
        let mut i: usize = 0;
        while i < n
            invariant
                i <= n,
                n == self.tinysets@.len(),
                n == old(self).tinysets@.len(),
                self.max_value == old(self).max_value,
                self.tinysets@.len() * 64 <= u64::MAX,
                forall|j: int| 0 <= j < i ==> self.tinysets@[j]@ == Set::<u32>::empty(),
            decreases n - i,
        {
            self.tinysets.set(i, TinySet::empty());
            i = i + 1;
        }
        self.len = 0;
        proof {
            lemma_total_ones_empty(self.buckets());
            assert(self@ =~= Set::<u32>::empty());
        }
    }

    /// Returns the number of elements in the `BitSet`.
    pub fn len(&self) -> (r: usize)
        ensures
            r == self.counted_len() as usize,
            self.wf() && self.buckets().len() * 64 <= 0x1_0000_0000 ==> self.counted_len()
                == self@.len(),
    {
        proof {
            if self.wf() && self.buckets().len() * 64 <= 0x1_0000_0000 {
                lemma_total_ones_is_len(self.buckets());
            }
        }
        self.len as usize
    }

    /// Inserts an element in the `BitSet`
    pub fn insert(&mut self, el: u32)
        requires
            old(self).wf(),
            el / 64 < old(self).buckets().len(),
        ensures
            final(self).wf(),
            final(self).max() == old(self).max(),
            final(self).buckets() == old(self).buckets().update(
                (el / 64) as int,
                final(self).buckets()[(el / 64) as int],
            ),
            final(self).buckets()[(el / 64) as int]@ == old(self).buckets()[(el
                / 64) as int]@.insert(el % 64),
            final(self)@ == old(self)@.insert(el),
            final(self).counted_len() == old(self).counted_len() + if old(self)@.contains(el) {
                0int
            } else {
                1int
            },
            old(self).within_bound() && el < old(self).max() ==> final(self).within_bound(),
    {
        // we do not check saturated els.
        let higher = el / 64u32;
        let lower = el % 64u32;
        let mut t = self.tinysets[higher as usize];
        let ghost old_t = t;
        let changed = t.insert_mut(lower);
        proof {
            lemma_total_ones_update(self.tinysets@, higher as int, t);
            lemma_total_ones_bound(self.tinysets@.update(higher as int, t));
            lemma_view_len(t);
            lemma_view_len(old_t);
            if changed {
                assert(t@ =~= old_t@.insert(lower));
                assert(!old_t@.contains(lower));
            }
        }
        self.tinysets.set(higher as usize, t);
        self.len = self.len + if changed {
            1
        } else {
            0
        };
        proof {
            assert forall|x: u32| #[trigger] self@.contains(x) == old(self)@.insert(el).contains(x) by {
                if x / 64 == higher {
                    assert(x == el <==> x % 64 == lower);
                }
            }
            assert(self@ =~= old(self)@.insert(el));
        }
    }

    /// Removes an element from the `BitSet`
    pub fn remove(&mut self, el: u32)
        requires
            old(self).wf(),
            el / 64 < old(self).buckets().len(),
        ensures
            final(self).wf(),
            final(self).max() == old(self).max(),
            final(self).buckets() == old(self).buckets().update(
                (el / 64) as int,
                final(self).buckets()[(el / 64) as int],
            ),
            final(self).buckets()[(el / 64) as int]@ == old(self).buckets()[(el
                / 64) as int]@.remove(el % 64),
            final(self)@ == old(self)@.remove(el),
            final(self).counted_len() == old(self).counted_len() - if old(self)@.contains(el) {
                1int
            } else {
                0int
            },
            old(self).within_bound() ==> final(self).within_bound(),
    {
        // we do not check saturated els.
        let higher = el / 64u32;
        let lower = el % 64u32;
        let mut t = self.tinysets[higher as usize];
        let ghost old_t = t;
        let changed = t.remove_mut(lower);
        proof {
            lemma_total_ones_update(self.tinysets@, higher as int, t);
            lemma_view_len(t);
            lemma_view_len(old_t);
            if changed {
                assert(old_t@ =~= t@.insert(lower));
            }
        }
        self.tinysets.set(higher as usize, t);
        self.len = self.len - if changed {
            1
        } else {
            0
        };
        proof {
            assert forall|x: u32| #[trigger] self@.contains(x) == old(self)@.remove(el).contains(x) by {
                if x / 64 == higher {
                    assert(x == el <==> x % 64 == lower);
                }
            }
            assert(self@ =~= old(self)@.remove(el));
        }
    }

    /// Returns true iff the elements is in the `BitSet`.
    pub fn contains(&self, el: u32) -> (r: bool)
        requires
            el / 64 < self.buckets().len(),
        ensures
            r == self@.contains(el),
    {
        self.tinyset(el / 64u32).contains(el % 64)
    }

    /// Returns the first non-empty `TinySet` associated to a bucket lower
    /// or greater than bucket.
    ///
    /// Reminder: the tiny set with the bucket `bucket`, represents the
    /// elements from `bucket * 64` to `(bucket+1) * 64`.
    pub fn first_non_empty_bucket(&self, bucket: u32) -> (r: Option<u32>)
        requires
            bucket <= self.buckets().len(),
            self.buckets().len() <= u32::MAX + 1,
        ensures
            match r {
                Some(b) => {
                    &&& bucket <= b < self.buckets().len()
                    &&& self.buckets()[b as int]@ != Set::<u32>::empty()
                    &&& forall|j: int| bucket <= j < b ==> self.buckets()[j]@ == Set::<u32>::empty()
                },
                None => forall|j: int|
                    bucket <= j < self.buckets().len() ==> self.buckets()[j]@ == Set::<u32>::empty(),
            },
    {
        let n = self.tinysets.len();
        let mut i: usize = bucket as usize;
        while i < n
            invariant
                bucket <= i <= n,
                n == self.tinysets@.len(),
                n <= u32::MAX + 1,
                forall|j: int| bucket <= j < i ==> self.tinysets@[j]@ == Set::<u32>::empty(),
            decreases n - i,
        {
            if !self.tinysets[i].is_empty() {
                return Some(i as u32);
            }
            i = i + 1;
        }
        None
    }

    pub fn max_value(&self) -> (r: u32)
        ensures
            r == self.max(),
    {
        self.max_value
    }

    /// Returns the tiny bitset representing the
    /// the set restricted to the number range from
    /// `bucket * 64` to `(bucket + 1) * 64`.
    pub fn tinyset(&self, bucket: u32) -> (r: TinySet)
        requires
            bucket < self.buckets().len(),
        ensures
            r == self.buckets()[bucket as int],
    {
        self.tinysets[bucket as usize]
    }
}

impl BitSet {
    /// serialize a `BitSet`.
    ///
    pub fn serialize(&self, writer: &mut Vec<u8>) -> (r: Result<(), std::io::Error>)
        ensures
            r is Ok,
            final(writer)@ == old(writer)@ + self.serialized(),
    {
        let mut header = vstd::bytes::u32_to_le_bytes(self.max_value);
        writer.append(&mut header);
        let n = self.tinysets.len();
        let mut i: usize = 0;
        while i < n
            invariant
                i <= n,
                n == self.tinysets@.len(),
                writer@ == old(writer)@ + spec_u32_to_le_bytes(self.max_value) + buckets_bytes(
                    self.tinysets@.take(i as int),
                ),
            decreases n - i,
        {
            let ghost before = writer@;
            match self.tinysets[i].serialize(writer) {
                Ok(()) => {},
                Err(e) => {
                    return Err(e);
                },
            }
            proof {
                let t = self.tinysets@.take(i + 1);
                assert(t.drop_last() =~= self.tinysets@.take(i as int));
                assert(t.last() == self.tinysets@[i as int]);
                assert(writer@ =~= old(writer)@ + spec_u32_to_le_bytes(self.max_value)
                    + buckets_bytes(t));
            }
            i = i + 1;
        }
        proof {
            assert(self.tinysets@.take(n as int) =~= self.tinysets@);
        }
        Ok(())
    }

    /// Deserialize a `BitSet`.
    ///
    pub fn deserialize(data: &[u8]) -> (r: Result<BitSet, std::io::Error>)
        requires
            data@.len() >= 4,
            data@.len() * 8 <= u64::MAX,
        ensures
            r matches Ok(b) && {
                &&& b.wf()
                &&& b.max() == spec_u32_from_le_bytes(data@.subrange(0, 4))
                &&& b.buckets() == decode_buckets(data@.subrange(4, data@.len() as int))
            },
    {
        let max_value: u32 = vstd::bytes::u32_from_le_bytes(vstd::slice::slice_subrange(data, 0, 4));
        let data = vstd::slice::slice_subrange(data, 4, data.len());
        let dlen = data.len();
        let n = dlen / 8;
        let mut len: u64 = 0;
        let mut tinysets: Vec<TinySet> = Vec::new();
        let mut k: usize = 0;
        while k < n
            invariant
                k <= n,
                n == data@.len() / 8,
                dlen == data@.len(),
                data@.len() * 8 <= u64::MAX,
                tinysets@ == decode_buckets(data@).take(k as int),
                len == total_ones(tinysets@),
            decreases n - k,
        {
            assert(8 * k + 8 <= data@.len()) by (nonlinear_arith)
                requires
                    k < n,
                    n == data@.len() / 8,
            ;
            let b = 8 * k;
            let chunk: [u8; 8] = [
                data[b],
                data[b + 1],
                data[b + 2],
                data[b + 3],
                data[b + 4],
                data[b + 5],
                data[b + 6],
                data[b + 7],
            ];
            let tinyset = match TinySet::deserialize(chunk) {
                Ok(t) => t,
                Err(e) => {
                    return Err(e);
                },
            };
            proof {
                assert(chunk@ =~= data@.subrange(8 * k as int, 8 * k as int + 8));
                tinyset.lemma_from_value_value();
                lemma_total_ones_push(tinysets@, tinyset);
                lemma_total_ones_bound(tinysets@.push(tinyset));
                assert(decode_buckets(data@).take(k + 1) =~= tinysets@.push(tinyset));
            }
            len = len + tinyset.len() as u64;
            tinysets.push(tinyset);
            k = k + 1;
        }
        proof {
            assert(decode_buckets(data@).take(n as int) =~= decode_buckets(data@));
        }
        Ok(BitSet { tinysets, len, max_value })
    }
}

/// Reading the serialized form of a set gives back its bound and its
/// buckets: `deserialize` applied to `b.serialized()` returns a set with the
/// same `max`, the same buckets, and so the same elements and count.
pub proof fn law_serialize_roundtrip(b: BitSet)
    ensures
        b.serialized().len() == 4 + 8 * b.buckets().len(),
        spec_u32_from_le_bytes(b.serialized().subrange(0, 4)) == b.max(),
        b.serialized().subrange(4, b.serialized().len() as int) == buckets_bytes(b.buckets()),
        decode_buckets(b.serialized().subrange(4, b.serialized().len() as int)) == b.buckets(),
{
    lemma_auto_spec_u32_to_from_le_bytes();
    lemma_buckets_bytes_len(b.buckets());
    lemma_decode_buckets_bytes(b.buckets());
    let s = b.serialized();
    assert(s.subrange(0, 4) =~= spec_u32_to_le_bytes(b.max()));
    assert(s.subrange(4, s.len() as int) =~= buckets_bytes(b.buckets()));
}

} // verus!
