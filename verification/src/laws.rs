//! Properties that relate several operations of the library: what reading
//! back a serialized set gives, and how the lazy reader agrees with the set
//! it was written from.

use vstd::prelude::*;
use vstd::bytes::{
    lemma_auto_spec_u64_to_from_le_bytes, spec_u64_from_le_bytes, spec_u64_to_le_bytes,
    spec_u64_to_le_bytes_open, spec_u64_to_le_bytes_to_open,
};
use crate::bits::has_bit;
use vstd::bytes::spec_u32_from_le_bytes;
use crate::bitset::{
    buckets_bytes, decode_buckets, lemma_below_counts, lemma_buckets_bytes_len,
    lemma_buckets_bytes_word, lemma_decode_buckets_bytes, lemma_total_ones_is_len,
    law_serialize_roundtrip, set_below, spec_num_buckets, unset_below, BitSet,
};
use crate::serialized::{byte_bit, lemma_seq_push_contains};
use crate::tinyset::{pop_step, TinySet};

verus! {

/// Reading the bytes that `TinySet::serialize` writes with
/// `TinySet::deserialize` gives back the same set.
pub proof fn law_tinyset_serialize_roundtrip(t: TinySet)
    ensures
        spec_u64_to_le_bytes(t.value()).len() == 8,
        TinySet::from_value(spec_u64_from_le_bytes(spec_u64_to_le_bytes(t.value()))) == t,
{
    lemma_auto_spec_u64_to_from_le_bytes();
    t.lemma_from_value_value();
}

/// Bit `b` of byte `j` of the little-endian bytes of `v` is bit `8 * j + b`
/// of `v`.
proof fn lemma_le_byte_bit(v: u64, el: u32)
    requires
        el < 64,
    ensures
        ((spec_u64_to_le_bytes(v)[(el / 8) as int] >> ((el % 8) as u8)) & 1u8 == 1u8) == has_bit(
            v,
            el as u64,
        ),
{
    spec_u64_to_le_bytes_to_open(v);
    let j = (el / 8) as u64;
    let b: u8 = (el % 8) as u8;
    let s: u64 = (8 * j) as u64;
    let t: u64 = el as u64;
    assert(t == s + b);
    assert(((((v >> s) & 0xffu64) as u8 >> b) & 1u8 == 1u8) == ((v >> t) & 1u64 == 1u64))
        by (bit_vector)
        requires
            s <= 56,
            b < 8,
            t == s + b,
    ;
    assert(v >> 0u64 == v) by (bit_vector);
    let bytes = spec_u64_to_le_bytes_open(v);
    assert(bytes[j as int] == ((v >> s) & 0xffu64) as u8);
}

/// In the serialized buckets, bit `el % 8` of byte `el / 8` is the
/// membership of `el` in the set.
pub proof fn law_serialized_bit_is_membership(bs: Seq<TinySet>, el: u32)
    requires
        el / 64 < bs.len(),
    ensures
        el / 8 < buckets_bytes(bs).len(),
        byte_bit(buckets_bytes(bs), el) == crate::bitset::buckets_view(bs).contains(el),
{
    let k = (el / 64) as int;
    let e = el % 64;
    lemma_buckets_bytes_len(bs);
    lemma_buckets_bytes_word(bs, k);
    let d = buckets_bytes(bs);
    assert(el / 8 == 8 * k + e / 8 && el % 8 == e % 8);
    assert(d[(el / 8) as int] == d.subrange(8 * k, 8 * k + 8)[(e / 8) as int]);
    lemma_le_byte_bit(bs[k].value(), e);
}

/// The lazy reader of a serialized set sees the set's own buckets, so it
/// counts and lists as unset exactly the values below `max_value` that the
/// set does not hold, whatever the bound: `count_unset` gives `max_value`
/// minus the number of held values below it, and `iter_unset` lists as many
/// values.
pub proof fn law_count_unset(b: BitSet)
    ensures
        buckets_bytes(b.buckets()).len() % 8 == 0,
        decode_buckets(buckets_bytes(b.buckets())) == b.buckets(),
        unset_below(b.buckets(), b.max()) == Set::new(|x: u32| x < b.max() && !b@.contains(x)),
        unset_below(b.buckets(), b.max()).len() == b.max() - Set::new(
            |x: u32| x < b.max() && b@.contains(x),
        ).len(),
{
    let bs = b.buckets();
    lemma_buckets_bytes_len(bs);
    lemma_decode_buckets_bytes(bs);
    let t: nat = if b.max() < 64 * bs.len() { b.max() as nat } else { 64 * bs.len() };
    lemma_below_counts(bs, b.max(), t);
    assert(unset_below(bs, b.max()) =~= Set::new(|x: u32| x < b.max() && !b@.contains(x)));
    assert(set_below(bs, b.max()) =~= Set::new(|x: u32| x < b.max() && b@.contains(x)));
}

/// Handing out the elements of a `TinySet` one call after another (with
/// `pop_lowest` or `TinySetIterator::next`) gives them in increasing order;
/// the handed-out values and what remains make up the starting set, every
/// value handed out is below every value that remains, and once the set is
/// empty every further call gives `None` and leaves it empty.
pub proof fn law_drain(states: Seq<Set<u32>>, outs: Seq<u32>)
    requires
        states.len() == outs.len() + 1,
        forall|i: int|
            #![trigger outs[i]]
            0 <= i < outs.len() ==> pop_step(states[i], Some(outs[i]), states[i + 1]),
    ensures
        forall|i: int, j: int| 0 <= i < j < outs.len() ==> outs[i] < outs[j],
        forall|x: u32|
            #![trigger states[0].contains(x)]
            #![trigger outs.contains(x)]
            states[0].contains(x) <==> (outs.contains(x) || states.last().contains(x)),
        forall|i: int, y: u32| 0 <= i < outs.len() && states.last().contains(y) ==> outs[i] < y,
        states.last() == Set::<u32>::empty() ==> (forall|x: u32|
            states[0].contains(x) <==> outs.contains(x)),
        forall|r: Option<u32>, after: Set<u32>|
            pop_step(Set::<u32>::empty(), r, after) ==> r is None && after == Set::<u32>::empty(),
    decreases outs.len(),
{
    let n = outs.len();
    if n > 0 {
        let ps = states.drop_last();
        let po = outs.drop_last();
        assert forall|i: int| #![trigger po[i]] 0 <= i < po.len() implies pop_step(
            ps[i],
            Some(po[i]),
            ps[i + 1],
        ) by {
            assert(outs[i] == po[i]);
        }
        law_drain(ps, po);
        let o = outs[n - 1];
        assert(pop_step(states[n - 1], Some(outs[n - 1]), states[n as int]));
        assert(outs =~= po.push(o));
        assert forall|x: u32| outs.contains(x) == (po.contains(x) || x == o) by {
            lemma_seq_push_contains(po, o, x);
        }
        assert(ps.last() == states[n - 1]);
        assert forall|x: u32| states[0].contains(x) <==> (outs.contains(x) || states.last().contains(
            x,
        )) by {
            assert(ps[0] == states[0]);
            assert(states.last() == states[n as int]);
            assert(states[n - 1].contains(x) == (x == o || states[n as int].contains(x)));
            assert(ps[0].contains(x) <==> (po.contains(x) || ps.last().contains(x)));
            assert(outs.contains(x) == (po.contains(x) || x == o));
        }
        assert forall|i: int, j: int| 0 <= i < j < outs.len() implies outs[i] < outs[j] by {
            if j == n - 1 {
                assert(po[i] == outs[i]);
            } else {
                assert(po[i] == outs[i] && po[j] == outs[j]);
            }
        }
        assert forall|i: int, y: u32| 0 <= i < outs.len() && states.last().contains(y) implies outs[i]
            < y by {
            if i < n - 1 {
                assert(po[i] == outs[i]);
            }
        }
    }
    if states.last() == Set::<u32>::empty() {
        assert forall|x: u32| states[0].contains(x) <==> outs.contains(x) by {
            assert(!states.last().contains(x));
            assert(states[0].contains(x) <==> (outs.contains(x) || states.last().contains(x)));
        }
    }
    assert forall|r: Option<u32>, after: Set<u32>|
        pop_step(Set::<u32>::empty(), r, after) implies r is None && after == Set::<u32>::empty() by {
        if r is Some {
            assert(Set::<u32>::empty().contains(r->0));
        }
    }
}

/// Inserting the values of `els` one after another into an empty set gives
/// the set of those values, whatever the order and the repeats.
pub proof fn law_inserts(views: Seq<Set<u32>>, els: Seq<u32>)
    requires
        views.len() == els.len() + 1,
        views[0] == Set::<u32>::empty(),
        forall|i: int| #![trigger els[i]] 0 <= i < els.len() ==> views[i + 1] == views[i].insert(els[i]),
    ensures
        forall|x: u32| views.last().contains(x) <==> els.contains(x),
    decreases els.len(),
{
    let n = els.len();
    if n > 0 {
        let pv = views.drop_last();
        let pe = els.drop_last();
        assert forall|i: int| #![trigger pe[i]] 0 <= i < pe.len() implies pv[i + 1] == pv[i].insert(
            pe[i],
        ) by {
            assert(els[i] == pe[i]);
        }
        law_inserts(pv, pe);
        assert(views[n as int] == views[n - 1].insert(els[n - 1]));
        assert(els =~= pe.push(els[n - 1]));
        assert forall|x: u32| els.contains(x) == (pe.contains(x) || x == els[n - 1]) by {
            lemma_seq_push_contains(pe, els[n - 1], x);
        }
    }
}

/// In a set kept within its bound, the kept count is the number of values
/// below the bound that the set holds; `len` returns it.
pub proof fn law_len_counts_values_below_bound(b: BitSet)
    requires
        b.within_bound(),
    ensures
        b@ == Set::new(|x: u32| x < b.max() && b@.contains(x)),
        b@.finite(),
        b.counted_len() == b@.len(),
{
    assert(b.buckets().len() * 64 <= 0x1_0000_0000);
    lemma_total_ones_is_len(b.buckets());
    assert(b@ =~= Set::new(|x: u32| x < b.max() && b@.contains(x)));
}

/// A set read back with `deserialize` from what `serialize` wrote has the
/// same bound, buckets, values and count, and is within its bound when the
/// written set was.
pub proof fn law_deserialize_serialized(b: BitSet, back: BitSet)
    requires
        b.wf(),
        back.wf(),
        back.max() == spec_u32_from_le_bytes(b.serialized().subrange(0, 4)),
        back.buckets() == decode_buckets(b.serialized().subrange(4, b.serialized().len() as int)),
    ensures
        back.max() == b.max(),
        back.buckets() == b.buckets(),
        back@ == b@,
        back.counted_len() == b.counted_len(),
        b.within_bound() ==> back.within_bound(),
{
    law_serialize_roundtrip(b);
}

/// For a set within its bound, the lazy reader over its serialized buckets
/// answers `contains` as the set does, for every value that the buckets
/// cover.
pub proof fn law_reader_contains(b: BitSet, el: u32)
    requires
        b.within_bound(),
        el / 64 < spec_num_buckets(b.max()),
    ensures
        el / 8 < buckets_bytes(b.buckets()).len(),
        byte_bit(buckets_bytes(b.buckets()), el) == b@.contains(el),
{
    law_serialized_bit_is_membership(b.buckets(), el);
}

} // verus!
