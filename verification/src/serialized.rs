//! `ReadSerializedBitSet`: reads the serialized form of a `BitSet` in place,
//! from an `OwnedBytes` buffer, without building the set.

use vstd::prelude::*;
use vstd::bytes::{spec_u32_from_le_bytes, spec_u64_from_le_bytes};
use ownedbytes::OwnedBytes;
use crate::bitset::{
    buckets_view, decode_buckets, flat_count, lemma_below_counts, lemma_flat_count_bound,
    lemma_flat_count_buckets, lemma_tiny_prefix_len, set_below, unset_below,
};
use crate::bits::lemma_ones_below_bound;
use crate::tinyset::{lemma_view_len, TinySet};

verus! {

/// `ownedbytes::OwnedBytes`, a shared, cheaply sliceable byte buffer.
#[verifier::external_type_specification]
#[verifier::external_body]
pub struct ExOwnedBytes(OwnedBytes);

/// The bytes that an `OwnedBytes` exposes (its `as_slice()`).
pub uninterp spec fn owned_bytes_content(b: OwnedBytes) -> Seq<u8>;

/// `OwnedBytes::split`: the left part holds the first `split_len` bytes,
/// the right part the rest (`split_at` on the underlying slice, which
/// panics past the end, hence the `requires`).
#[verifier::external_body]
fn owned_bytes_split(data: OwnedBytes, split_len: usize) -> (r: (OwnedBytes, OwnedBytes))
    requires
        split_len <= owned_bytes_content(data).len(),
    ensures
        owned_bytes_content(r.0) == owned_bytes_content(data).subrange(0, split_len as int),
        owned_bytes_content(r.1) == owned_bytes_content(data).subrange(
            split_len as int,
            owned_bytes_content(data).len() as int,
        ),
{
    data.split(split_len)
}

/// `OwnedBytes::clone` (derived): the copy shares the same slice of the
/// same buffer, so it exposes the same bytes.
pub assume_specification[ <OwnedBytes as Clone>::clone ](data: &OwnedBytes) -> (r: OwnedBytes)
    ensures
        owned_bytes_content(r) == owned_bytes_content(*data),
;

/// `OwnedBytes::as_slice`: the bytes of the buffer.
#[verifier::external_body]
fn owned_bytes_as_slice(data: &OwnedBytes) -> (r: &[u8])
    ensures
        r@ == owned_bytes_content(*data),
{
    data.as_slice()
}

/// Bit `el % 8` of byte `el / 8`.
pub open spec fn byte_bit(bytes: Seq<u8>, el: u32) -> bool {
    (bytes[(el / 8) as int] >> ((el % 8) as u8)) & 1u8 == 1u8
}

pub proof fn lemma_seq_push_contains(s: Seq<u32>, a: u32, v: u32)
    ensures
        s.push(a).contains(v) == (s.contains(v) || v == a),
{
    if s.contains(v) {
        let k = choose|k: int| 0 <= k < s.len() && s[k] == v;
        assert(s.push(a)[k] == v);
    }
    if v == a {
        assert(s.push(a)[s.len() as int] == v);
    }
    if s.push(a).contains(v) {
        let k = choose|k: int| 0 <= k < s.push(a).len() && s.push(a)[k] == v;
        if k < s.len() {
            assert(s[k] == v);
        }
    }
}

proof fn lemma_vec_push_contains(before: Seq<u32>, after: Seq<u32>, a: u32, v: u32)
    requires
        after == before.push(a),
    ensures
        after.contains(v) == (before.contains(v) || v == a),
{
    lemma_seq_push_contains(before, a, v);
}

/// Lazy Read a serialized BitSet.
#[derive(Clone)]
pub struct ReadSerializedBitSet {
    data: OwnedBytes,
    max_value: u32,
}

impl ReadSerializedBitSet {
    /// The serialized buckets, the header left out.
    pub closed spec fn bytes(&self) -> Seq<u8> {
        owned_bytes_content(self.data)
    }

    /// The bound read from the header.
    pub closed spec fn max(&self) -> u32 {
        self.max_value
    }

    /// The buckets that the bytes hold.
    pub open spec fn chunks(&self) -> Seq<TinySet> {
        decode_buckets(self.bytes())
    }

    pub fn new(data: OwnedBytes) -> (r: ReadSerializedBitSet)
        requires
            owned_bytes_content(data).len() >= 4,
        ensures
            r.max() == spec_u32_from_le_bytes(owned_bytes_content(data).subrange(0, 4)),
            r.bytes() == owned_bytes_content(data).subrange(
                4,
                owned_bytes_content(data).len() as int,
            ),
    {
        let (max_value_data, data) = owned_bytes_split(data, 4);
        let max_value: u32 = vstd::bytes::u32_from_le_bytes(owned_bytes_as_slice(&max_value_data));
        ReadSerializedBitSet { data, max_value }
    }

    /// `new`, or `None` where the data is too short to hold the header.
    pub fn try_new(data: OwnedBytes) -> (r: Option<ReadSerializedBitSet>)
        ensures
            r is None <==> owned_bytes_content(data).len() < 4,
            r matches Some(s) ==> {
                &&& s.max() == spec_u32_from_le_bytes(owned_bytes_content(data).subrange(0, 4))
                &&& s.bytes() == owned_bytes_content(data).subrange(
                    4,
                    owned_bytes_content(data).len() as int,
                )
            },
    {
        if owned_bytes_as_slice(&data).len() < 4 {
            None
        } else {
            Some(ReadSerializedBitSet::new(data))
        }
    }

    /// The chunk `chunk_num` of the serialized buckets.
    fn tinyset_at(&self, chunk_num: usize) -> (r: TinySet)
        requires
            chunk_num < self.bytes().len() / 8,
        ensures
            r == self.chunks()[chunk_num as int],
    {
        let data = owned_bytes_as_slice(&self.data);
        let dlen = data.len();
        assert(8 * chunk_num + 8 <= dlen) by (nonlinear_arith)
            requires
                chunk_num < dlen / 8,
        ;
        let b = 8 * chunk_num;
        let chunk: [u8; 8] = [
            data[b],
            data[b + 1],
            data[b + 2],
            data[b + 3],
            data[b + 4],
            data[b + 5],
            data[b + 6],
            data[b + 7],
        ];
        let r = TinySet::deserialize(chunk).unwrap();
        proof {
            assert(chunk@ =~= data@.subrange(8 * chunk_num as int, 8 * chunk_num as int + 8));
            r.lemma_from_value_value();
        }
        r
    }

    /// Count the number of unset bits from serialized data.
    ///
    pub fn count_unset(&self) -> (r: usize)
        requires
            self.bytes().len() % 8 == 0,
        ensures
            r == unset_below(self.chunks(), self.max()).len(),
            r == self.max() - set_below(self.chunks(), self.max()).len(),
    {
        let max_value = self.max_value;
        let n = owned_bytes_as_slice(&self.data).len() / 8;
        let ghost chunks = self.chunks();
        let ghost t: nat = if max_value < 64 * n { max_value as nat } else { (64 * n) as nat };
        let mut num_set: usize = 0;
        let mut chunk_num: usize = 0;
        let mut base: u32 = 0;
        loop
            invariant_except_break
                num_set == flat_count(chunks, base as nat),
            invariant
                chunk_num <= n,
                n == chunks.len(),
                chunks == self.chunks(),
                max_value == self.max(),
                t == if max_value < 64 * n { max_value as nat } else { (64 * n) as nat },
                base == 64 * chunk_num,
                base <= max_value,
            ensures
                num_set == flat_count(chunks, t),
            decreases max_value - base,
        {
            if chunk_num == n || base == max_value {
                break;
            }
            let tinyset = self.tinyset_at(chunk_num);
            let rem = max_value - base;
            proof {
                lemma_flat_count_buckets(chunks, chunk_num as nat, 0);
                lemma_flat_count_bound(chunks, base as nat);
            }
            if rem >= 64 {
                proof {
                    lemma_flat_count_buckets(chunks, chunk_num as nat, 64);
                    lemma_view_len(tinyset);
                }
                num_set = num_set + tinyset.len() as usize;
                base = base + 64;
                chunk_num = chunk_num + 1;
            } else {
                let below = TinySet::range_lower(rem);
                proof {
                    lemma_flat_count_buckets(chunks, chunk_num as nat, rem as nat);
                    lemma_tiny_prefix_len(tinyset, rem);
                    lemma_ones_below_bound(tinyset.value(), rem as nat);
                }
                num_set = num_set + tinyset.intersect(below).len() as usize;
                break;
            }
        }
        proof {
            lemma_below_counts(chunks, max_value, t);
        }
        max_value as usize - num_set
    }

    /// Iterate over the positions of the unset elements.
    ///
    /// The values below `max_value` that the set does not hold, in
    /// increasing order; as many as `count_unset` counts.
    pub fn iter_unset(&self) -> (r: Vec<u32>)
        requires
            self.bytes().len() % 8 == 0,
        ensures
            forall|i: int, j: int| 0 <= i < j < r@.len() ==> r@[i] < r@[j],
            forall|x: u32|
                r@.contains(x) <==> (x < self.max() && !buckets_view(self.chunks()).contains(x)),
            r@.len() == unset_below(self.chunks(), self.max()).len(),
    {
        let max_value = self.max_value;
        let n = owned_bytes_as_slice(&self.data).len() / 8;
        let ghost chunks = self.chunks();
        let ghost max = self.max();
        let mut out: Vec<u32> = Vec::new();
        let mut chunk_num: usize = 0;
        let mut base: u32 = 0;
        loop
            invariant_except_break
                forall|i: int| 0 <= i < out@.len() ==> out@[i] < base,
                forall|x: u32|
                    out@.contains(x) <==> (x < base && !buckets_view(chunks).contains(x)),
            invariant
                chunk_num <= n,
                n == chunks.len(),
                chunks == self.chunks(),
                max_value == max,
                max == self.max(),
                base == 64 * chunk_num,
                base <= max_value,
                forall|i: int, k: int| 0 <= i < k < out@.len() ==> out@[i] < out@[k],
            ensures
                forall|i: int, k: int| 0 <= i < k < out@.len() ==> out@[i] < out@[k],
                forall|x: u32|
                    out@.contains(x) <==> (x < max && !buckets_view(chunks).contains(x)),
            decreases max_value - base,
        {
            if base == max_value {
                break;
            }
            if chunk_num == n {
                // past the last chunk, no value is set
                let mut x: u32 = base;
                while x < max_value
                    invariant
                        base <= x <= max_value,
                        base == 64 * n,
                        n == chunks.len(),
                        forall|i: int, k: int| 0 <= i < k < out@.len() ==> out@[i] < out@[k],
                        forall|i: int| 0 <= i < out@.len() ==> out@[i] < x,
                        forall|y: u32|
                            out@.contains(y) <==> (y < x && !buckets_view(chunks).contains(y)),
                    decreases max_value - x,
                {
                    let ghost before = out@;
                    out.push(x);
                    proof {
                        assert(!buckets_view(chunks).contains(x));
                        assert forall|y: u32| #[trigger] out@.contains(y) <==> (before.contains(y)
                            || y == x) by {
                            lemma_vec_push_contains(before, out@, x, y);
                        }
                    }
                    x = x + 1;
                }
                break;
            }
            let tinyset = self.tinyset_at(chunk_num);
            let missing = tinyset.complement();
            let vals = missing.into_iter().collect();
            let ghost out0 = out@;
            let mut j: usize = 0;
            loop
                invariant
                    j <= vals@.len(),
                    chunk_num < n,
                    base == 64 * chunk_num,
                    base < max_value,
                    max_value == max,
                    tinyset == chunks[chunk_num as int],
                    missing@ == crate::tinyset::tiny_domain().difference(tinyset@),
                    forall|i: int, k: int| 0 <= i < k < vals@.len() ==> vals@[i] < vals@[k],
                    forall|v: u32| vals@.contains(v) <==> missing@.contains(v),
                    forall|i: int, k: int| 0 <= i < k < out@.len() ==> out@[i] < out@[k],
                    forall|i: int| 0 <= i < out@.len() ==> out@[i] < base + 64,
                    forall|i: int|
                        0 <= i < out@.len() && j < vals@.len() ==> out@[i] < base + vals@[j as int],
                    forall|x: u32|
                        out@.contains(x) <==> (out0.contains(x) || (x < max && x / 64 == chunk_num
                            && vals@.take(j as int).contains((x % 64) as u32))),
                    forall|x: u32|
                        out0.contains(x) <==> (x < base && !buckets_view(chunks).contains(x)),
                ensures
                    forall|i: int, k: int| 0 <= i < k < out@.len() ==> out@[i] < out@[k],
                    forall|i: int| 0 <= i < out@.len() ==> out@[i] < base + 64,
                    forall|x: u32|
                        out@.contains(x) <==> (out0.contains(x) || (x < max && x / 64 == chunk_num
                            && missing@.contains((x % 64) as u32))),
                decreases vals@.len() - j,
            {
                if j >= vals.len() {
                    proof {
                        assert(vals@.take(j as int) =~= vals@);
                        assert forall|x: u32| #[trigger] out@.contains(x) <==> (out0.contains(x) || (x
                            < max && x / 64 == chunk_num && missing@.contains((x % 64) as u32))) by {
                            let v = (x % 64) as u32;
                            assert(vals@.contains(v) == missing@.contains(v));
                        }
                    }
                    break;
                }
                let val = vals[j];
                proof {
                    assert(missing@.contains(val));
                }
                let doc = val + base;
                if doc >= max_value {
                    proof {
                        assert forall|x: u32|
                            #![trigger out0.contains(x)]
                            x < max && x / 64 == chunk_num && missing@.contains(
                                (x % 64) as u32,
                            ) implies vals@.take(j as int).contains((x % 64) as u32) by {
                            let v = (x % 64) as u32;
                            assert(vals@.contains(v));
                            let l = choose|l: int| 0 <= l < vals@.len() && vals@[l] == v;
                            if l >= j {
                                assert(vals@[j as int] <= vals@[l]);
                                assert(x == base + v);
                            }
                            assert(vals@.take(j as int)[l] == v);
                        }
                    }
                    break;
                }
                let ghost before = out@;
                proof {
                    assert forall|x: u32| #[trigger] before.contains(x) <==> (out0.contains(x) || (x
                        < max && x / 64 == chunk_num && vals@.take(j as int).contains(
                        (x % 64) as u32,
                    ))) by {
                        assert(before.contains(x) == out@.contains(x));
                    }
                }
                out.push(doc);
                proof {
                    assert(doc / 64 == chunk_num && doc % 64 == val);
                    assert(vals@.take(j + 1) =~= vals@.take(j as int).push(val));
                    assert forall|x: u32| #[trigger] out@.contains(x) <==> (before.contains(x) || x
                        == doc) by {
                        lemma_vec_push_contains(before, out@, doc, x);
                    }
                    assert forall|x: u32| #[trigger] out@.contains(x) <==> (out0.contains(x) || (x
                        < max && x / 64 == chunk_num && vals@.take(j + 1).contains(
                        (x % 64) as u32,
                    ))) by {
                        let v = (x % 64) as u32;
                        lemma_seq_push_contains(vals@.take(j as int), val, v);
                        if x / 64 == chunk_num && v == val {
                            assert(x == doc);
                        }
                    }
                    if j + 1 < vals@.len() {
                        assert(vals@[j as int] < vals@[j + 1]);
                    }
                }
                j = j + 1;
            }
            proof {
                assert forall|x: u32| #[trigger] out@.contains(x) <==> (x < max && x < base + 64
                    && !buckets_view(chunks).contains(x)) by {
                    assert(out0.contains(x) <==> (x < base && !buckets_view(chunks).contains(x)));
                    assert(out@.contains(x) <==> (out0.contains(x) || (x < max && x / 64 == chunk_num
                        && missing@.contains((x % 64) as u32))));
                    if x / 64 == chunk_num {
                        assert(buckets_view(chunks).contains(x) == tinyset@.contains(
                            (x % 64) as u32,
                        ));
                        assert((x % 64) < 64);
                    }
                    assert((x / 64 == chunk_num) == (base <= x < base + 64));
                }
            }
            if max_value - base <= 64 {
                proof {
                    assert forall|x: u32| #[trigger] out@.contains(x) <==> (x < max
                        && !buckets_view(chunks).contains(x)) by {}
                }
                break;
            }
            base = base + 64;
            chunk_num = chunk_num + 1;
        }
        proof {
            let u = unset_below(chunks, max);
            assert(out@.no_duplicates());
            out@.unique_seq_to_set();
            assert(out@.to_set() =~= u);
        }
        out
    }

    /// `count_unset`, or `None` where the serialized buckets do not fill a
    /// whole number of 8-byte words.
    pub fn try_count_unset(&self) -> (r: Option<usize>)
        ensures
            r is None <==> self.bytes().len() % 8 != 0,
            r matches Some(c) ==> c == unset_below(self.chunks(), self.max()).len(),
    {
        if owned_bytes_as_slice(&self.data).len() % 8 != 0 {
            None
        } else {
            Some(self.count_unset())
        }
    }

    /// `iter_unset`, or `None` where the serialized buckets do not fill a
    /// whole number of 8-byte words.
    pub fn try_iter_unset(&self) -> (r: Option<Vec<u32>>)
        ensures
            r is None <==> self.bytes().len() % 8 != 0,
            r matches Some(v) ==> {
                &&& forall|i: int, j: int| 0 <= i < j < v@.len() ==> v@[i] < v@[j]
                &&& forall|x: u32|
                    v@.contains(x) <==> (x < self.max() && !buckets_view(self.chunks()).contains(x))
            },
    {
        if owned_bytes_as_slice(&self.data).len() % 8 != 0 {
            None
        } else {
            Some(self.iter_unset())
        }
    }

    /// `contains`, or `None` where `el` lies past the serialized bytes.
    pub fn try_contains(&self, el: u32) -> (r: Option<bool>)
        ensures
            r is None <==> el / 8 >= self.bytes().len(),
            r matches Some(b) ==> b == byte_bit(self.bytes(), el),
    {
        if (el / 8) as usize >= owned_bytes_as_slice(&self.data).len() {
            None
        } else {
            Some(self.contains(el))
        }
    }

    /// Returns true iff the elements is in the `BitSet`.
    pub fn contains(&self, el: u32) -> (r: bool)
        requires
            el / 8 < self.bytes().len(),
        ensures
            r == byte_bit(self.bytes(), el),
    {
        let byte_offset = el / 8u32;
        let b: u8 = owned_bytes_as_slice(&self.data)[byte_offset as usize];
        let shift = (el % 8) as u8;
        proof {
            assert(shift < 8 ==> ((b & (1u8 << shift) != 0u8) == ((b >> shift) & 1u8 == 1u8)))
                by (bit_vector);
        }
        b & (1u8 << shift) != 0
    }

    /// Returns the max_value.
    pub fn max_value(&self) -> (r: u32)
        ensures
            r == self.max(),
    {
        self.max_value
    }
}

} // verus!
