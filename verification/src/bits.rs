//! Bit-level facts about `u64` words, shared by the set types.

use vstd::prelude::*;

verus! {

/// Bit `i` of `v` is set.
pub open spec fn has_bit(v: u64, i: u64) -> bool {
    (v >> i) & 1u64 == 1u64
}

/// Number of set bits of `v` among the bits `0 .. n`.
pub open spec fn ones_below(v: u64, n: nat) -> nat
    decreases n,
{
    if n == 0 {
        0
    } else {
        ones_below(v, (n - 1) as nat) + if has_bit(v, (n - 1) as u64) { 1nat } else { 0nat }
    }
}

/// Positions among `0 .. n` where `v` has a set bit.
pub open spec fn positions_below(v: u64, n: nat) -> Set<u32> {
    Set::new(|i: u32| i < n && has_bit(v, i as u64))
}

pub proof fn lemma_bit_and(a: u64, b: u64, i: u64)
    ensures
        has_bit(a & b, i) == (has_bit(a, i) && has_bit(b, i)),
{
    assert(((a & b) >> i) & 1u64 == 1u64 <==> ((a >> i) & 1u64 == 1u64 && (b >> i) & 1u64
        == 1u64)) by (bit_vector);
}

pub proof fn lemma_bit_or(a: u64, b: u64, i: u64)
    ensures
        has_bit(a | b, i) == (has_bit(a, i) || has_bit(b, i)),
{
    assert(((a | b) >> i) & 1u64 == 1u64 <==> ((a >> i) & 1u64 == 1u64 || (b >> i) & 1u64
        == 1u64)) by (bit_vector);
}

pub proof fn lemma_bit_xor(a: u64, b: u64, i: u64)
    ensures
        has_bit(a ^ b, i) == (has_bit(a, i) != has_bit(b, i)),
{
    assert(((a ^ b) >> i) & 1u64 == 1u64 <==> ((a >> i) & 1u64 == 1u64) != ((b >> i) & 1u64
        == 1u64)) by (bit_vector);
}

pub proof fn lemma_bit_not(a: u64, i: u64)
    requires
        i < 64,
    ensures
        has_bit(!a, i) == !has_bit(a, i),
{
    assert(i < 64 ==> (((!a) >> i) & 1u64 == 1u64 <==> !((a >> i) & 1u64 == 1u64)))
        by (bit_vector);
}

pub proof fn lemma_bit_zero(i: u64)
    ensures
        !has_bit(0u64, i),
{
    assert((0u64 >> i) & 1u64 != 1u64) by (bit_vector);
}

pub proof fn lemma_bit_single(k: u64, i: u64)
    requires
        k < 64,
        i < 64,
    ensures
        has_bit(1u64 << k, i) == (i == k),
{
    assert(k < 64 && i < 64 ==> (((1u64 << k) >> i) & 1u64 == 1u64 <==> i == k))
        by (bit_vector);
}

pub proof fn lemma_bit_low_mask(k: u64, i: u64)
    requires
        k < 64,
        i < 64,
    ensures
        1u64 <= (1u64 << k),
        has_bit(((1u64 << k) - 1) as u64, i) == (i < k),
{
    assert(k < 64 ==> 1u64 <= (1u64 << k)) by (bit_vector);
    assert(k < 64 && i < 64 ==> ((((1u64 << k) - 1u64) as u64 >> i) & 1u64 == 1u64 <==> i < k))
        by (bit_vector);
}

/// Two words with the same bits in `0 .. 64` are equal.
pub proof fn lemma_bits_equal(a: u64, b: u64)
    requires
        forall|i: u64| i < 64 ==> has_bit(a, i) == has_bit(b, i),
    ensures
        a == b,
{
    let x = a ^ b;
    if x != 0 {
        vstd::std_specs::bits::axiom_u64_trailing_zeros(x);
        let t = vstd::std_specs::bits::u64_trailing_zeros(x) as u64;
        assert(has_bit(x, t));
        lemma_bit_xor(a, b, t);
        assert(has_bit(a, t) == has_bit(b, t));
    }
    assert(a ^ b == 0u64 ==> a == b) by (bit_vector);
}

/// The positions of the set bits below `n` form a finite set whose size is
/// the count of those bits.
pub proof fn lemma_positions_below(v: u64, n: nat)
    requires
        n <= 64,
    ensures
        positions_below(v, n).finite(),
        positions_below(v, n).len() == ones_below(v, n),
    decreases n,
{
    if n == 0 {
        assert(positions_below(v, n) =~= Set::<u32>::empty());
    } else {
        let m = (n - 1) as nat;
        lemma_positions_below(v, m);
        let k = m as u32;
        if has_bit(v, m as u64) {
            assert(positions_below(v, n) =~= positions_below(v, m).insert(k));
        } else {
            assert(positions_below(v, n) =~= positions_below(v, m));
        }
    }
}

pub proof fn lemma_ones_below_bound(v: u64, n: nat)
    ensures
        ones_below(v, n) <= n,
    decreases n,
{
    if n > 0 {
        lemma_ones_below_bound(v, (n - 1) as nat);
    }
}

/// `u64::count_ones`: the number of ones in the binary representation of
/// the word, which is its count of set bits among the positions `0 .. 64`.
#[verifier::external_body]
pub(crate) fn u64_count_ones(v: u64) -> (r: u32)
    ensures
        r as nat == ones_below(v, 64),
{
    v.count_ones()
}

} // verus!
