//! Facts about single bits of a 64-bit word, used by the criteria bitset.

use vstd::prelude::*;

verus! {

/// Whether bit `i` of `w` is set. Bits at positions 64 and above are never set.
pub open spec fn bit_set(w: u64, i: nat) -> bool {
    i < 64 && (w >> (i as u64)) & 1u64 == 1u64
}

/// No bit of zero is set.
pub proof fn lemma_bit_zero(i: nat)
    ensures
        !bit_set(0u64, i),
{
    if i < 64 {
        let k = i as u64;
        assert((0u64 >> k) & 1u64 == 0u64) by (bit_vector);
    }
}

/// A bit of `a | b` is set where it is set in `a` or in `b`.
pub proof fn lemma_bit_or(a: u64, b: u64, i: nat)
    ensures
        bit_set(a | b, i) == (bit_set(a, i) || bit_set(b, i)),
{
    if i < 64 {
        let k = i as u64;
        assert((((a | b) >> k) & 1u64 == 1u64) == (((a >> k) & 1u64 == 1u64) || ((b >> k) & 1u64
            == 1u64))) by (bit_vector);
    }
}

/// A bit of `a & b` is set where it is set in `a` and in `b`.
pub proof fn lemma_bit_and(a: u64, b: u64, i: nat)
    ensures
        bit_set(a & b, i) == (bit_set(a, i) && bit_set(b, i)),
{
    if i < 64 {
        let k = i as u64;
        assert((((a & b) >> k) & 1u64 == 1u64) == (((a >> k) & 1u64 == 1u64) && ((b >> k) & 1u64
            == 1u64))) by (bit_vector);
    }
}

/// The only bit of `1 << j` that is set is bit `j`.
pub proof fn lemma_bit_single(j: u64, i: nat)
    requires
        j < 64,
    ensures
        bit_set(1u64 << j, i) == (i == j),
{
    if i < 64 {
        let k = i as u64;
        assert(j < 64 && k < 64 ==> ((((1u64 << j) >> k) & 1u64 == 1u64) == (k == j)))
            by (bit_vector);
    }
}

/// Two words that agree at every bit position agree on their `k` lowest bits.
proof fn lemma_low_bits_agree(a: u64, b: u64, k: nat)
    requires
        k <= 63,
        forall|i: nat| i < 64 ==> bit_set(a, i) == bit_set(b, i),
    ensures
        a & !(0xffff_ffff_ffff_ffffu64 << (k as u64)) == b & !(0xffff_ffff_ffff_ffffu64 << (
        k as u64)),
    decreases k,
{
    let j = k as u64;
    if k == 0 {
        assert(a & !(0xffff_ffff_ffff_ffffu64 << 0u64) == 0u64) by (bit_vector);
        assert(b & !(0xffff_ffff_ffff_ffffu64 << 0u64) == 0u64) by (bit_vector);
    } else {
        lemma_low_bits_agree(a, b, (k - 1) as nat);
        let p = (k - 1) as u64;
        assert(bit_set(a, p as nat) == bit_set(b, p as nat));
        assert(((a >> p) & 1u64) == 0u64 || ((a >> p) & 1u64) == 1u64) by (bit_vector);
        assert(((b >> p) & 1u64) == 0u64 || ((b >> p) & 1u64) == 1u64) by (bit_vector);
        assert(p < 63 && j == p + 1 && a & !(0xffff_ffff_ffff_ffffu64 << p) == b & !(
        0xffff_ffff_ffff_ffffu64 << p) && ((a >> p) & 1u64) == ((b >> p) & 1u64) ==> a & !(
        0xffff_ffff_ffff_ffffu64 << j) == b & !(0xffff_ffff_ffff_ffffu64 << j)) by (bit_vector);
    }
}

/// Two words whose bits agree at every position are equal.
pub proof fn lemma_bits_extensional(a: u64, b: u64)
    requires
        forall|i: nat| i < 64 ==> bit_set(a, i) == bit_set(b, i),
    ensures
        a == b,
{
    lemma_low_bits_agree(a, b, 63);
    assert(bit_set(a, 63) == bit_set(b, 63));
    assert(((a >> 63u64) & 1u64) == 0u64 || ((a >> 63u64) & 1u64) == 1u64) by (bit_vector);
    assert(((b >> 63u64) & 1u64) == 0u64 || ((b >> 63u64) & 1u64) == 1u64) by (bit_vector);
    assert(a & !(0xffff_ffff_ffff_ffffu64 << 63u64) == b & !(0xffff_ffff_ffff_ffffu64 << 63u64)
        && ((a >> 63u64) & 1u64) == ((b >> 63u64) & 1u64) ==> a == b) by (bit_vector);
}

} // verus!
