//! Facts about single bits of 64-bit masks.

use vstd::prelude::*;

verus! {

/// Bit `i` of `m` is set.
pub open spec fn bit(m: u64, i: u64) -> bool {
    (m >> i) & 1u64 == 1u64
}

/// The mask with only bit `s` set.
pub open spec fn single(s: u64) -> u64 {
    1u64 << s
}

/// The mask of the bits below `l` (all bits when `l == 64`).
pub open spec fn low_mask(l: u64) -> u64 {
    if l >= 64 { !0u64 } else { ((1u64 << l) - 1) as u64 }
}

pub proof fn lemma_bit_or_single(m: u64, s: u64, i: u64)
    requires
        s < 64,
        i < 64,
    ensures
        bit(m | single(s), i) == (i == s || bit(m, i)),
{
    assert(((m | (1u64 << s)) >> i) & 1u64 == 1u64 <==> (i == s || (m >> i) & 1u64 == 1u64))
        by (bit_vector)
        requires s < 64, i < 64;
}

pub proof fn lemma_bit_xor_single(m: u64, s: u64, i: u64)
    requires
        s < 64,
        i < 64,
    ensures
        bit(m ^ single(s), i) == (if i == s { !bit(m, i) } else { bit(m, i) }),
{
    assert(((m ^ (1u64 << s)) >> i) & 1u64 == 1u64 <==> (if i == s {
        !((m >> i) & 1u64 == 1u64)
    } else {
        (m >> i) & 1u64 == 1u64
    })) by (bit_vector)
        requires s < 64, i < 64;
}

pub proof fn lemma_bit_and(a: u64, b: u64, i: u64)
    requires
        i < 64,
    ensures
        bit(a & b, i) == (bit(a, i) && bit(b, i)),
{
    assert(((a & b) >> i) & 1u64 == 1u64 <==> ((a >> i) & 1u64 == 1u64 && (b >> i) & 1u64
        == 1u64)) by (bit_vector)
        requires i < 64;
}

pub proof fn lemma_bit_not(a: u64, i: u64)
    requires
        i < 64,
    ensures
        bit(!a, i) == !bit(a, i),
{
    assert(((!a) >> i) & 1u64 == 1u64 <==> !((a >> i) & 1u64 == 1u64)) by (bit_vector)
        requires i < 64;
}

pub proof fn lemma_bit_zero(i: u64)
    ensures
        !bit(0u64, i),
{
    assert((0u64 >> i) & 1u64 != 1u64) by (bit_vector);
}

pub proof fn lemma_bit_full(i: u64)
    requires
        i < 64,
    ensures
        bit(!0u64, i),
{
    assert(((!0u64) >> i) & 1u64 == 1u64) by (bit_vector)
        requires i < 64;
}

pub proof fn lemma_low_mask(l: u64, i: u64)
    requires
        l <= 64,
        i < 64,
    ensures
        bit(low_mask(l), i) == (i < l),
{
    if l < 64 {
        assert((((1u64 << l) - 1u64) as u64 >> i) & 1u64 == 1u64 <==> i < l) by (bit_vector)
            requires l < 64, i < 64;
    } else {
        lemma_bit_full(i);
    }
}

/// A mask with no set bit below 64 is zero.
pub proof fn lemma_no_bits_zero(m: u64)
    requires
        forall|i: u64| i < 64 ==> !#[trigger] bit(m, i),
    ensures
        m == 0,
{
    if m != 0 {
        let t = lowest_bit(m);
        assert(bit(m, t));
    }
}

/// A mask with every bit below 64 set is all ones.
pub proof fn lemma_all_bits_full(m: u64)
    requires
        forall|i: u64| i < 64 ==> #[trigger] bit(m, i),
    ensures
        m == !0u64,
{
    assert forall|i: u64| i < 64 implies !#[trigger] bit(!m, i) by {
        lemma_bit_not(m, i);
    }
    lemma_no_bits_zero(!m);
    assert(!m == 0u64 ==> m == !0u64) by (bit_vector);
}

/// Two masks that agree on every bit are equal.
pub proof fn lemma_bits_ext(a: u64, b: u64)
    requires
        forall|i: u64| i < 64 ==> #[trigger] bit(a, i) == bit(b, i),
    ensures
        a == b,
{
    assert forall|i: u64| i < 64 implies !#[trigger] bit(a ^ b, i) by {
        assert(((a ^ b) >> i) & 1u64 == 1u64 <==> (((a >> i) & 1u64 == 1u64) != ((b >> i) & 1u64
            == 1u64))) by (bit_vector)
            requires i < 64;
        assert(bit(a, i) == bit(b, i));
    }
    lemma_no_bits_zero(a ^ b);
    assert(a ^ b == 0u64 ==> a == b) by (bit_vector);
}

/// The index of the lowest set bit of `m`, with its defining properties.
pub proof fn lowest_bit(m: u64) -> (t: u64)
    requires
        m != 0,
    ensures
        t < 64,
        t == m.trailing_zeros(),
        bit(m, t),
        forall|j: u64| j < t ==> !#[trigger] bit(m, j),
        m & ((m - 1) as u64) == m ^ single(t),
{
    vstd::std_specs::bits::axiom_u64_trailing_zeros(m);
    let t = m.trailing_zeros() as u64;
    assert forall|j: u64| j < t implies !#[trigger] bit(m, j) by {
        assert((m >> j) & 1u64 == 0u64);
    }
    let s = (64 - t) as u64;
    assert(m << s == 0u64);
    assert(m & ((m - 1) as u64) == m ^ (1u64 << t)) by (bit_vector)
        requires m != 0u64, t < 64u64, (m >> t) & 1u64 == 1u64, m << ((64u64 - t) as u64) == 0u64;
    t
}

} // verus!
