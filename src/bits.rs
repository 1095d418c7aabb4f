//! Facts about single bits of a `u64`, the representation of a set of cards.
use vstd::prelude::*;

verus! {

/// Whether bit `i` of `x` is set; positions outside `0..64` are never set.
pub open spec fn bit(x: u64, i: int) -> bool {
    0 <= i < 64 && (x >> (i as u64)) & 1 == 1
}

pub proof fn lemma_bit_or(a: u64, b: u64, i: u64)
    by (bit_vector)
    requires
        i < 64,
    ensures
        ((a | b) >> i) & 1 == 1 <==> ((a >> i) & 1 == 1 || (b >> i) & 1 == 1),
{
}

pub proof fn lemma_bit_and(a: u64, b: u64, i: u64)
    by (bit_vector)
    requires
        i < 64,
    ensures
        ((a & b) >> i) & 1 == 1 <==> ((a >> i) & 1 == 1 && (b >> i) & 1 == 1),
{
}

pub proof fn lemma_bit_not(a: u64, i: u64)
    by (bit_vector)
    requires
        i < 64,
    ensures
        ((!a) >> i) & 1 == 1 <==> !((a >> i) & 1 == 1),
{
}

pub proof fn lemma_bit_single(k: u64, i: u64)
    by (bit_vector)
    requires
        k < 64,
        i < 64,
    ensures
        ((1u64 << k) >> i) & 1 == 1 <==> i == k,
{
}

pub proof fn lemma_bit_zero(i: u64)
    by (bit_vector)
    ensures
        (0u64 >> i) & 1 != 1,
{
}

pub proof fn lemma_bit_xor(a: u64, b: u64, i: u64)
    by (bit_vector)
    requires
        i < 64,
    ensures
        ((a ^ b) >> i) & 1 == 1 <==> (((a >> i) & 1 == 1) != ((b >> i) & 1 == 1)),
{
}

pub proof fn lemma_xor_zero(a: u64, b: u64)
    by (bit_vector)
    ensures
        a ^ b == 0 <==> a == b,
{
}

/// Two words with the same bits are equal.
pub proof fn lemma_bits_equal(a: u64, b: u64)
    requires
        forall|i: int| 0 <= i < 64 ==> bit(a, i) == bit(b, i),
    ensures
        a == b,
{
    broadcast use vstd::std_specs::bits::axiom_u64_trailing_zeros;

    let x = a ^ b;
    if x != 0 {
        let t = vstd::std_specs::bits::u64_trailing_zeros(x);
        assert((x >> (t as u64)) & 1 == 1);
        lemma_bit_xor(a, b, t as u64);
        assert(bit(a, t as int) == bit(b, t as int));
    }
    lemma_xor_zero(a, b);
}

pub proof fn lemma_shift_order(p: u64, q: u64)
    by (bit_vector)
    requires
        p < 64,
        q < 64,
    ensures
        (1u64 << p) < (1u64 << q) <==> p < q,
        (1u64 << p) <= (1u64 << q) <==> p <= q,
{
}

pub proof fn lemma_shift_down(p: u64, b: u64)
    by (bit_vector)
    requires
        b <= p < 64,
    ensures
        (1u64 << p) >> b == 1u64 << (p - b) as u64,
{
}

/// The bits of the four suit masks and of their union.
pub proof fn lemma_mask_bits(i: u64)
    by (bit_vector)
    requires
        i < 64,
    ensures
        (0x7ffcu64 >> i) & 1 == 1 <==> 2 <= i <= 14,
        (0x7ffc_0000u64 >> i) & 1 == 1 <==> 18 <= i <= 30,
        (0x7ffc_0000_0000u64 >> i) & 1 == 1 <==> 34 <= i <= 46,
        (0x7ffc_0000_0000_0000u64 >> i) & 1 == 1 <==> 50 <= i <= 62,
        (0x7ffc_7ffc_7ffc_7ffcu64 >> i) & 1 == 1 <==> ((2 <= i <= 14) || (18 <= i <= 30) || (34 <= i <= 46) || (50 <= i <= 62)),
{
}

/// The words of the single cards that have names.
pub proof fn lemma_named_cards()
    by (bit_vector)
    ensures
        1u64 << 2u64 == 0x4u64,
        1u64 << 4u64 == 0x10u64,
        1u64 << 10u64 == 0x400u64,
        1u64 << 12u64 == 0x1000u64,
        1u64 << 14u64 == 0x4000u64,
        1u64 << 18u64 == 0x4_0000u64,
        1u64 << 30u64 == 0x4000_0000u64,
        1u64 << 34u64 == 0x4_0000_0000u64,
        1u64 << 44u64 == 0x1000_0000_0000u64,
        1u64 << 46u64 == 0x4000_0000_0000u64,
        1u64 << 50u64 == 0x4_0000_0000_0000u64,
        1u64 << 62u64 == 0x4000_0000_0000_0000u64,
{
}

} // verus!
