//! Facts about single bits of a 32-bit mask, proved by bit-blasting once and
//! used everywhere else through ordinary lemmas.

use vstd::prelude::*;

verus! {

/// The mask with only bit `c` set.
pub open spec fn bit(c: u8) -> u32
    recommends
        c < 32,
{
    1u32 << (c as u32)
}

/// Whether bit `c` of `m` is set.
pub open spec fn has_bit(m: u32, c: u8) -> bool {
    c < 32 && m & bit(c) != 0
}

proof fn bv_and(m: u32, p: u32, c: u32)
    by (bit_vector)
    requires
        c < 32,
    ensures
        ((m & p) & (1u32 << c) != 0) <==> ((m & (1u32 << c)) != 0 && (p & (1u32 << c)) != 0),
{
}

proof fn bv_or(m: u32, p: u32, c: u32)
    by (bit_vector)
    requires
        c < 32,
    ensures
        ((m | p) & (1u32 << c) != 0) <==> ((m & (1u32 << c)) != 0 || (p & (1u32 << c)) != 0),
{
}

proof fn bv_not(m: u32, c: u32)
    by (bit_vector)
    requires
        c < 32,
    ensures
        ((!m) & (1u32 << c) != 0) <==> (m & (1u32 << c)) == 0,
{
}

proof fn bv_xor(m: u32, p: u32, c: u32)
    by (bit_vector)
    requires
        c < 32,
    ensures
        ((m ^ p) & (1u32 << c) != 0) <==> (((m & (1u32 << c)) != 0) != ((p & (1u32 << c)) != 0)),
{
}

proof fn bv_single(c: u32, d: u32)
    by (bit_vector)
    requires
        c < 32,
        d < 32,
    ensures
        ((1u32 << c) & (1u32 << d) != 0) <==> c == d,
        (1u32 << c) != 0,
        c != d ==> (1u32 << c) != (1u32 << d),
{
}

proof fn bv_nonzero(m: u32)
    by (bit_vector)
    requires
        m != 0,
    ensures
        m & (1u32 << 0u32) != 0 ||
        m & (1u32 << 1u32) != 0 ||
        m & (1u32 << 2u32) != 0 ||
        m & (1u32 << 3u32) != 0 ||
        m & (1u32 << 4u32) != 0 ||
        m & (1u32 << 5u32) != 0 ||
        m & (1u32 << 6u32) != 0 ||
        m & (1u32 << 7u32) != 0 ||
        m & (1u32 << 8u32) != 0 ||
        m & (1u32 << 9u32) != 0 ||
        m & (1u32 << 10u32) != 0 ||
        m & (1u32 << 11u32) != 0 ||
        m & (1u32 << 12u32) != 0 ||
        m & (1u32 << 13u32) != 0 ||
        m & (1u32 << 14u32) != 0 ||
        m & (1u32 << 15u32) != 0 ||
        m & (1u32 << 16u32) != 0 ||
        m & (1u32 << 17u32) != 0 ||
        m & (1u32 << 18u32) != 0 ||
        m & (1u32 << 19u32) != 0 ||
        m & (1u32 << 20u32) != 0 ||
        m & (1u32 << 21u32) != 0 ||
        m & (1u32 << 22u32) != 0 ||
        m & (1u32 << 23u32) != 0 ||
        m & (1u32 << 24u32) != 0 ||
        m & (1u32 << 25u32) != 0 ||
        m & (1u32 << 26u32) != 0 ||
        m & (1u32 << 27u32) != 0 ||
        m & (1u32 << 28u32) != 0 ||
        m & (1u32 << 29u32) != 0 ||
        m & (1u32 << 30u32) != 0 ||
        m & (1u32 << 31u32) != 0,
{
}

proof fn bv_xor_zero(m: u32, p: u32)
    by (bit_vector)
    ensures
        (m ^ p) == 0 <==> m == p,
        m & 0 == 0,
        m & 0xffff_ffffu32 == m,
        m & m == m,
        0u32 & m == 0,
{
}

proof fn bv_pow2(m: u32, c: u32)
    by (bit_vector)
    requires
        c < 32,
    ensures
        m == (1u32 << c) ==> m != 0 && m & ((m - 1) as u32) == 0,
        (m != 0 && m & ((m - 1) as u32) == 0 && (m & (1u32 << c)) != 0) ==> m == (1u32 << c),
{
}

proof fn bv_subset(m: u32, p: u32, c: u32)
    by (bit_vector)
    requires
        c < 32,
    ensures
        (m & p == m && (m & (1u32 << c)) != 0) ==> (p & (1u32 << c)) != 0,
        (m & p) & m == m & p,
{
}

pub proof fn lemma_bit_and(m: u32, p: u32, c: u8)
    ensures
        has_bit(m & p, c) <==> has_bit(m, c) && has_bit(p, c),
{
    if c < 32 {
        bv_and(m, p, c as u32);
    }
}

pub proof fn lemma_bit_or(m: u32, p: u32, c: u8)
    ensures
        has_bit(m | p, c) <==> has_bit(m, c) || has_bit(p, c),
{
    if c < 32 {
        bv_or(m, p, c as u32);
    }
}

pub proof fn lemma_bit_not(m: u32, c: u8)
    requires
        c < 32,
    ensures
        has_bit(!m, c) <==> !has_bit(m, c),
{
    bv_not(m, c as u32);
}

pub proof fn lemma_bit_single(c: u8, d: u8)
    requires
        c < 32,
    ensures
        has_bit(bit(c), d) <==> c == d,
        bit(c) != 0,
{
    if d < 32 {
        bv_single(c as u32, d as u32);
    } else {
        bv_single(c as u32, c as u32);
    }
}

pub proof fn lemma_bit_zero(c: u8)
    ensures
        !has_bit(0, c),
        c < 32 ==> has_bit(0xffff_ffffu32, c),
{
    if c < 32 {
        bv_and(0, 0, c as u32);
        bv_xor_zero(0, 0);
        bv_xor_zero(bit(c), 0);
        bv_single(c as u32, c as u32);
        bv_and(0xffff_ffffu32, bit(c), c as u32);
        assert(0u32 & bit(c) == 0) by {
            bv_xor_zero(bit(c), 0);
        }
        assert(0xffff_ffffu32 & bit(c) == bit(c)) by (bit_vector)
            requires
                c < 32,
        ;
    }
}

/// A non-empty mask has some bit set.
pub proof fn lemma_nonzero_has_bit(m: u32) -> (c: u8)
    requires
        m != 0,
    ensures
        has_bit(m, c),
{
    bv_nonzero(m);
    if m & (1u32 << 0u32) != 0 {
        0u8
    } else if m & (1u32 << 1u32) != 0 {
        1u8
    } else if m & (1u32 << 2u32) != 0 {
        2u8
    } else if m & (1u32 << 3u32) != 0 {
        3u8
    } else if m & (1u32 << 4u32) != 0 {
        4u8
    } else if m & (1u32 << 5u32) != 0 {
        5u8
    } else if m & (1u32 << 6u32) != 0 {
        6u8
    } else if m & (1u32 << 7u32) != 0 {
        7u8
    } else if m & (1u32 << 8u32) != 0 {
        8u8
    } else if m & (1u32 << 9u32) != 0 {
        9u8
    } else if m & (1u32 << 10u32) != 0 {
        10u8
    } else if m & (1u32 << 11u32) != 0 {
        11u8
    } else if m & (1u32 << 12u32) != 0 {
        12u8
    } else if m & (1u32 << 13u32) != 0 {
        13u8
    } else if m & (1u32 << 14u32) != 0 {
        14u8
    } else if m & (1u32 << 15u32) != 0 {
        15u8
    } else if m & (1u32 << 16u32) != 0 {
        16u8
    } else if m & (1u32 << 17u32) != 0 {
        17u8
    } else if m & (1u32 << 18u32) != 0 {
        18u8
    } else if m & (1u32 << 19u32) != 0 {
        19u8
    } else if m & (1u32 << 20u32) != 0 {
        20u8
    } else if m & (1u32 << 21u32) != 0 {
        21u8
    } else if m & (1u32 << 22u32) != 0 {
        22u8
    } else if m & (1u32 << 23u32) != 0 {
        23u8
    } else if m & (1u32 << 24u32) != 0 {
        24u8
    } else if m & (1u32 << 25u32) != 0 {
        25u8
    } else if m & (1u32 << 26u32) != 0 {
        26u8
    } else if m & (1u32 << 27u32) != 0 {
        27u8
    } else if m & (1u32 << 28u32) != 0 {
        28u8
    } else if m & (1u32 << 29u32) != 0 {
        29u8
    } else if m & (1u32 << 30u32) != 0 {
        30u8
    } else {
        31u8
    }
}

/// Two masks with the same bits are the same mask.
pub proof fn lemma_mask_ext(m: u32, p: u32)
    requires
        forall|c: u8| c < 32 ==> (has_bit(m, c) <==> has_bit(p, c)),
    ensures
        m == p,
{
    if m != p {
        bv_xor_zero(m, p);
        let c = lemma_nonzero_has_bit(m ^ p);
        bv_xor(m, p, c as u32);
        assert(has_bit(m, c) != has_bit(p, c));
    }
}

/// A mask is a single bit exactly when clearing its lowest set bit leaves nothing.
pub open spec fn single_bit(m: u32) -> bool {
    exists|c: u8| c < 32 && m == bit(c)
}

pub proof fn lemma_single_bit_test(m: u32)
    ensures
        single_bit(m) <==> (m != 0 && m & ((m - 1) as u32) == 0),
{
    if single_bit(m) {
        let c = choose|c: u8| c < 32 && m == bit(c);
        bv_pow2(m, c as u32);
    }
    if m != 0 && m & ((m - 1) as u32) == 0 {
        let c = lemma_nonzero_has_bit(m);
        bv_pow2(m, c as u32);
        assert(m == bit(c));
    }
}

/// A single-bit mask that has bit `c` is `bit(c)`.
pub proof fn lemma_single_bit_is(m: u32, c: u8)
    requires
        single_bit(m),
        has_bit(m, c),
    ensures
        m == bit(c),
{
    let d = choose|d: u8| d < 32 && m == bit(d);
    lemma_bit_single(d, c);
}

/// `m & p == m` says that every bit of `m` is a bit of `p`.
pub proof fn lemma_subset_bits(m: u32, p: u32)
    ensures
        (m & p == m) <==> (forall|c: u8| has_bit(m, c) ==> has_bit(p, c)),
{
    if m & p == m {
        assert forall|c: u8| has_bit(m, c) implies has_bit(p, c) by {
            bv_subset(m, p, c as u32);
        }
    }
    if forall|c: u8| has_bit(m, c) ==> has_bit(p, c) {
        assert forall|c: u8| c < 32 implies (has_bit(m & p, c) <==> has_bit(m, c)) by {
            lemma_bit_and(m, p, c);
        }
        lemma_mask_ext(m & p, m);
    }
}

} // verus!
