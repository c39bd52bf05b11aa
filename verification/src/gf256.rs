//! Arithmetic in GF(256), the field with 256 elements, with the
//! irreducible polynomial x^8 + x^4 + x^3 + x + 1 (0x11b) as modulus.
//! Addition is XOR; multiplication is carry-less polynomial
//! multiplication reduced by the modulus, computed by doubling and
//! adding bit by bit.

use vstd::prelude::*;

verus! {

/// Addition (and subtraction) in GF(256): bitwise XOR.
pub open spec fn gf_add(a: u8, b: u8) -> u8 {
    a ^ b
}

/// One doubling step in GF(256): multiply by x and reduce.
pub open spec fn gf_double(a: u8) -> u8 {
    if a < 128 {
        (2 * a) as u8
    } else {
        ((2 * (a - 128)) as u8) ^ 0x1b
    }
}

/// Multiplication in GF(256), peeling the low bit of `b`.
pub open spec fn gf_mul(a: u8, b: u8) -> u8
    decreases b,
{
    if b == 0 {
        0
    } else {
        (if b % 2 == 1 { a } else { 0 }) ^ gf_mul(gf_double(a), b / 2)
    }
}

/// Adds two field elements.
pub fn add(a: u8, b: u8) -> (r: u8)
    ensures
        r == gf_add(a, b),
{
    a ^ b
}

/// Doubles a field element (multiplies by the polynomial x).
pub fn double(a: u8) -> (r: u8)
    ensures
        r == gf_double(a),
{
    if a < 128 {
        2 * a
    } else {
        ((a - 128) * 2) ^ 0x1b
    }
}

/// Multiplies two field elements.
pub fn mul(a: u8, b: u8) -> (r: u8)
    ensures
        r == gf_mul(a, b),
{
    let mut acc: u8 = 0;
    let mut aa: u8 = a;
    let mut bb: u8 = b;
    proof {
        assert(forall|x: u8| 0 ^ x == x) by (bit_vector);
    }
    while bb > 0
        invariant
            gf_mul(a, b) == acc ^ gf_mul(aa, bb),
        decreases bb,
    {
        let step: u8 = if bb % 2 == 1 {
            aa
        } else {
            0
        };
        proof {
            assert(gf_mul(aa, bb) == step ^ gf_mul(gf_double(aa), bb / 2));
            assert(forall|x: u8, y: u8, z: u8| x ^ (y ^ z) == (x ^ y) ^ z) by (bit_vector);
        }
        acc = acc ^ step;
        aa = double(aa);
        bb = bb / 2;
    }
    proof {
        assert(forall|x: u8| x ^ 0 == x) by (bit_vector);
    }
    acc
}

/// Multiplying from zero gives zero.
pub proof fn lemma_gf_mul_zero_left(b: u8)
    ensures
        gf_mul(0, b) == 0,
    decreases b,
{
    if b > 0 {
        lemma_gf_mul_zero_left(b / 2);
        assert(0u8 ^ 0u8 == 0u8) by (bit_vector);
    }
}

/// The first multiplicative partner of `a` at or after `b`, or 0
/// where none is left.
pub open spec fn gf_inv_search(a: u8, b: int) -> u8
    decreases 256 - b
        when 0 <= b <= 256
{
    if b >= 256 {
        0
    } else if gf_mul(a, b as u8) == 1 {
        b as u8
    } else {
        gf_inv_search(a, b + 1)
    }
}

/// The multiplicative inverse of `a` in GF(256): the first partner
/// whose product with `a` is 1, found by searching the field; 0 when
/// the search finds none, as for `a == 0`.
pub open spec fn gf_inv(a: u8) -> u8 {
    gf_inv_search(a, 1)
}

/// Finds the multiplicative inverse of `a`.
pub fn inverse(a: u8) -> (r: u8)
    ensures
        r == gf_inv(a),
        r != 0 ==> gf_mul(a, r) == 1,
{
    let mut b: u16 = 1;
    while b < 256
        invariant
            1 <= b <= 256,
            gf_inv(a) == gf_inv_search(a, b as int),
        decreases 256 - b,
    {
        if crate::gf256::mul(a, b as u8) == 1 {
            return b as u8;
        }
        b = b + 1;
    }
    0
}

} // verus!
