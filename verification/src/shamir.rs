//! Threshold secret sharing over GF(256). `deal` evaluates, for each
//! byte of the secret, a polynomial whose constant term is that byte
//! and whose other coefficients come from a caller-supplied random
//! string, at the points 1..=N. `recover` interpolates the supplied
//! points at 0 with the Lagrange formula. Any T correct shares of a
//! deal with threshold T give back the secret; the engine cannot
//! tell whether enough were supplied, and with fewer it returns a
//! well-formed but different byte string.

use vstd::prelude::*;
use crate::error::ShardError;
use crate::gf256::{gf_add, gf_inv, gf_mul, inverse, lemma_gf_mul_zero_left};

verus! {

/// One share: an x-coordinate and one evaluation per secret byte.
pub struct Share {
    /// The evaluation point, nonzero, unique within one deal.
    pub x: u8,
    /// The evaluations: `y[i]` belongs to byte `i` of the secret.
    pub y: Vec<u8>,
}

/// P(x) over GF(256), coefficients with the constant term first.
pub open spec fn poly_eval(cs: Seq<u8>, x: u8) -> u8
    decreases cs.len(),
{
    if cs.len() == 0 {
        0
    } else {
        gf_add(cs[0], gf_mul(x, poly_eval(cs.skip(1), x)))
    }
}

/// A polynomial's value at 0 is its constant term.
pub proof fn lemma_poly_eval_zero(cs: Seq<u8>)
    requires
        cs.len() > 0,
    ensures
        poly_eval(cs, 0) == cs[0],
{
    lemma_gf_mul_zero_left(poly_eval(cs.skip(1), 0));
    assert(forall|v: u8| v ^ 0 == v) by (bit_vector);
}

/// The coefficients of the polynomial for byte `i` of the secret:
/// the byte itself, then the `t - 1` random coefficients cut for it.
pub open spec fn byte_coeffs(secret: Seq<u8>, coeffs: Seq<u8>, t: int, i: int) -> Seq<u8> {
    seq![secret[i]] + coeffs.subrange(i * (t - 1), (i + 1) * (t - 1))
}

/// Every dealt polynomial passes through the secret: whatever the
/// random coefficients, byte `i`'s polynomial takes the secret's
/// byte `i` at the point 0 — which is why recovery interpolates
/// there.
pub proof fn lemma_dealt_secret_at_zero(secret: Seq<u8>, coeffs: Seq<u8>, t: int, i: int)
    requires
        0 <= i < secret.len(),
    ensures
        poly_eval(byte_coeffs(secret, coeffs, t, i), 0) == secret[i],
{
    lemma_poly_eval_zero(byte_coeffs(secret, coeffs, t, i));
}

/// The x-coordinates of a share sequence.
pub open spec fn xs_of(shares: Seq<Share>) -> Seq<u8> {
    Seq::new(shares.len(), |j: int| shares[j].x)
}

/// The product over the first `k` points `m != j` of
/// `x_m * inverse(x_m + x_j)`: share `j`'s Lagrange basis at 0.
pub open spec fn basis_prod(xs: Seq<u8>, j: int, k: int) -> u8
    decreases k
        when k >= 0
{
    if k <= 0 {
        1
    } else if k - 1 == j {
        basis_prod(xs, j, k - 1)
    } else {
        gf_mul(basis_prod(xs, j, k - 1), gf_mul(xs[k - 1], gf_inv(gf_add(xs[k - 1], xs[j]))))
    }
}

/// The y-value strings of a share sequence.
pub open spec fn ys_of(shares: Seq<Share>) -> Seq<Seq<u8>> {
    Seq::new(shares.len(), |j: int| shares[j].y@)
}

/// The interpolation at 0 of byte `i` of the points `(xs, ys)`,
/// summed over the first `k` of them.
pub open spec fn interp_byte(xs: Seq<u8>, ys: Seq<Seq<u8>>, i: int, k: int) -> u8
    decreases k
        when k >= 0
{
    if k <= 0 {
        0
    } else {
        gf_add(
            interp_byte(xs, ys, i, k - 1),
            gf_mul(ys[k - 1][i], basis_prod(xs, k - 1, xs.len() as int)),
        )
    }
}

/// What recovery returns: every byte interpolated at 0 over all the
/// points.
pub open spec fn recovered_secret(xs: Seq<u8>, ys: Seq<Seq<u8>>) -> Seq<u8> {
    Seq::new(ys[0].len(), |i: int| interp_byte(xs, ys, i, xs.len() as int))
}

/// At least one share, all of one length, no repeated x-coordinate.
pub open spec fn shares_consistent(shares: Seq<Share>) -> bool {
    &&& shares.len() >= 1
    &&& forall|j: int|
        0 <= j < shares.len() ==> (#[trigger] shares[j].y@.len()) == shares[0].y@.len()
    &&& forall|j: int, k: int| 0 <= j < k < shares.len() ==> shares[j].x != shares[k].x
}

/// Deals `count` shares of `secret` with the given threshold. The
/// random coefficients are supplied by the caller, `threshold - 1`
/// bytes per secret byte, laid out byte position by byte position.
pub fn deal(secret: &Vec<u8>, threshold: u8, count: u8, coeffs: &Vec<u8>) -> (r: Result<
    Vec<Share>,
    ShardError,
>)
    requires
        threshold < 2 || threshold > count || coeffs@.len() == secret@.len() * ((threshold
            - 1) as int),
    ensures
        r is Ok <==> 2 <= threshold <= count,
        r is Err ==> r->Err_0 is InvalidThreshold,
        r is Ok ==> (r->Ok_0)@.len() == count,
        r is Ok ==> forall|j: int|
            0 <= j < count ==> (#[trigger] (r->Ok_0)@[j].x) == j + 1 && (r->Ok_0)@[j].y@.len()
                == secret@.len(),
        r is Ok ==> forall|j: int, i: int|
            0 <= j < count && 0 <= i < secret@.len() ==> (#[trigger] (r->Ok_0)@[j].y@[i])
                == poly_eval(
                byte_coeffs(secret@, coeffs@, threshold as int, i),
                (j + 1) as u8,
            ),
{
    if threshold < 2 || threshold > count {
        return Err(ShardError::InvalidThreshold);
    }
    let n: usize = secret.len();
    let t1: usize = (threshold - 1) as usize;
    let clen: usize = coeffs.len();
    let ghost t = threshold as int;
    let mut shares: Vec<Share> = Vec::new();
    let mut j: usize = 0;
    while j < count as usize
        invariant
            j <= count as int,
            2 <= threshold <= count,
            n == secret@.len(),
            t == threshold as int,
            t1 == t - 1,
            coeffs@.len() == n * t1,
            clen == coeffs@.len(),
            shares@.len() == j,
            forall|q: int|
                0 <= q < j ==> (#[trigger] shares@[q].x) == q + 1 && shares@[q].y@.len() == n,
            forall|q: int, i: int|
                0 <= q < j && 0 <= i < n ==> (#[trigger] shares@[q].y@[i]) == poly_eval(
                    byte_coeffs(secret@, coeffs@, t, i),
                    (q + 1) as u8,
                ),
        decreases count - j,
    {
        let x: u8 = (j + 1) as u8;
        let mut y: Vec<u8> = Vec::new();
        let mut i: usize = 0;
        while i < n
            invariant
                i <= n,
                2 <= threshold <= count,
                n == secret@.len(),
                t == threshold as int,
                t1 == t - 1,
                coeffs@.len() == n * t1,
                clen == coeffs@.len(),
                x == j + 1,
                j < count as int,
                y@.len() == i,
                forall|p: int|
                    0 <= p < i ==> (#[trigger] y@[p]) == poly_eval(
                        byte_coeffs(secret@, coeffs@, t, p),
                        x,
                    ),
            decreases n - i,
        {
            let ghost cs = byte_coeffs(secret@, coeffs@, t, i as int);
            proof {
                assert((i + 1) * t1 <= n * t1 && 0 <= i * t1 && i * t1 + t1 == (i + 1)
                    * t1) by (nonlinear_arith)
                    requires
                        0 <= i < n && t1 >= 1,
                ;
                assert(cs.len() == t1 + 1);
                assert(cs.skip(t1 + 1) =~= Seq::<u8>::empty());
            }
            let mut acc: u8 = 0;
            let mut k: usize = t1 + 1;
            while k > 0
                invariant
                    k <= t1 + 1,
                    i < n,
                    n == secret@.len(),
                    t == threshold as int,
                    t1 == t - 1,
                    t1 >= 1,
                    coeffs@.len() == n * t1,
                    clen == coeffs@.len(),
                    cs == byte_coeffs(secret@, coeffs@, t, i as int),
                    cs.len() == t1 + 1,
                    acc == poly_eval(cs.skip(k as int), x),
                decreases k,
            {
                k = k - 1;
                proof {
                    assert((i + 1) * t1 <= n * t1 && 0 <= i * t1 && i * t1 + t1 == (i + 1)
                        * t1) by (nonlinear_arith)
                        requires
                            0 <= i < n && t1 >= 1,
                    ;
                    assert(cs.skip(k as int).skip(1) =~= cs.skip(k as int + 1));
                }
                let c: u8 = if k == 0 {
                    secret[i]
                } else {
                    proof {
                        assert(i * t1 + (k - 1) < n * t1 && i * t1 + (k - 1) >= 0) by (
                        nonlinear_arith)
                            requires
                                0 <= i < n && 1 <= k <= t1,
                        ;
                    }
                    coeffs[i * t1 + (k - 1)]
                };
                proof {
                    assert(cs[k as int] == c);
                    assert(cs.skip(k as int)[0] == cs[k as int]);
                }
                acc = crate::gf256::add(c, crate::gf256::mul(x, acc));
            }
            proof {
                assert(cs.skip(0) =~= cs);
            }
            y.push(acc);
            i = i + 1;
        }
        shares.push(Share { x, y });
        j = j + 1;
    }
    Ok(shares)
}

/// Recovers the secret from the supplied shares by Lagrange
/// interpolation at 0. The shares must agree in length and carry
/// pairwise distinct x-coordinates; nothing can check that enough
/// of them were supplied.
pub fn recover(shares: &Vec<Share>) -> (r: Result<Vec<u8>, ShardError>)
    ensures
        r is Ok <==> shares_consistent(shares@),
        r is Err ==> r->Err_0 is InconsistentShares,
        r is Ok ==> r->Ok_0@ == recovered_secret(xs_of(shares@), ys_of(shares@)),
{
    let k = shares.len();
    if k == 0 {
        return Err(ShardError::InconsistentShares);
    }
    let m = shares[0].y.len();
    let mut j: usize = 1;
    while j < k
        invariant
            1 <= j <= k,
            k == shares@.len(),
            m == shares@[0].y@.len(),
            forall|q: int| 0 <= q < j ==> (#[trigger] shares@[q].y@.len()) == m,
        decreases k - j,
    {
        if shares[j].y.len() != m {
            return Err(ShardError::InconsistentShares);
        }
        j = j + 1;
    }
    let mut a: usize = 0;
    while a < k
        invariant
            a <= k,
            k == shares@.len(),
            forall|q: int, p: int| 0 <= q < p < k && q < a ==> shares@[q].x != shares@[p].x,
        decreases k - a,
    {
        let mut b: usize = a + 1;
        while b < k
            invariant
                a < b <= k,
                a < k,
                k == shares@.len(),
                forall|p: int| a < p < b ==> shares@[a as int].x != shares@[p].x,
            decreases k - b,
        {
            if shares[a].x == shares[b].x {
                return Err(ShardError::InconsistentShares);
            }
            b = b + 1;
        }
        a = a + 1;
    }
    proof {
        assert(shares_consistent(shares@));
    }
    // One Lagrange basis value per share, each the product over the
    // other shares.
    let mut bases: Vec<u8> = Vec::new();
    let mut j2: usize = 0;
    while j2 < k
        invariant
            j2 <= k,
            k == shares@.len(),
            bases@.len() == j2,
            forall|q: int|
                0 <= q < j2 ==> (#[trigger] bases@[q]) == basis_prod(xs_of(shares@), q, k as int),
        decreases k - j2,
    {
        let mut b: u8 = 1;
        let mut q: usize = 0;
        while q < k
            invariant
                q <= k,
                j2 < k,
                k == shares@.len(),
                b == basis_prod(xs_of(shares@), j2 as int, q as int),
            decreases k - q,
        {
            if q != j2 {
                let xm = shares[q].x;
                let xj = shares[j2].x;
                b = crate::gf256::mul(b, crate::gf256::mul(xm, inverse(crate::gf256::add(xm, xj))));
            }
            q = q + 1;
        }
        bases.push(b);
        j2 = j2 + 1;
    }
    let mut secret: Vec<u8> = Vec::new();
    let mut i: usize = 0;
    while i < m
        invariant
            i <= m,
            k == shares@.len(),
            k >= 1,
            m == shares@[0].y@.len(),
            forall|q: int| 0 <= q < k ==> (#[trigger] shares@[q].y@.len()) == m,
            bases@.len() == k,
            forall|q: int|
                0 <= q < k ==> (#[trigger] bases@[q]) == basis_prod(xs_of(shares@), q, k as int),
            secret@.len() == i,
            forall|p: int|
                0 <= p < i ==> (#[trigger] secret@[p]) == interp_byte(
                    xs_of(shares@),
                    ys_of(shares@),
                    p,
                    k as int,
                ),
        decreases m - i,
    {
        let mut acc: u8 = 0;
        let mut q: usize = 0;
        while q < k
            invariant
                q <= k,
                i < m,
                k == shares@.len(),
                m == shares@[0].y@.len(),
                forall|p: int| 0 <= p < k ==> (#[trigger] shares@[p].y@.len()) == m,
                bases@.len() == k,
                forall|p: int|
                    0 <= p < k ==> (#[trigger] bases@[p]) == basis_prod(
                        xs_of(shares@),
                        p,
                        k as int,
                    ),
                acc == interp_byte(xs_of(shares@), ys_of(shares@), i as int, q as int),
            decreases k - q,
        {
            acc = crate::gf256::add(acc, crate::gf256::mul(shares[q].y[i], bases[q]));
            q = q + 1;
        }
        secret.push(acc);
        i = i + 1;
    }
    proof {
        assert(secret@ =~= recovered_secret(xs_of(shares@), ys_of(shares@)));
    }
    Ok(secret)
}

} // verus!
