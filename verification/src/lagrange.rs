//! Correctness of Lagrange interpolation at zero: any `t` samples of a
//! polynomial with fewer than `t + 1` coefficients, taken at pairwise
//! distinct points, weight-and-sum back to its constant term.  This is
//! what makes reconstruction recover the split secret, whichever shares
//! are used.

use vstd::prelude::*;
use crate::gf256::{gmul, ginv, lemma_mul_comm, lemma_mul_assoc, lemma_mul_dist,
    lemma_mul_dist_left, lemma_mul_one, lemma_mul_inverse, lemma_no_zero_divisors};
use crate::shamir::{Share, poly_eval, gf_prod, gf_sum, diff_map, recon_byte, share_xs, share_ys,
    is_split_of, lag_basis, lemma_neq_xor_nonzero};

verus! {

/// XOR facts used to shuffle sums around.
proof fn lemma_xor_ac(a: u8, b: u8, c: u8)
    by (bit_vector)
    ensures
        a ^ (b ^ c) == (a ^ b) ^ c,
        a ^ b == b ^ a,
        a ^ 0 == a,
        0 ^ a == a,
        a ^ a == 0,
{
}

/// The all-zero coefficient sequence.
pub open spec fn zero_poly(n: nat) -> Seq<u8> {
    Seq::new(n, |i: int| 0u8)
}

/// Coefficient-wise sum of two equally long polynomials.
pub open spec fn poly_add(p: Seq<u8>, q: Seq<u8>) -> Seq<u8> {
    Seq::new(p.len(), |i: int| p[i] ^ q[i])
}

/// Every coefficient multiplied by `c`.
pub open spec fn poly_scale(c: u8, p: Seq<u8>) -> Seq<u8> {
    Seq::new(p.len(), |i: int| gmul(c, p[i]))
}

/// The product of `p` with the linear factor `X ^ a`.
pub open spec fn mul_linear(a: u8, p: Seq<u8>) -> Seq<u8> {
    Seq::new(
        p.len() + 1,
        |i: int|
            (if i < p.len() {
                gmul(a, p[i])
            } else {
                0u8
            }) ^ (if i >= 1 {
                p[i - 1]
            } else {
                0u8
            }),
    )
}

/// The product of the linear factors `X ^ w` for every `w` in `ws`.
pub open spec fn lin_prod(ws: Seq<u8>) -> Seq<u8>
    decreases ws.len(),
{
    if ws.len() == 0 {
        seq![1u8]
    } else {
        mul_linear(ws.last(), lin_prod(ws.drop_last()))
    }
}

proof fn lemma_eval_zero(n: nat, x: u8)
    ensures
        poly_eval(zero_poly(n), x) == 0,
    decreases n,
{
    if n > 0 {
        lemma_eval_zero((n - 1) as nat, x);
        assert(zero_poly(n).drop_first() =~= zero_poly((n - 1) as nat));
        lemma_mul_one(x);
        assert(gmul(x, 0) == 0);
        lemma_xor_ac(0, 0, 0);
    }
}

/// A sequence with `c` in front and zeroes behind evaluates to `c`.
proof fn lemma_eval_unit(c: u8, n: nat, x: u8)
    requires
        n >= 1,
    ensures
        poly_eval(zero_poly(n).update(0, c), x) == c,
{
    let u = zero_poly(n).update(0, c);
    assert(u.drop_first() =~= zero_poly((n - 1) as nat));
    lemma_eval_zero((n - 1) as nat, x);
    lemma_mul_one(x);
    lemma_xor_ac(c, 0, 0);
}

proof fn lemma_eval_add(p: Seq<u8>, q: Seq<u8>, x: u8)
    requires
        p.len() == q.len(),
    ensures
        poly_eval(poly_add(p, q), x) == poly_eval(p, x) ^ poly_eval(q, x),
    decreases p.len(),
{
    if p.len() == 0 {
        lemma_xor_ac(0, 0, 0);
    } else {
        lemma_eval_add(p.drop_first(), q.drop_first(), x);
        assert(poly_add(p, q).drop_first() =~= poly_add(p.drop_first(), q.drop_first()));
        let ep = poly_eval(p.drop_first(), x);
        let eq = poly_eval(q.drop_first(), x);
        lemma_mul_dist(x, ep, eq);
        let a0 = p[0];
        let b0 = q[0];
        let mp = gmul(x, ep);
        let mq = gmul(x, eq);
        assert((a0 ^ b0) ^ (mp ^ mq) == (a0 ^ mp) ^ (b0 ^ mq)) by (bit_vector);
    }
}

proof fn lemma_eval_scale(c: u8, p: Seq<u8>, x: u8)
    ensures
        poly_eval(poly_scale(c, p), x) == gmul(c, poly_eval(p, x)),
    decreases p.len(),
{
    if p.len() == 0 {
        lemma_mul_one(c);
    } else {
        lemma_eval_scale(c, p.drop_first(), x);
        assert(poly_scale(c, p).drop_first() =~= poly_scale(c, p.drop_first()));
        let e = poly_eval(p.drop_first(), x);
        // c*(p0 ^ x*e) == c*p0 ^ x*(c*e)
        lemma_mul_dist(c, p[0], gmul(x, e));
        lemma_mul_assoc(c, x, e);
        lemma_mul_assoc(x, c, e);
        lemma_mul_comm(c, x);
    }
}

proof fn lemma_eval_mul_linear(a: u8, p: Seq<u8>, x: u8)
    ensures
        poly_eval(mul_linear(a, p), x) == gmul(x ^ a, poly_eval(p, x)),
    decreases p.len(),
{
    let q = mul_linear(a, p);
    if p.len() == 0 {
        lemma_xor_ac(0, 0, 0);
        assert(q[0] == 0u8 ^ 0u8);
        assert(q =~= zero_poly(1));
        lemma_eval_zero(1, x);
        lemma_mul_one(x ^ a);
    } else {
        lemma_eval_mul_linear(a, p.drop_first(), x);
        let pdf = p.drop_first();
        let u = zero_poly(p.len()).update(0, p[0]);
        assert forall|i: int| 0 <= i < q.len() - 1 implies q.drop_first()[i] == poly_add(
            mul_linear(a, pdf),
            u,
        )[i] by {
            lemma_xor_ac(mul_linear(a, pdf)[i], 0, 0);
            lemma_xor_ac(
                (if i + 1 < p.len() {
                    gmul(a, p[i + 1])
                } else {
                    0u8
                }),
                0,
                0,
            );
        }
        assert(q.drop_first() =~= poly_add(mul_linear(a, pdf), u));
        lemma_eval_add(mul_linear(a, pdf), u, x);
        lemma_eval_unit(p[0], p.len(), x);
        let e1 = poly_eval(pdf, x);
        let p0 = p[0];
        // left side: a*p0 ^ x*((x^a)*e1 ^ p0)
        lemma_mul_dist(x, gmul(x ^ a, e1), p0);
        // right side: (x^a)*(p0 ^ x*e1)
        lemma_mul_dist(x ^ a, p0, gmul(x, e1));
        lemma_mul_dist_left(x, a, p0);
        lemma_mul_assoc(x, x ^ a, e1);
        lemma_mul_assoc(x ^ a, x, e1);
        lemma_mul_comm(x, x ^ a);
        let bb = gmul(x, gmul(x ^ a, e1));
        let cc = gmul(x, p0);
        let aa = gmul(a, p0);
        assert(q[0] == gmul(a, p0) ^ 0);
        assert(aa ^ 0 ^ (bb ^ cc) == (cc ^ aa) ^ bb) by (bit_vector);
    }
}

/// The quotient of `p` by the linear factor `X ^ a`: coefficient `i` is
/// the value at `a` of the coefficients above position `i`.
pub open spec fn lin_quot(p: Seq<u8>, a: u8) -> Seq<u8> {
    Seq::new((p.len() - 1) as nat, |i: int| poly_eval(p.skip(i + 1), a))
}

/// Division with remainder by a linear factor, stated through evaluation:
/// `p(x) == (x ^ a) * q(x) ^ p(a)`.
proof fn lemma_eval_quot(p: Seq<u8>, a: u8, x: u8)
    requires
        p.len() >= 1,
    ensures
        poly_eval(p, x) == gmul(x ^ a, poly_eval(lin_quot(p, a), x)) ^ poly_eval(p, a),
    decreases p.len(),
{
    let q = lin_quot(p, a);
    let p1 = p.drop_first();
    if p.len() == 1 {
        assert(q =~= Seq::<u8>::empty());
        assert(p1 =~= Seq::<u8>::empty());
        lemma_mul_one(x ^ a);
        lemma_mul_one(x);
        lemma_mul_one(a);
        lemma_xor_ac(p[0], 0, 0);
        assert(poly_eval(p1, x) == 0);
        assert(gmul(x, poly_eval(p1, x)) == 0);
        assert(poly_eval(p, x) == p[0] ^ 0u8);
        assert(poly_eval(p1, a) == 0);
        assert(gmul(a, poly_eval(p1, a)) == 0);
        assert(poly_eval(p, a) == p[0] ^ 0u8);
        assert(poly_eval(q, x) == 0);
        assert(gmul(x ^ a, poly_eval(q, x)) == 0);
        let p0 = p[0];
        assert(0u8 ^ (p0 ^ 0u8) == p0 ^ 0u8) by (bit_vector);
    } else {
        lemma_eval_quot(p1, a, x);
        assert forall|i: int| 0 <= i < p1.len() - 1 implies lin_quot(p1, a)[i] == q[i + 1] by {
            assert(p1.skip(i + 1) =~= p.skip(i + 2));
        }
        assert(lin_quot(p1, a) =~= q.drop_first());
        assert(q[0] == poly_eval(p.skip(1), a));
        assert(p.skip(1) =~= p1);
        let ep1x = poly_eval(p1, x);
        let ep1a = poly_eval(p1, a);
        let eq1 = poly_eval(q.drop_first(), x);
        // from the recursive call: ep1x == (x^a)*eq1 ^ ep1a
        // goal: p0 ^ x*ep1x == (x^a)*(ep1a ^ x*eq1) ^ (p0 ^ a*ep1a)
        lemma_mul_dist(x, gmul(x ^ a, eq1), ep1a);
        lemma_mul_dist(x ^ a, ep1a, gmul(x, eq1));
        lemma_mul_dist_left(x, a, ep1a);
        lemma_mul_assoc(x, x ^ a, eq1);
        lemma_mul_assoc(x ^ a, x, eq1);
        lemma_mul_comm(x, x ^ a);
        let tb = gmul(x, gmul(x ^ a, eq1));
        let tx = gmul(x, ep1a);
        let ta = gmul(a, ep1a);
        let p0 = p[0];
        assert(p0 ^ (tb ^ tx) == ((tx ^ ta) ^ tb) ^ (p0 ^ ta)) by (bit_vector);
    }
}

/// A polynomial that vanishes at as many distinct points as it has
/// coefficients vanishes everywhere.
proof fn lemma_vanishing(p: Seq<u8>, xs: Seq<u8>, z: u8)
    requires
        xs.len() >= p.len(),
        forall|i: int, j: int| 0 <= i < j < xs.len() ==> xs[i] != xs[j],
        forall|i: int| 0 <= i < xs.len() ==> poly_eval(p, #[trigger] xs[i]) == 0,
    ensures
        poly_eval(p, z) == 0,
    decreases p.len(),
{
    if p.len() == 0 {
    } else {
        let a = xs[0];
        let q = lin_quot(p, a);
        lemma_eval_quot(p, a, z);
        let xs1 = xs.drop_first();
        assert forall|i: int| 0 <= i < xs1.len() implies poly_eval(q, #[trigger] xs1[i]) == 0 by {
            let xi = xs1[i];
            lemma_eval_quot(p, a, xi);
            assert(poly_eval(p, xi) == 0);
            assert(poly_eval(p, a) == 0);
            lemma_xor_ac(gmul(xi ^ a, poly_eval(q, xi)), 0, 0);
            assert(gmul(xi ^ a, poly_eval(q, xi)) == 0);
            assert(xs[i + 1] != xs[0]);
            lemma_neq_xor_nonzero(xi, a);
            if poly_eval(q, xi) != 0 {
                lemma_no_zero_divisors(xi ^ a, poly_eval(q, xi));
            }
        }
        lemma_vanishing(q, xs1, z);
        lemma_mul_one(z ^ a);
        assert(gmul(z ^ a, 0) == 0);
        lemma_xor_ac(0, 0, poly_eval(p, a));
        assert(poly_eval(p, a) == 0);
    }
}

/// Evaluating the product of linear factors multiplies the distances.
proof fn lemma_eval_lin_prod(ws: Seq<u8>, x: u8)
    ensures
        poly_eval(lin_prod(ws), x) == gf_prod(diff_map(ws, x)),
    decreases ws.len(),
{
    if ws.len() == 0 {
        assert(diff_map(ws, x) =~= Seq::<u8>::empty());
        lemma_mul_one(x);
        lemma_xor_ac(1, 0, 0);
        assert(poly_eval(seq![1u8], x) == 1u8 ^ gmul(x, poly_eval(seq![1u8].drop_first(), x)));
        assert(seq![1u8].drop_first() =~= Seq::<u8>::empty());
    } else {
        lemma_eval_lin_prod(ws.drop_last(), x);
        lemma_eval_mul_linear(ws.last(), lin_prod(ws.drop_last()), x);
        assert(diff_map(ws, x).drop_last() =~= diff_map(ws.drop_last(), x));
        assert(diff_map(ws, x).last() == ws.last() ^ x);
        lemma_mul_comm(x ^ ws.last(), gf_prod(diff_map(ws.drop_last(), x)));
        lemma_xor_ac(x, ws.last(), 0);
        assert(diff_map(ws, x).len() == ws.len());
    }
}

/// A product of distances to a point among the factors is zero.
proof fn lemma_prod_zero_factor(ws: Seq<u8>, x: u8, j: int)
    requires
        0 <= j < ws.len(),
        ws[j] == x,
    ensures
        gf_prod(diff_map(ws, x)) == 0,
    decreases ws.len(),
{
    assert(diff_map(ws, x).drop_last() =~= diff_map(ws.drop_last(), x));
    if j == ws.len() - 1 {
        lemma_xor_ac(x, x, 0);
        assert(diff_map(ws, x).last() == 0);
        lemma_mul_one(gf_prod(diff_map(ws.drop_last(), x)));
    } else {
        lemma_prod_zero_factor(ws.drop_last(), x, j);
        lemma_mul_one(diff_map(ws, x).last());
        lemma_mul_comm(0, diff_map(ws, x).last());
    }
}

/// A product of non-zero distances is non-zero.
proof fn lemma_prod_nonzero(s: Seq<u8>)
    requires
        forall|i: int| 0 <= i < s.len() ==> s[i] != 0,
    ensures
        gf_prod(s) != 0,
    decreases s.len(),
{
    if s.len() > 0 {
        lemma_prod_nonzero(s.drop_last());
        lemma_no_zero_divisors(gf_prod(s.drop_last()), s.last());
    }
}

/// The scaling coefficient of sample `i` in the interpolating polynomial.
pub open spec fn lag_coeff(xs: Seq<u8>, ys: Seq<u8>, i: int) -> u8 {
    gmul(ys[i], ginv(gf_prod(diff_map(xs.remove(i), xs[i]))))
}

/// The interpolating polynomial built from the first `m` samples.
pub open spec fn lag_poly(xs: Seq<u8>, ys: Seq<u8>, m: nat) -> Seq<u8>
    decreases m,
{
    if m == 0 {
        zero_poly(xs.len())
    } else {
        poly_add(
            lag_poly(xs, ys, (m - 1) as nat),
            poly_scale(lag_coeff(xs, ys, m - 1), lin_prod(xs.remove(m - 1))),
        )
    }
}

proof fn lemma_lag_poly_len(xs: Seq<u8>, ys: Seq<u8>, m: nat)
    requires
        m <= xs.len(),
        xs.len() >= 1,
    ensures
        lag_poly(xs, ys, m).len() == xs.len(),
    decreases m,
{
    if m > 0 {
        lemma_lag_poly_len(xs, ys, (m - 1) as nat);
        lemma_lin_prod_len(xs.remove(m - 1));
    }
}

proof fn lemma_lin_prod_len(ws: Seq<u8>)
    ensures
        lin_prod(ws).len() == ws.len() + 1,
    decreases ws.len(),
{
    if ws.len() > 0 {
        lemma_lin_prod_len(ws.drop_last());
    }
}

/// The value of the partial interpolating polynomial anywhere: the sum of
/// its samples' contributions.
proof fn lemma_lag_poly_eval(xs: Seq<u8>, ys: Seq<u8>, m: nat, x: u8)
    requires
        m <= xs.len(),
        xs.len() >= 1,
    ensures
        poly_eval(lag_poly(xs, ys, m), x) == gf_sum(
            Seq::new(m, |i: int| gmul(lag_coeff(xs, ys, i), gf_prod(diff_map(xs.remove(i), x)))),
        ),
    decreases m,
{
    let terms = Seq::new(
        m,
        |i: int| gmul(lag_coeff(xs, ys, i), gf_prod(diff_map(xs.remove(i), x))),
    );
    if m == 0 {
        lemma_eval_zero(xs.len(), x);
        assert(terms =~= Seq::<u8>::empty());
    } else {
        lemma_lag_poly_eval(xs, ys, (m - 1) as nat, x);
        lemma_lag_poly_len(xs, ys, (m - 1) as nat);
        lemma_lin_prod_len(xs.remove(m - 1));
        lemma_eval_add(
            lag_poly(xs, ys, (m - 1) as nat),
            poly_scale(lag_coeff(xs, ys, m - 1), lin_prod(xs.remove(m - 1))),
            x,
        );
        lemma_eval_scale(lag_coeff(xs, ys, m - 1), lin_prod(xs.remove(m - 1)), x);
        lemma_eval_lin_prod(xs.remove(m - 1), x);
        let prev = Seq::new(
            (m - 1) as nat,
            |i: int| gmul(lag_coeff(xs, ys, i), gf_prod(diff_map(xs.remove(i), x))),
        );
        assert(prev =~= terms.drop_last());
        assert(gf_sum(terms) == gf_sum(terms.drop_last()) ^ terms.last());
    }
}

/// The interpolating polynomial passes through every sample.
proof fn lemma_lag_poly_hits(xs: Seq<u8>, ys: Seq<u8>, k: int)
    requires
        xs.len() == ys.len(),
        xs.len() >= 1,
        0 <= k < xs.len(),
        forall|i: int, j: int| 0 <= i < j < xs.len() ==> xs[i] != xs[j],
    ensures
        poly_eval(lag_poly(xs, ys, xs.len()), xs[k]) == ys[k],
{
    let t = xs.len();
    lemma_lag_poly_eval(xs, ys, t, xs[k]);
    let terms = Seq::new(
        t,
        |i: int| gmul(lag_coeff(xs, ys, i), gf_prod(diff_map(xs.remove(i), xs[k]))),
    );
    assert forall|i: int| 0 <= i < t && i != k implies terms[i] == 0 by {
        let ws = xs.remove(i);
        if k < i {
            assert(ws[k] == xs[k]);
            lemma_prod_zero_factor(ws, xs[k], k);
        } else {
            assert(ws[k - 1] == xs[k]);
            lemma_prod_zero_factor(ws, xs[k], k - 1);
        }
        lemma_mul_one(lag_coeff(xs, ys, i));
    }
    let den = gf_prod(diff_map(xs.remove(k), xs[k]));
    assert forall|j: int| 0 <= j < diff_map(xs.remove(k), xs[k]).len() implies diff_map(
        xs.remove(k),
        xs[k],
    )[j] != 0 by {
        let ws = xs.remove(k);
        if j < k {
            lemma_neq_xor_nonzero(ws[j], xs[k]);
        } else {
            lemma_neq_xor_nonzero(ws[j], xs[k]);
        }
    }
    lemma_prod_nonzero(diff_map(xs.remove(k), xs[k]));
    lemma_mul_inverse(den);
    lemma_mul_comm(den, ginv(den));
    lemma_mul_assoc(ys[k], ginv(den), den);
    lemma_mul_one(ys[k]);
    assert(terms[k] == ys[k]);
    lemma_sum_single(terms, k);
}

/// The sum of a sequence whose only possibly non-zero element sits at `k`.
proof fn lemma_sum_single(s: Seq<u8>, k: int)
    requires
        0 <= k < s.len(),
        forall|i: int| 0 <= i < s.len() && i != k ==> s[i] == 0,
    ensures
        gf_sum(s) == s[k],
    decreases s.len(),
{
    if k == s.len() - 1 {
        lemma_sum_zero(s.drop_last());
        lemma_xor_ac(s.last(), 0, 0);
    } else {
        lemma_sum_single(s.drop_last(), k);
        lemma_xor_ac(s[k], 0, 0);
    }
}

proof fn lemma_sum_zero(s: Seq<u8>)
    requires
        forall|i: int| 0 <= i < s.len() ==> s[i] == 0,
    ensures
        gf_sum(s) == 0,
    decreases s.len(),
{
    if s.len() > 0 {
        lemma_sum_zero(s.drop_last());
        lemma_xor_ac(0, 0, 0);
    }
}

/// At zero the interpolating polynomial takes the interpolation sum.
proof fn lemma_lag_poly_at_zero(xs: Seq<u8>, ys: Seq<u8>)
    requires
        xs.len() == ys.len(),
        xs.len() >= 1,
    ensures
        poly_eval(lag_poly(xs, ys, xs.len()), 0) == recon_byte(xs, ys),
{
    let t = xs.len();
    lemma_lag_poly_eval(xs, ys, t, 0);
    let terms = Seq::new(
        t,
        |i: int| gmul(lag_coeff(xs, ys, i), gf_prod(diff_map(xs.remove(i), 0))),
    );
    let rterms = Seq::new(t, |i: int| gmul(ys[i], lag_basis(xs, i)));
    assert forall|i: int| 0 <= i < t implies terms[i] == rterms[i] by {
        let ws = xs.remove(i);
        assert forall|j: int| 0 <= j < ws.len() implies diff_map(ws, 0)[j] == ws[j] by {
            lemma_xor_ac(ws[j], 0, 0);
        }
        assert(diff_map(ws, 0) =~= ws);
        let num = gf_prod(ws);
        let iv = ginv(gf_prod(diff_map(ws, xs[i])));
        lemma_mul_assoc(ys[i], iv, num);
        lemma_mul_comm(iv, num);
    }
    assert(terms =~= rterms);
}

/// Interpolating the values of a polynomial with `t` coefficients at `t`
/// pairwise distinct points and reading the result at zero gives back the
/// constant term: reconstruction is exact, and depends only on which
/// samples are supplied, not on any particular choice of them.
pub proof fn lemma_interpolation(p: Seq<u8>, xs: Seq<u8>)
    requires
        xs.len() == p.len(),
        p.len() >= 1,
        forall|i: int, j: int| 0 <= i < j < xs.len() ==> xs[i] != xs[j],
    ensures
        recon_byte(xs, Seq::new(xs.len(), |i: int| poly_eval(p, xs[i]))) == p[0],
{
    let t = xs.len();
    let ys = Seq::new(t, |i: int| poly_eval(p, xs[i]));
    let q = lag_poly(xs, ys, t);
    lemma_lag_poly_len(xs, ys, t);
    let r = poly_add(p, q);
    assert forall|k: int| 0 <= k < t implies poly_eval(r, #[trigger] xs[k]) == 0 by {
        lemma_eval_add(p, q, xs[k]);
        lemma_lag_poly_hits(xs, ys, k);
        lemma_xor_ac(poly_eval(p, xs[k]), poly_eval(p, xs[k]), 0);
    }
    lemma_vanishing(r, xs, 0);
    lemma_eval_add(p, q, 0);
    lemma_lag_poly_at_zero(xs, ys);
    lemma_xor_ac(poly_eval(p, 0), poly_eval(q, 0), 0);
    assert(poly_eval(p, 0) == poly_eval(q, 0)) by {
        let a = poly_eval(p, 0);
        let b = poly_eval(q, 0);
        assert(a ^ b == 0 ==> a == b) by (bit_vector);
    }
    lemma_mul_one(poly_eval(p.drop_first(), 0));
    assert(gmul(0, poly_eval(p.drop_first(), 0)) == 0);
    lemma_xor_ac(p[0], 0, 0);
    assert(poly_eval(p, 0) == p[0]);
}

/// Round trip of a split: any selection of shares consistent with the
/// polynomials of one split, carrying pairwise distinct x-coordinates,
/// reconstructs exactly the secret that was split.
pub proof fn lemma_split_round_trip(
    polys: Seq<Seq<u8>>,
    secret: Seq<u8>,
    t: nat,
    shares: Seq<Share>,
    recovered: Seq<u8>,
)
    requires
        t >= 1,
        t <= shares.len(),
        is_split_of(polys, secret, t, shares),
        forall|i: int, j: int| 0 <= i < j < t ==> shares[i].x.0 != shares[j].x.0,
        recovered.len() == secret.len(),
        forall|k: int|
            0 <= k < recovered.len() ==> recovered[k] == recon_byte(
                share_xs(shares, t),
                share_ys(shares, t, k),
            ),
    ensures
        recovered == secret,
{
    let xs = share_xs(shares, t);
    assert forall|k: int| 0 <= k < secret.len() implies recovered[k] == secret[k] by {
        let p = polys[k];
        let ys = share_ys(shares, t, k);
        assert forall|i: int| 0 <= i < t implies ys[i] == poly_eval(p, xs[i]) by {
            assert(shares[i].y@[k] == poly_eval(polys[k], shares[i].x.0));
        }
        assert(ys =~= Seq::new(xs.len(), |i: int| poly_eval(p, xs[i])));
        lemma_interpolation(p, xs);
    }
    assert(recovered =~= secret);
}

} // verus!
