//! Splitting a secret into shares and recovering it: one random polynomial
//! per secret byte, shares as evaluations, recovery by Lagrange
//! interpolation at zero.

use vstd::prelude::*;
use vstd::assert_seqs_equal;
use crate::gf256::{GF256, gmul, ginv, lemma_mul_comm, lemma_mul_one, lemma_add_self_inverse,
    lemma_no_zero_divisors};

verus! {

/// A share: an x-coordinate and one y-byte per secret byte.
#[derive(Clone, Debug)]
pub struct Share {
    pub x: GF256,
    pub y: Vec<u8>,
}

impl PartialEq for Share {
    fn eq(&self, other: &Share) -> (r: bool) {
        self.x.0 == other.x.0 && bytes_eq(&self.y, &other.y)
    }
}

impl vstd::std_specs::cmp::PartialEqSpecImpl for Share {
    open spec fn obeys_eq_spec() -> bool {
        true
    }

    open spec fn eq_spec(&self, other: &Share) -> bool {
        self.x == other.x && self.y@ == other.y@
    }
}

/// Byte-wise comparison of two vectors.
fn bytes_eq(a: &Vec<u8>, b: &Vec<u8>) -> (r: bool)
    ensures
        r <==> a@ == b@,
{
    if a.len() != b.len() {
        assert(a@ != b@);
        return false;
    }
    let mut i: usize = 0;
    while i < a.len()
        invariant
            i <= a.len(),
            a@.len() == b@.len(),
            forall|k: int| 0 <= k < i ==> a@[k] == b@[k],
        decreases a.len() - i,
    {
        if a[i] != b[i] {
            assert(a@ != b@);
            return false;
        }
        i = i + 1;
    }
    proof {
        assert_seqs_equal!(a@ == b@);
    }
    true
}

/// The value at `x` of the polynomial with coefficient sequence `p`,
/// constant term first.
pub open spec fn poly_eval(p: Seq<u8>, x: u8) -> u8
    decreases p.len(),
{
    if p.len() == 0 {
        0
    } else {
        p[0] ^ gmul(x, poly_eval(p.drop_first(), x))
    }
}

/// `shares` is a split of `secret` with threshold `t`: one polynomial per
/// secret byte, of degree below `t`, with the secret byte as constant
/// term, and every share's y-byte is that polynomial's value at the
/// share's x-coordinate.
pub open spec fn is_split_of(polys: Seq<Seq<u8>>, secret: Seq<u8>, t: nat, shares: Seq<Share>) -> bool {
    &&& polys.len() == secret.len()
    &&& forall|k: int| 0 <= k < secret.len() ==> (#[trigger] polys[k]).len() == t && polys[k][0] == secret[k]
    &&& forall|i: int, k: int|
        0 <= i < shares.len() && 0 <= k < secret.len() ==> (#[trigger] shares[i].y@[k])
            == poly_eval(polys[k], shares[i].x.0)
}

/// The polynomials a split determines from a flat stream of coefficient
/// bytes: polynomial `k` has secret byte `k` as its constant term and the
/// `k`-th run of `t - 1` stream bytes as its higher coefficients.
pub open spec fn split_polys(secret: Seq<u8>, t: nat, coeffs: Seq<u8>) -> Seq<Seq<u8>> {
    Seq::new(
        secret.len(),
        |k: int| seq![secret[k]] + coeffs.subrange(k * (t - 1), (k + 1) * (t - 1)),
    )
}

proof fn lemma_split_polys_shape(secret: Seq<u8>, t: nat, coeffs: Seq<u8>)
    requires
        t >= 1,
        coeffs.len() == secret.len() * (t - 1),
    ensures
        split_polys(secret, t, coeffs).len() == secret.len(),
        forall|k: int|
            0 <= k < secret.len() ==> (#[trigger] split_polys(secret, t, coeffs)[k]).len() == t
                && split_polys(secret, t, coeffs)[k][0] == secret[k],
{
    assert forall|k: int|
        0 <= k < secret.len() implies (#[trigger] split_polys(secret, t, coeffs)[k]).len() == t
        && split_polys(secret, t, coeffs)[k][0] == secret[k] by {
        assert(0 <= k * (t - 1) && (k + 1) * (t - 1) <= secret.len() * (t - 1) && (k + 1) * (t - 1)
            - k * (t - 1) == t - 1) by (nonlinear_arith)
            requires
                0 <= k < secret.len(),
                t >= 1,
        ;
    }
}

/// Relies on rand::random: one byte from the thread-local cryptographic
/// generator.  Nothing is promised of its value.
#[verifier::external_body]
fn random_byte() -> u8 {
    rand::random::<u8>()
}

/// Horner evaluation of the polynomial `p` (constant term first) at `x`.
pub fn eval_poly(p: &Vec<u8>, x: GF256) -> (r: u8)
    ensures
        r == poly_eval(p@, x.0),
{
    let mut acc = GF256(0);
    let mut d: usize = p.len();
    while d > 0
        invariant
            d <= p.len(),
            acc.0 == poly_eval(p@.skip(d as int), x.0),
        decreases d,
    {
        d = d - 1;
        let ghost pre = acc.0;
        acc = acc.mul(x).add(GF256(p[d]));
        proof {
            lemma_mul_comm(pre, x.0);
            lemma_add_self_inverse(p@[d as int], gmul(x.0, pre));
            assert(p@.skip(d as int).drop_first() =~= p@.skip(d as int + 1));
            assert(p@.skip(d as int)[0] == p@[d as int]);
        }
    }
    proof {
        assert(p@.skip(0) =~= p@);
    }
    acc.0
}

/// The deterministic core of `split`: produce `share_count` shares of
/// `secret` from the supplied stream of coefficient bytes, one run of
/// `threshold - 1` bytes per secret byte.  Byte `k` of the secret is
/// shared through the polynomial with that byte as constant term and its
/// run of `coeffs` as the higher coefficients; share `i` carries the
/// values at x = i + 1.  Equal inputs give equal shares.
pub fn split_with(secret: &[u8], threshold: usize, share_count: usize, coeffs: &Vec<u8>) -> (r:
    Vec<Share>)
    requires
        1 <= threshold <= 255,
        threshold <= share_count <= 255,
        coeffs@.len() == secret@.len() * (threshold - 1),
    ensures
        r@.len() == share_count,
        forall|i: int| 0 <= i < share_count ==> (#[trigger] r@[i]).x.0 == i + 1,
        forall|i: int| 0 <= i < share_count ==> (#[trigger] r@[i]).y@.len() == secret@.len(),
        is_split_of(split_polys(secret@, threshold as nat, coeffs@), secret@, threshold as nat, r@),
{
    let ghost gpolys = split_polys(secret@, threshold as nat, coeffs@);
    proof {
        lemma_split_polys_shape(secret@, threshold as nat, coeffs@);
    }
    let mut polys: Vec<Vec<u8>> = Vec::new();
    let mut idx: usize = 0;
    let mut k: usize = 0;
    while k < secret.len()
        invariant
            k <= secret@.len(),
            1 <= threshold <= 255,
            coeffs@.len() == secret@.len() * (threshold - 1),
            gpolys == split_polys(secret@, threshold as nat, coeffs@),
            idx == k * (threshold - 1),
            polys@.len() == k,
            forall|kk: int| 0 <= kk < k ==> gpolys[kk] == (#[trigger] polys@[kk])@,
        decreases secret@.len() - k,
    {
        let mut p: Vec<u8> = Vec::new();
        p.push(secret[k]);
        let ghost base = idx as int;
        proof {
            assert(0 <= k * (threshold - 1) && k * (threshold - 1) <= secret@.len() * (threshold
                - 1)) by (nonlinear_arith)
                requires
                    0 <= k <= secret@.len(),
                    1 <= threshold,
            ;
            assert(p@ =~= seq![secret@[k as int]] + coeffs@.subrange(base, base));
        }
        let mut d: usize = 1;
        while d < threshold
            invariant
                1 <= d <= threshold,
                threshold <= 255,
                k < secret@.len(),
                coeffs@.len() == secret@.len() * (threshold - 1),
                base == k * (threshold - 1),
                idx == base + (d - 1),
                p@.len() == d,
                p@ == seq![secret@[k as int]] + coeffs@.subrange(base, idx as int),
            decreases threshold - d,
        {
            proof {
                assert(k * (threshold - 1) + (threshold - 1) <= secret@.len() * (threshold - 1))
                    by (nonlinear_arith)
                    requires
                        0 <= k < secret@.len(),
                        1 <= threshold,
                ;
                assert(coeffs.len() == coeffs@.len());
            }
            let b = coeffs[idx];
            proof {
                assert(seq![secret@[k as int]] + coeffs@.subrange(base, idx as int + 1) =~= (
                seq![secret@[k as int]] + coeffs@.subrange(base, idx as int)).push(b));
            }
            p.push(b);
            idx = idx + 1;
            d = d + 1;
        }
        proof {
            assert((k + 1) * (threshold - 1) == k * (threshold - 1) + (threshold - 1))
                by (nonlinear_arith);
            assert(p@ =~= gpolys[k as int]);
        }
        polys.push(p);
        k = k + 1;
    }
    let mut shares: Vec<Share> = Vec::new();
    let mut i: usize = 0;
    while i < share_count
        invariant
            i <= share_count,
            share_count <= 255,
            polys@.len() == secret@.len(),
            gpolys.len() == secret@.len(),
            forall|kk: int| 0 <= kk < secret@.len() ==> gpolys[kk] == (#[trigger] polys@[kk])@,
            forall|kk: int|
                0 <= kk < secret@.len() ==> (#[trigger] gpolys[kk]).len() == threshold
                    && gpolys[kk][0] == secret@[kk],
            shares@.len() == i,
            forall|ii: int| 0 <= ii < i ==> (#[trigger] shares@[ii]).x.0 == ii + 1,
            forall|ii: int| 0 <= ii < i ==> (#[trigger] shares@[ii]).y@.len() == secret@.len(),
            forall|ii: int, kk: int|
                0 <= ii < i && 0 <= kk < secret@.len() ==> (#[trigger] shares@[ii].y@[kk])
                    == poly_eval(gpolys[kk], (ii + 1) as u8),
        decreases share_count - i,
    {
        let x = GF256((i + 1) as u8);
        let mut y: Vec<u8> = Vec::new();
        let mut k: usize = 0;
        while k < polys.len()
            invariant
                k <= polys@.len(),
                gpolys.len() == polys@.len(),
                forall|kk: int| 0 <= kk < polys@.len() ==> gpolys[kk] == (#[trigger] polys@[kk])@,
                y@.len() == k,
                x.0 == i + 1,
                forall|kk: int|
                    0 <= kk < k ==> (#[trigger] y@[kk]) == poly_eval(gpolys[kk], x.0),
            decreases polys@.len() - k,
        {
            y.push(eval_poly(&polys[k], x));
            k = k + 1;
        }
        shares.push(Share { x, y });
        i = i + 1;
    }
    proof {
        assert(is_split_of(gpolys, secret@, threshold as nat, shares@));
    }
    shares
}

/// Produce `share_count` shares of `secret`, any `threshold` of which
/// recover it.  Every byte of the secret is shared through its own
/// uniformly random polynomial with the byte as constant term: the
/// coefficients are drawn from the thread-local cryptographic generator
/// and handed to `split_with`, which does the rest deterministically.
pub fn split(secret: &[u8], threshold: usize, share_count: usize) -> (r: Vec<Share>)
    requires
        1 <= threshold <= 255,
        threshold <= share_count <= 255,
    ensures
        r@.len() == share_count,
        forall|i: int| 0 <= i < share_count ==> (#[trigger] r@[i]).x.0 == i + 1,
        forall|i: int| 0 <= i < share_count ==> (#[trigger] r@[i]).y@.len() == secret@.len(),
        exists|polys: Seq<Seq<u8>>| is_split_of(polys, secret@, threshold as nat, r@),
{
    let mut coeffs: Vec<u8> = Vec::new();
    let mut k: usize = 0;
    while k < secret.len()
        invariant
            k <= secret@.len(),
            1 <= threshold <= 255,
            coeffs@.len() == k * (threshold - 1),
        decreases secret@.len() - k,
    {
        let mut d: usize = 1;
        while d < threshold
            invariant
                1 <= d <= threshold,
                coeffs@.len() == k * (threshold - 1) + (d - 1),
            decreases threshold - d,
        {
            coeffs.push(random_byte());
            d = d + 1;
        }
        proof {
            assert((k + 1) * (threshold - 1) == k * (threshold - 1) + (threshold - 1))
                by (nonlinear_arith);
        }
        k = k + 1;
    }
    let r = split_with(secret, threshold, share_count, &coeffs);
    proof {
        assert(is_split_of(
            split_polys(secret@, threshold as nat, coeffs@),
            secret@,
            threshold as nat,
            r@,
        ));
    }
    r
}

/// Product of a sequence of field elements; the empty product is 1.
pub open spec fn gf_prod(s: Seq<u8>) -> u8
    decreases s.len(),
{
    if s.len() == 0 {
        1
    } else {
        gmul(gf_prod(s.drop_last()), s.last())
    }
}

/// Sum (XOR) of a sequence of field elements; the empty sum is 0.
pub open spec fn gf_sum(s: Seq<u8>) -> u8
    decreases s.len(),
{
    if s.len() == 0 {
        0
    } else {
        gf_sum(s.drop_last()) ^ s.last()
    }
}

/// Every element XORed with `c`.
pub open spec fn diff_map(s: Seq<u8>, c: u8) -> Seq<u8> {
    s.map_values(|v: u8| v ^ c)
}

/// The x-coordinates of the first `t` shares.
pub open spec fn share_xs(shares: Seq<Share>, t: nat) -> Seq<u8> {
    Seq::new(t, |i: int| shares[i].x.0)
}

/// The y-bytes at position `k` of the first `t` shares.
pub open spec fn share_ys(shares: Seq<Share>, t: nat, k: int) -> Seq<u8> {
    Seq::new(t, |i: int| shares[i].y@[k])
}

/// The Lagrange basis coefficient at zero for sample `i`: the product of
/// the other x-coordinates over the product of their distances to `x_i`.
pub open spec fn lag_basis(xs: Seq<u8>, i: int) -> u8 {
    gmul(gf_prod(xs.remove(i)), ginv(gf_prod(diff_map(xs.remove(i), xs[i]))))
}

/// One interpolated byte: the y-samples weighted by their basis
/// coefficients and summed.
pub open spec fn recon_byte(xs: Seq<u8>, ys: Seq<u8>) -> u8 {
    gf_sum(Seq::new(xs.len(), |i: int| gmul(ys[i], lag_basis(xs, i))))
}

/// The first `j` elements, with element `i` left out if it lies below `j`.
pub open spec fn prefix_except(xs: Seq<u8>, j: int, i: int) -> Seq<u8> {
    if i < j {
        xs.take(j).remove(i)
    } else {
        xs.take(j)
    }
}

proof fn lemma_prod_push(s: Seq<u8>, v: u8)
    ensures
        gf_prod(s.push(v)) == gmul(gf_prod(s), v),
{
    assert(s.push(v).drop_last() =~= s);
}

proof fn lemma_sum_push(s: Seq<u8>, v: u8)
    ensures
        gf_sum(s.push(v)) == gf_sum(s) ^ v,
{
    assert(s.push(v).drop_last() =~= s);
}

/// Distinct elements differ by a non-zero amount.
pub proof fn lemma_neq_xor_nonzero(a: u8, b: u8)
    requires
        a != b,
    ensures
        a ^ b != 0,
{
    lemma_add_self_inverse(a, b);
    lemma_add_self_inverse(0, b);
    lemma_add_self_inverse(b, 0);
    if a ^ b == 0 {
        assert(a == (a ^ b) ^ b);
        assert((a ^ b) ^ b == 0 ^ b);
        assert(0 ^ b == b ^ 0);
    }
}

/// Recover the secret from at least `threshold` shares by Lagrange
/// interpolation at zero, byte position by byte position, using the first
/// `threshold` shares.  The supplied shares must carry y-vectors of one
/// length and pairwise distinct x-coordinates.
pub fn reconstruct(shares: &[Share], threshold: usize) -> (r: Vec<u8>)
    requires
        threshold <= shares@.len(),
        shares@.len() >= 1,
        forall|i: int|
            0 <= i < shares@.len() ==> (#[trigger] shares@[i]).y@.len() == shares@[0].y@.len(),
        forall|i: int, j: int|
            0 <= i < j < threshold ==> (#[trigger] shares@[i]).x.0 != (#[trigger] shares@[j]).x.0,
    ensures
        r@.len() == shares@[0].y@.len(),
        forall|k: int|
            0 <= k < r@.len() ==> (#[trigger] r@[k]) == recon_byte(
                share_xs(shares@, threshold as nat),
                share_ys(shares@, threshold as nat, k),
            ),
{
    let ghost t = threshold as nat;
    let ghost xs = share_xs(shares@, t);
    let secret_len = shares[0].y.len();
    let mut secret: Vec<u8> = Vec::new();
    let mut k: usize = 0;
    while k < secret_len
        invariant
            k <= secret_len,
            t == threshold,
            xs == share_xs(shares@, t),
            threshold <= shares@.len(),
            shares@.len() >= 1,
            secret_len == shares@[0].y@.len(),
            forall|i: int|
                0 <= i < shares@.len() ==> (#[trigger] shares@[i]).y@.len() == shares@[0].y@.len(),
            forall|i: int, j: int|
                0 <= i < j < threshold ==> (#[trigger] shares@[i]).x.0 != (#[trigger] shares@[j]).x.0,
            secret@.len() == k,
            forall|kk: int|
                0 <= kk < k ==> (#[trigger] secret@[kk]) == recon_byte(
                    xs,
                    share_ys(shares@, t, kk),
                ),
        decreases secret_len - k,
    {
        let ghost ys = share_ys(shares@, t, k as int);
        let ghost terms = Seq::new(xs.len(), |i: int| gmul(ys[i], lag_basis(xs, i)));
        let mut s = GF256(0);
        let mut i: usize = 0;
        proof {
            assert(terms.take(0) =~= Seq::<u8>::empty());
        }
        while i < threshold
            invariant
                i <= threshold,
                t == threshold,
                xs == share_xs(shares@, t),
                ys == share_ys(shares@, t, k as int),
                terms == Seq::new(xs.len(), |ii: int| gmul(ys[ii], lag_basis(xs, ii))),
                threshold <= shares@.len(),
                shares@.len() >= 1,
                k < shares@[0].y@.len(),
                forall|ii: int|
                    0 <= ii < shares@.len() ==> (#[trigger] shares@[ii]).y@.len()
                        == shares@[0].y@.len(),
                forall|ii: int, j: int|
                    0 <= ii < j < threshold ==> (#[trigger] shares@[ii]).x.0 != (#[trigger] shares@[j]).x.0,
                s.0 == gf_sum(terms.take(i as int)),
            decreases threshold - i,
        {
            let mut num = GF256(1);
            let mut den = GF256(1);
            let ghost mut fnum: Seq<u8> = Seq::empty();
            let ghost mut fden: Seq<u8> = Seq::empty();
            let mut j: usize = 0;
            proof {
                assert(xs.take(0) =~= Seq::<u8>::empty());
                assert(fden =~= diff_map(prefix_except(xs, 0, i as int), xs[i as int]));
            }
            while j < threshold
                invariant
                    j <= threshold,
                    i < threshold,
                    t == threshold,
                    xs == share_xs(shares@, t),
                    threshold <= shares@.len(),
                    forall|ii: int, jj: int|
                        0 <= ii < jj < threshold ==> (#[trigger] shares@[ii]).x.0 != (#[trigger] shares@[jj]).x.0,
                    fnum == prefix_except(xs, j as int, i as int),
                    fden == diff_map(prefix_except(xs, j as int, i as int), xs[i as int]),
                    num.0 == gf_prod(fnum),
                    den.0 == gf_prod(fden),
                    den.0 != 0,
                decreases threshold - j,
            {
                if i != j {
                    let ghost xj = xs[j as int];
                    let ghost xi = xs[i as int];
                    let ghost factor = xj ^ xi;
                    proof {
                        if i < j {
                            assert(prefix_except(xs, j as int + 1, i as int) =~= prefix_except(
                                xs,
                                j as int,
                                i as int,
                            ).push(xj));
                        } else {
                            assert(prefix_except(xs, j as int + 1, i as int) =~= prefix_except(
                                xs,
                                j as int,
                                i as int,
                            ).push(xj));
                        }
                        assert(diff_map(prefix_except(xs, j as int, i as int).push(xj), xi)
                            =~= fden.push(factor));
                        lemma_prod_push(fnum, xj);
                        lemma_prod_push(fden, factor);
                        if i < j {
                            assert(shares@[i as int].x.0 != shares@[j as int].x.0);
                        } else {
                            assert(shares@[j as int].x.0 != shares@[i as int].x.0);
                        }
                        lemma_neq_xor_nonzero(xj, xi);
                        lemma_no_zero_divisors(den.0, factor);
                        fnum = fnum.push(xj);
                        fden = fden.push(factor);
                    }
                    num = num.mul(shares[j].x);
                    den = den.mul(shares[j].x.sub(shares[i].x));
                } else {
                    proof {
                        assert(prefix_except(xs, j as int + 1, i as int) =~= prefix_except(
                            xs,
                            j as int,
                            i as int,
                        ));
                    }
                }
                j = j + 1;
            }
            proof {
                assert(xs.take(t as int) =~= xs);
                assert(fnum == xs.remove(i as int));
                assert(fden == diff_map(xs.remove(i as int), xs[i as int]));
            }
            let li = num.div(den);
            proof {
                assert(li.0 == lag_basis(xs, i as int));
                assert(terms.take(i as int + 1) =~= terms.take(i as int).push(
                    terms[i as int],
                ));
                lemma_sum_push(terms.take(i as int), terms[i as int]);
                assert(ys[i as int] == shares@[i as int].y@[k as int]);
            }
            s = s.add(GF256(shares[i].y[k]).mul(li));
            i = i + 1;
        }
        proof {
            assert(terms.take(t as int) =~= terms);
            assert(gf_sum(terms) == recon_byte(xs, ys));
        }
        secret.push(s.0);
        k = k + 1;
    }
    secret
}

} // verus!
