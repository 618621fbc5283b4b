//! Arithmetic in GF(256): bytes as polynomials over GF(2) modulo
//! x^8 + x^4 + x^3 + x + 1 (0x11b).  Addition is XOR; multiplication is
//! the carry-less shift-and-reduce product.

use vstd::prelude::*;

verus! {

/// Multiplication by x in the field: shift left, and fold an overflowing
/// x^8 back in as x^4 + x^3 + x + 1 (low byte 0x1b of the modulus).
pub open spec fn xtime(a: u8) -> u8 {
    if a >= 0x80 {
        (a << 1) ^ 0x1b
    } else {
        a << 1
    }
}

/// Product of two field elements: for each set bit of `b`, add in the
/// matching x-multiple of `a`.
pub open spec fn gmul(a: u8, b: u8) -> u8
    decreases b,
{
    if b == 0 {
        0
    } else {
        (if b % 2 == 1 {
            a
        } else {
            0
        }) ^ gmul(xtime(a), b / 2)
    }
}

/// `a` raised to a natural-number exponent; the empty product is 1.
pub open spec fn gpow(a: u8, e: nat) -> u8
    decreases e,
{
    if e == 0 {
        1
    } else {
        gmul(a, gpow(a, (e - 1) as nat))
    }
}

/// Multiplicative inverse by Fermat's little theorem: the 255 non-zero
/// elements form a group of order 255, so a^254 inverts a.
pub open spec fn ginv(a: u8) -> u8 {
    gpow(a, 254)
}

/// An element of GF(256), one byte.
#[derive(Copy, Clone, PartialEq, Eq, Structural, Debug)]
pub struct GF256(pub u8);

impl GF256 {
    /// Field addition: XOR of the byte representations.
    pub fn add_internal(self, other: Self) -> (r: Self)
        ensures
            r.0 == self.0 ^ other.0,
    {
        GF256(self.0 ^ other.0)
    }

    /// Field multiplication by the shift-and-reduce loop.
    pub fn mul_internal(self, other: Self) -> (r: Self)
        ensures
            r.0 == gmul(self.0, other.0),
    {
        let mut a = self.0;
        let mut b = other.0;
        let mut res: u8 = 0;
        let mut i: usize = 0;
        proof {
            reveal_with_fuel(pow2_u8, 9);
            lemma_xor_zero(gmul(a, b));
        }
        while i < 8
            invariant
                i <= 8,
                b < pow2_u8((8 - i) as nat),
                res ^ gmul(a, b) == gmul(self.0, other.0),
            decreases 8 - i,
        {
            proof {
                lemma_gmul_unfold(a, b);
                if b % 2 == 1 {
                    lemma_xor_assoc(res, a, gmul(xtime(a), b / 2));
                } else {
                    lemma_xor_zero(gmul(xtime(a), b / 2));
                }
            }
            if b % 2 == 1 {
                res = res ^ a;
            }
            let carry = a >= 0x80;
            a = a << 1;
            if carry {
                a = a ^ 0x1b;
            }
            b = b / 2;
            i = i + 1;
        }
        proof {
            assert(b == 0);
            lemma_xor_zero(res);
        }
        GF256(res)
    }

    /// Field addition.
    pub fn add(self, other: Self) -> (r: Self)
        ensures
            r.0 == self.0 ^ other.0,
    {
        self.add_internal(other)
    }

    /// Field subtraction; in characteristic 2 it coincides with addition.
    pub fn sub(self, other: Self) -> (r: Self)
        ensures
            r.0 == self.0 ^ other.0,
    {
        self.add_internal(other)
    }

    /// Field multiplication.
    pub fn mul(self, other: Self) -> (r: Self)
        ensures
            r.0 == gmul(self.0, other.0),
    {
        self.mul_internal(other)
    }

    /// Exponentiation by square-and-multiply over an 8-bit exponent;
    /// `a^0 == 1` for every `a`, including zero.
    pub fn pow(self, e: u8) -> (r: Self)
        ensures
            r.0 == gpow(self.0, e as nat),
    {
        let mut base = self;
        let mut acc = GF256(1);
        let mut e = e;
        let ghost e0 = e as nat;
        proof {
            reveal_with_fuel(gpow, 2);
            lemma_mul_one(gpow(self.0, e0));
            lemma_mul_comm(1, gpow(self.0, e0));
        }
        while e != 0
            invariant
                gmul(acc.0, gpow(base.0, e as nat)) == gpow(self.0, e0),
            decreases e,
        {
            proof {
                lemma_pow_step(acc.0, base.0, e as nat);
            }
            if e % 2 == 1 {
                acc = acc.mul(base);
            }
            base = base.mul(base);
            e = e / 2;
        }
        proof {
            lemma_mul_one(acc.0);
        }
        acc
    }

    /// Multiplicative inverse, `a^254`; zero has none.
    pub fn inv(self) -> (r: Self)
        requires
            self.0 != 0,
        ensures
            r.0 == ginv(self.0),
            gmul(self.0, r.0) == 1,
            gmul(r.0, self.0) == 1,
    {
        proof {
            lemma_mul_inverse(self.0);
            lemma_mul_comm(self.0, ginv(self.0));
        }
        self.pow(254)
    }

    /// Field division, `a * b^-1`; the divisor must be non-zero.
    pub fn div(self, other: Self) -> (r: Self)
        requires
            other.0 != 0,
        ensures
            r.0 == gmul(self.0, ginv(other.0)),
    {
        self.mul_internal(other.inv())
    }
}

/// Powers of two, for bounding the multiplier during the reduce loop.
pub open spec fn pow2_u8(n: nat) -> nat
    decreases n,
{
    if n == 0 {
        1
    } else {
        2 * pow2_u8((n - 1) as nat)
    }
}

/// The product with all eight rounds of the shift-and-reduce loop written
/// out, so that the bit-vector solver can inline it.
pub open spec fn gmul_rounds(a: u8, b: u8) -> u8 {
    let a1 = xtime(a);
    let a2 = xtime(a1);
    let a3 = xtime(a2);
    let a4 = xtime(a3);
    let a5 = xtime(a4);
    let a6 = xtime(a5);
    let a7 = xtime(a6);
    (if b % 2 == 1 {
        a
    } else {
        0
    }) ^ ((if (b / 2) % 2 == 1 {
        a1
    } else {
        0
    }) ^ ((if (b / 4) % 2 == 1 {
        a2
    } else {
        0
    }) ^ ((if (b / 8) % 2 == 1 {
        a3
    } else {
        0
    }) ^ ((if (b / 16) % 2 == 1 {
        a4
    } else {
        0
    }) ^ ((if (b / 32) % 2 == 1 {
        a5
    } else {
        0
    }) ^ ((if (b / 64) % 2 == 1 {
        a6
    } else {
        0
    }) ^ ((if (b / 128) % 2 == 1 {
        a7
    } else {
        0
    }) ^ 0)))))))
}

/// Running the recurrence for eight rounds exhausts every bit of `b`.
proof fn lemma_gmul_eq_rounds(a: u8, b: u8)
    ensures
        gmul(a, b) == gmul_rounds(a, b),
{
    assert(b / 2 / 2 == b / 4 && b / 4 / 2 == b / 8 && b / 8 / 2 == b / 16 && b / 16 / 2 == b / 32
        && b / 32 / 2 == b / 64 && b / 64 / 2 == b / 128 && b / 128 / 2 == 0) by (bit_vector);
    lemma_gmul_unfold(a, b);
    lemma_gmul_unfold(xtime(a), b / 2);
    lemma_gmul_unfold(xtime(xtime(a)), b / 4);
    lemma_gmul_unfold(xtime(xtime(xtime(a))), b / 8);
    lemma_gmul_unfold(xtime(xtime(xtime(xtime(a)))), b / 16);
    lemma_gmul_unfold(xtime(xtime(xtime(xtime(xtime(a))))), b / 32);
    lemma_gmul_unfold(xtime(xtime(xtime(xtime(xtime(xtime(a)))))), b / 64);
    lemma_gmul_unfold(xtime(xtime(xtime(xtime(xtime(xtime(xtime(a))))))), b / 128);
}

/// XOR is associative.
proof fn lemma_xor_assoc(x: u8, y: u8, z: u8)
    by (bit_vector)
    ensures
        (x ^ y) ^ z == x ^ (y ^ z),
{
}

/// Zero is the XOR identity.
proof fn lemma_xor_zero(x: u8)
    by (bit_vector)
    ensures
        x ^ 0 == x,
        0 ^ x == x,
{
}

/// The defining recurrence of `gmul`, valid for every `b` including 0.
proof fn lemma_gmul_unfold(a: u8, b: u8)
    ensures
        gmul(a, b) == ((if b % 2 == 1 {
            a
        } else {
            0
        }) ^ gmul(xtime(a), b / 2)),
{
    if b == 0 {
        assert(0u8 ^ 0u8 == 0u8) by (bit_vector);
    }
}

#[verifier::rlimit(100)]
proof fn lemma_rounds_comm(a: u8, b: u8)
    by (bit_vector)
    ensures
        gmul_rounds(a, b) == gmul_rounds(b, a),
{
}

#[verifier::rlimit(100)]
proof fn lemma_rounds_dist(a: u8, b: u8, c: u8)
    by (bit_vector)
    ensures
        gmul_rounds(a, b ^ c) == gmul_rounds(a, b) ^ gmul_rounds(a, c),
{
}

#[verifier::rlimit(100)]
proof fn lemma_rounds_one(a: u8)
    by (bit_vector)
    ensures
        gmul_rounds(a, 1) == a,
        gmul_rounds(1, a) == a,
        gmul_rounds(a, 0) == 0,
        gmul_rounds(0, a) == 0,
{
}

/// Multiplication is commutative.
pub proof fn lemma_mul_comm(a: u8, b: u8)
    ensures
        gmul(a, b) == gmul(b, a),
{
    lemma_gmul_eq_rounds(a, b);
    lemma_gmul_eq_rounds(b, a);
    lemma_rounds_comm(a, b);
}

#[verifier::rlimit(100)]
proof fn lemma_rounds_dist_left(a: u8, b: u8, c: u8)
    by (bit_vector)
    ensures
        gmul_rounds(a ^ b, c) == gmul_rounds(a, c) ^ gmul_rounds(b, c),
{
}

#[verifier::rlimit(100)]
proof fn lemma_rounds_xtime(a: u8, b: u8)
    by (bit_vector)
    ensures
        gmul_rounds(xtime(a), b) == xtime(gmul_rounds(a, b)),
{
}

/// Multiplication distributes over addition in the left argument too.
pub proof fn lemma_mul_dist_left(a: u8, b: u8, c: u8)
    ensures
        gmul(a ^ b, c) == gmul(a, c) ^ gmul(b, c),
{
    lemma_gmul_eq_rounds(a ^ b, c);
    lemma_gmul_eq_rounds(a, c);
    lemma_gmul_eq_rounds(b, c);
    lemma_rounds_dist_left(a, b, c);
}

/// Multiplying by x commutes with any product.
proof fn lemma_mul_xtime(a: u8, b: u8)
    ensures
        gmul(xtime(a), b) == xtime(gmul(a, b)),
{
    lemma_gmul_eq_rounds(xtime(a), b);
    lemma_gmul_eq_rounds(a, b);
    lemma_rounds_xtime(a, b);
}

/// Multiplication is associative, by induction on the bits of `a`: the low
/// bit contributes through the identity, the rest through one x-multiple.
pub proof fn lemma_mul_assoc(a: u8, b: u8, c: u8)
    ensures
        gmul(gmul(a, b), c) == gmul(a, gmul(b, c)),
    decreases a,
{
    lemma_mul_one(b);
    lemma_mul_one(c);
    lemma_mul_one(gmul(b, c));
    if a == 0 {
        lemma_mul_one(gmul(0, b));
    } else {
        let lo: u8 = a % 2;
        let hi: u8 = xtime(a / 2);
        assert(a == lo ^ hi && a / 2 < a && (lo == 0 || lo == 1)) by (bit_vector)
            requires
                lo == a % 2 && hi == xtime(a / 2) && a != 0,
        ;
        lemma_mul_assoc(a / 2, b, c);
        lemma_mul_dist_left(lo, hi, b);
        lemma_mul_xtime(a / 2, b);
        assert(gmul(a, b) == gmul(lo, b) ^ xtime(gmul(a / 2, b)));
        lemma_mul_dist_left(gmul(lo, b), xtime(gmul(a / 2, b)), c);
        lemma_mul_xtime(gmul(a / 2, b), c);
        lemma_mul_dist_left(lo, hi, gmul(b, c));
        lemma_mul_xtime(a / 2, gmul(b, c));
        if lo == 0 {
            lemma_mul_one(gmul(0, b));
        }
    }
}

/// Multiplication distributes over addition (XOR).
pub proof fn lemma_mul_dist(a: u8, b: u8, c: u8)
    ensures
        gmul(a, b ^ c) == gmul(a, b) ^ gmul(a, c),
{
    lemma_gmul_eq_rounds(a, b ^ c);
    lemma_gmul_eq_rounds(a, b);
    lemma_gmul_eq_rounds(a, c);
    lemma_rounds_dist(a, b, c);
}

/// One is the multiplicative identity, zero annihilates.
pub proof fn lemma_mul_one(a: u8)
    ensures
        gmul(a, 1) == a,
        gmul(1, a) == a,
        gmul(a, 0) == 0,
        gmul(0, a) == 0,
{
    lemma_gmul_eq_rounds(a, 1);
    lemma_gmul_eq_rounds(1, a);
    lemma_gmul_eq_rounds(a, 0);
    lemma_gmul_eq_rounds(0, a);
    lemma_rounds_one(a);
}

/// Addition is its own inverse: adding `b` twice gives `a` back.
pub proof fn lemma_add_self_inverse(a: u8, b: u8)
    by (bit_vector)
    ensures
        (a ^ b) ^ b == a,
        a ^ a == 0,
        a ^ 0 == a,
        a ^ b == b ^ a,
{
}

/// Exponents add: `a^(m+n) == a^m * a^n`.
pub proof fn lemma_gpow_add(a: u8, m: nat, n: nat)
    ensures
        gpow(a, m + n) == gmul(gpow(a, m), gpow(a, n)),
    decreases m,
{
    if m == 0 {
        reveal_with_fuel(gpow, 2);
        lemma_mul_one(gpow(a, n));
    } else {
        lemma_gpow_add(a, (m - 1) as nat, n);
        lemma_mul_assoc(a, gpow(a, (m - 1) as nat), gpow(a, n));
    }
}

/// Squaring the base doubles the exponent.
proof fn lemma_gpow_square(a: u8, k: nat)
    ensures
        gpow(gmul(a, a), k) == gpow(a, 2 * k),
    decreases k,
{
    if k == 0 {
    } else {
        lemma_gpow_square(a, (k - 1) as nat);
        reveal_with_fuel(gpow, 3);
        lemma_mul_one(a);
        assert(gpow(a, 2) == gmul(a, gmul(a, 1)));
        lemma_gpow_add(a, 2, (2 * k - 2) as nat);
    }
}

/// One step of square-and-multiply preserves `acc * base^e`.
proof fn lemma_pow_step(acc: u8, base: u8, e: nat)
    requires
        e > 0,
    ensures
        e % 2 == 1 ==> gmul(gmul(acc, base), gpow(gmul(base, base), e / 2)) == gmul(
            acc,
            gpow(base, e),
        ),
        e % 2 == 0 ==> gmul(acc, gpow(gmul(base, base), e / 2)) == gmul(acc, gpow(base, e)),
{
    lemma_gpow_square(base, e / 2);
    reveal_with_fuel(gpow, 2);
    if e % 2 == 1 {
        assert(2 * (e / 2) + 1 == e);
        lemma_gpow_add(base, 1, (e - 1) as nat);
        lemma_mul_one(base);
        assert(gpow(base, 1) == gmul(base, 1));
        lemma_mul_assoc(acc, base, gpow(base, (e - 1) as nat));
    } else {
        assert(2 * (e / 2) == e);
    }
}

/// `a^k` squared and multiplied once more by `a` gives `a^(2k+1)`.
proof fn lemma_double_and_add(a: u8, k: nat)
    ensures
        gmul(gmul(gpow(a, k), gpow(a, k)), a) == gpow(a, 2 * k + 1),
{
    reveal_with_fuel(gpow, 2);
    lemma_gpow_add(a, k, k);
    lemma_gpow_add(a, 2 * k, 1);
    lemma_mul_one(a);
    assert(gpow(a, 1) == gmul(a, 1));
    lemma_mul_comm(gpow(a, 2 * k), a);
}

/// Every non-zero element times its inverse is one.  `a^254` is built by a
/// chain of squarings (a^3, a^7, ..., a^127, then squared once more), each
/// step handed to the bit-vector solver as one multiplier equation.
#[verifier::rlimit(100)]
pub proof fn lemma_mul_inverse(a: u8)
    requires
        a != 0,
    ensures
        gmul(a, ginv(a)) == 1,
{
    let x2 = gmul(a, a);
    let p3 = gmul(x2, a);
    let x6 = gmul(p3, p3);
    let p7 = gmul(x6, a);
    let x14 = gmul(p7, p7);
    let p15 = gmul(x14, a);
    let x30 = gmul(p15, p15);
    let p31 = gmul(x30, a);
    let x62 = gmul(p31, p31);
    let p63 = gmul(x62, a);
    let x126 = gmul(p63, p63);
    let p127 = gmul(x126, a);
    let p254 = gmul(p127, p127);
    reveal_with_fuel(gpow, 2);
    lemma_mul_one(a);
    assert(gpow(a, 1) == gmul(a, 1));
    lemma_double_and_add(a, 1);
    lemma_double_and_add(a, 3);
    lemma_double_and_add(a, 7);
    lemma_double_and_add(a, 15);
    lemma_double_and_add(a, 31);
    lemma_double_and_add(a, 63);
    lemma_gpow_add(a, 127, 127);
    assert(p254 == gpow(a, 254));
    lemma_gmul_eq_rounds(a, a);
    lemma_gmul_eq_rounds(x2, a);
    lemma_gmul_eq_rounds(p3, p3);
    lemma_gmul_eq_rounds(x6, a);
    lemma_gmul_eq_rounds(p7, p7);
    lemma_gmul_eq_rounds(x14, a);
    lemma_gmul_eq_rounds(p15, p15);
    lemma_gmul_eq_rounds(x30, a);
    lemma_gmul_eq_rounds(p31, p31);
    lemma_gmul_eq_rounds(x62, a);
    lemma_gmul_eq_rounds(p63, p63);
    lemma_gmul_eq_rounds(x126, a);
    lemma_gmul_eq_rounds(p127, p127);
    lemma_gmul_eq_rounds(a, p254);
    assert(gmul_rounds(a, p254) == 1) by (bit_vector)
        requires
            a != 0,
            x2 == gmul_rounds(a, a),
            p3 == gmul_rounds(x2, a),
            x6 == gmul_rounds(p3, p3),
            p7 == gmul_rounds(x6, a),
            x14 == gmul_rounds(p7, p7),
            p15 == gmul_rounds(x14, a),
            x30 == gmul_rounds(p15, p15),
            p31 == gmul_rounds(x30, a),
            x62 == gmul_rounds(p31, p31),
            p63 == gmul_rounds(x62, a),
            x126 == gmul_rounds(p63, p63),
            p127 == gmul_rounds(x126, a),
            p254 == gmul_rounds(p127, p127),
    ;
}

/// A product of non-zero elements is non-zero.
pub proof fn lemma_no_zero_divisors(a: u8, b: u8)
    requires
        a != 0,
        b != 0,
    ensures
        gmul(a, b) != 0,
{
    if gmul(a, b) == 0 {
        lemma_mul_inverse(a);
        lemma_mul_comm(a, ginv(a));
        lemma_mul_assoc(ginv(a), a, b);
        lemma_mul_one(b);
        lemma_mul_one(ginv(a));
        assert(b == gmul(gmul(ginv(a), a), b));
        assert(b == gmul(ginv(a), 0));
    }
}

} // verus!
