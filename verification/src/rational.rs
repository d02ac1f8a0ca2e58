//! Rational numbers of any size.
//!
//! The arithmetic is that of the `num` crate. A number is held as the
//! two's-complement bytes of its numerator and denominator, so that it is a
//! plain value and the functions that call into `num` take and return plain
//! values.

use num::bigint::BigInt;
use num::BigRational;
use vstd::prelude::*;

use crate::text::signed_decimal;

verus! {

/// The integer whose little-endian two's-complement bytes are `bytes`.
pub open spec fn signed_le(bytes: Seq<u8>) -> int
    decreases bytes.len(),
{
    if bytes.len() == 0 {
        0
    } else if bytes.len() == 1 {
        if bytes[0] < 128 {
            bytes[0] as int
        } else {
            bytes[0] - 256
        }
    } else {
        bytes[0] + 256 * signed_le(bytes.drop_first())
    }
}

/// Whether `n` and `d` have no common divisor, in the form of Bezout.
pub open spec fn coprime(n: int, d: int) -> bool {
    exists|u: int, v: int| #[trigger] (u * n) + #[trigger] (v * d) == 1
}

/// Whether `n / d` is a fraction in lowest terms.
pub open spec fn lowest(n: int, d: int) -> bool {
    d > 0 && coprime(n, d)
}

/// A rational number in lowest terms, with a positive denominator.
#[derive(Debug)]
pub struct Rational {
    numer: Vec<u8>,
    denom: Vec<u8>,
}

impl Rational {
    /// The numerator.
    pub closed spec fn numer(self) -> int {
        signed_le(self.numer@)
    }

    /// The denominator.
    pub closed spec fn denom(self) -> int {
        signed_le(self.denom@)
    }

    #[verifier::type_invariant]
    spec fn reduced(self) -> bool {
        lowest(self.numer(), self.denom())
    }
}

impl View for Rational {
    type V = real;

    open spec fn view(&self) -> real {
        self.numer() as real / self.denom() as real
    }
}

/// `num::BigRational::from_integer`: the rational number that is the integer `n`.
#[verifier::external_body]
pub(crate) fn rational_from_integer(n: i64) -> (r: Rational)
    ensures
        r@ == n as real,
{
    let q = BigRational::from_integer(BigInt::from(n));
    Rational { numer: q.numer().to_signed_bytes_le(), denom: q.denom().to_signed_bytes_le() }
}

/// `num::BigRational::new`: the quotient of two integers, in lowest terms. It
/// panics on a denominator of zero.
#[verifier::external_body]
pub(crate) fn rational_new(n: usize, d: usize) -> (r: Rational)
    requires
        d != 0,
    ensures
        r@ == n as real / d as real,
{
    let q = BigRational::new(BigInt::from(n), BigInt::from(d));
    Rational { numer: q.numer().to_signed_bytes_le(), denom: q.denom().to_signed_bytes_le() }
}

/// The `+` of `num::BigRational`: the sum.
#[verifier::external_body]
pub(crate) fn rational_add(a: &Rational, b: &Rational) -> (r: Rational)
    ensures
        r@ == a@ + b@,
{
    let x = BigRational::new(
        BigInt::from_signed_bytes_le(&a.numer),
        BigInt::from_signed_bytes_le(&a.denom),
    );
    let y = BigRational::new(
        BigInt::from_signed_bytes_le(&b.numer),
        BigInt::from_signed_bytes_le(&b.denom),
    );
    let q = x + y;
    Rational { numer: q.numer().to_signed_bytes_le(), denom: q.denom().to_signed_bytes_le() }
}

/// The `-` of `num::BigRational`: the difference.
#[verifier::external_body]
pub(crate) fn rational_sub(a: &Rational, b: &Rational) -> (r: Rational)
    ensures
        r@ == a@ - b@,
{
    let x = BigRational::new(
        BigInt::from_signed_bytes_le(&a.numer),
        BigInt::from_signed_bytes_le(&a.denom),
    );
    let y = BigRational::new(
        BigInt::from_signed_bytes_le(&b.numer),
        BigInt::from_signed_bytes_le(&b.denom),
    );
    let q = x - y;
    Rational { numer: q.numer().to_signed_bytes_le(), denom: q.denom().to_signed_bytes_le() }
}

/// The `*` of `num::BigRational`: the product.
#[verifier::external_body]
pub(crate) fn rational_mul(a: &Rational, b: &Rational) -> (r: Rational)
    ensures
        r@ == a@ * b@,
{
    let x = BigRational::new(
        BigInt::from_signed_bytes_le(&a.numer),
        BigInt::from_signed_bytes_le(&a.denom),
    );
    let y = BigRational::new(
        BigInt::from_signed_bytes_le(&b.numer),
        BigInt::from_signed_bytes_le(&b.denom),
    );
    let q = x * y;
    Rational { numer: q.numer().to_signed_bytes_le(), denom: q.denom().to_signed_bytes_le() }
}

/// The `Display` of `num::BigInt`: the integer in decimal.
#[verifier::external_body]
fn integer_text(bytes: &Vec<u8>) -> (s: String)
    ensures
        s@ == signed_decimal(signed_le(bytes@)),
{
    BigInt::from_signed_bytes_le(bytes).to_string()
}

/// The numerator and denominator of `x` in lowest terms, where `x` is rational.
pub open spec fn lowest_terms(x: real) -> (int, int) {
    choose|n: int, d: int| #[trigger] lowest(n, d) && x == n as real / d as real
}

/// Where `u * n + v * d` is 1, a divisor `d` of `n * e` divides `e`.
proof fn lemma_coprime_divides(n: int, d: int, e: int, k: int, u: int, v: int)
    by (nonlinear_arith)
    requires
        u * n + v * d == 1,
        n * e == d * k,
    ensures
        e == d * (u * k + v * e),
{
}

/// A rational number has one fraction in lowest terms.
pub proof fn lemma_lowest_unique(n1: int, d1: int, n2: int, d2: int)
    requires
        lowest(n1, d1),
        lowest(n2, d2),
        n1 as real / d1 as real == n2 as real / d2 as real,
    ensures
        n1 == n2,
        d1 == d2,
{
    let (a, b, c, d) = (n1 as real, d1 as real, n2 as real, d2 as real);
    assert(a * d == c * b) by (nonlinear_arith)
        requires
            a / b == c / d,
            b > 0real,
            d > 0real,
    ;
    assert(n1 * d2 == n2 * d1) by (nonlinear_arith)
        requires
            n1 as real * d2 as real == n2 as real * d1 as real,
    ;
    let (u1, v1) = choose|u: int, v: int| #[trigger] (u * n1) + #[trigger] (v * d1) == 1;
    let (u2, v2) = choose|u: int, v: int| #[trigger] (u * n2) + #[trigger] (v * d2) == 1;
    assert(n1 * d2 == d1 * n2) by (nonlinear_arith)
        requires
            n1 * d2 == n2 * d1,
    ;
    assert(n2 * d1 == d2 * n1) by (nonlinear_arith)
        requires
            n1 * d2 == n2 * d1,
    ;
    lemma_coprime_divides(n1, d1, d2, n2, u1, v1);
    lemma_coprime_divides(n2, d2, d1, n1, u2, v2);
    let p = u1 * n2 + v1 * d2;
    let q = u2 * n1 + v2 * d1;
    assert(d1 == d2) by (nonlinear_arith)
        requires
            d1 > 0,
            d2 > 0,
            d2 == d1 * p,
            d1 == d2 * q,
    {
        assert(p >= 1);
        assert(q >= 1);
    }
    assert(n1 == n2) by (nonlinear_arith)
        requires
            n1 * d2 == n2 * d1,
            d1 == d2,
            d1 > 0,
    ;
}

impl Rational {
    /// The fields are the lowest terms of the number they stand for.
    proof fn lemma_lowest_terms(self)
        requires
            self.reduced(),
        ensures
            lowest_terms(self@) == (self.numer(), self.denom()),
    {
        let x = self@;
        assert(lowest(self.numer(), self.denom()) && x == self.numer() as real
            / self.denom() as real);
        let (n, d) = lowest_terms(x);
        lemma_lowest_unique(n, d, self.numer(), self.denom());
    }

    /// The numerator in decimal.
    pub fn numer_text(&self) -> (s: String)
        ensures
            s@ == signed_decimal(lowest_terms(self@).0),
    {
        proof {
            use_type_invariant(self);
            self.lemma_lowest_terms();
        }
        integer_text(&self.numer)
    }

    /// The denominator in decimal.
    pub fn denom_text(&self) -> (s: String)
        ensures
            s@ == signed_decimal(lowest_terms(self@).1),
            lowest_terms(self@).1 > 0,
    {
        proof {
            use_type_invariant(self);
            self.lemma_lowest_terms();
        }
        integer_text(&self.denom)
    }
}

} // verus!
