//! Exact rational numbers with 64-bit numerator and denominator.
//!
//! A [`Num`] is a fraction in lowest terms with a positive denominator. Its
//! view is the real number it stands for, and every operation is specified
//! over that view: an operation succeeds exactly when its exact result can
//! be written with a 64-bit numerator and denominator.

use crate::number_theory::{
    coprime, gcd, lemma_gcd_symmetric, lemma_lowest_terms_minimal, lemma_lowest_terms_unique,
    magnitude,
};
use vstd::prelude::*;

verus! {

/// The real number `n / d`.
pub open spec fn frac(n: int, d: int) -> real {
    n as real / d as real
}

/// The real number `v` is a fraction of two 64-bit integers.
pub open spec fn representable(v: real) -> bool {
    exists|n: int, d: int|
        i64::MIN <= n <= i64::MAX && 0 < d <= i64::MAX && #[trigger] frac(n, d) == v
}

/// One half, as a real number.
pub open spec fn half() -> real {
    frac(1, 2)
}

/// The integer nearest to `v`, half-way cases away from zero.
pub open spec fn round_half_away(v: real) -> int {
    if v >= 0real {
        (v + half()).floor()
    } else {
        -((-v + half()).floor())
    }
}

/// The integer part of `v`, rounding towards zero.
pub open spec fn trunc(v: real) -> int {
    if v >= 0real {
        v.floor()
    } else {
        -((-v).floor())
    }
}

/// The least integer that is not below `v`.
pub open spec fn ceil(v: real) -> int {
    -((-v).floor())
}

/// The sum of two fractions, over the product of their denominators.
pub proof fn lemma_frac_add(a: int, b: int, c: int, d: int)
    requires
        b != 0,
        d != 0,
    ensures
        frac(a, b) + frac(c, d) == frac(a * d + c * b, b * d),
{
    assert(frac(a, b) + frac(c, d) == frac(a * d + c * b, b * d)) by (nonlinear_arith)
        requires
            b != 0,
            d != 0,
    ;
}

/// The difference of two fractions, over the product of their
/// denominators.
pub proof fn lemma_frac_sub(a: int, b: int, c: int, d: int)
    requires
        b != 0,
        d != 0,
    ensures
        frac(a, b) - frac(c, d) == frac(a * d - c * b, b * d),
{
    assert(frac(a, b) - frac(c, d) == frac(a * d - c * b, b * d)) by (nonlinear_arith)
        requires
            b != 0,
            d != 0,
    ;
}

/// The product of two fractions.
pub proof fn lemma_frac_mul(a: int, b: int, c: int, d: int)
    requires
        b != 0,
        d != 0,
    ensures
        frac(a, b) * frac(c, d) == frac(a * c, b * d),
{
    assert(frac(a, b) * frac(c, d) == frac(a * c, b * d)) by (nonlinear_arith)
        requires
            b != 0,
            d != 0,
    ;
}

/// The quotient of two fractions.
pub proof fn lemma_frac_div(a: int, b: int, c: int, d: int)
    requires
        b != 0,
        c != 0,
        d != 0,
    ensures
        frac(a, b) / frac(c, d) == frac(a * d, b * c),
{
    assert(frac(a, b) / frac(c, d) == frac(a * d, b * c)) by (nonlinear_arith)
        requires
            b != 0,
            c != 0,
            d != 0,
    ;
}

/// Two fractions are equal exactly if their cross products are.
pub proof fn lemma_frac_eq(a: int, b: int, c: int, d: int)
    requires
        b != 0,
        d != 0,
    ensures
        frac(a, b) == frac(c, d) <==> a * d == c * b,
{
    assert(frac(a, b) == frac(c, d) <==> a * d == c * b) by (nonlinear_arith)
        requires
            b != 0,
            d != 0,
    ;
}

/// Fractions with positive denominators are ordered as their cross
/// products are.
pub proof fn lemma_frac_lt(a: int, b: int, c: int, d: int)
    requires
        b > 0,
        d > 0,
    ensures
        frac(a, b) < frac(c, d) <==> a * d < c * b,
{
    assert(frac(a, b) < frac(c, d) <==> a * d < c * b) by (nonlinear_arith)
        requires
            b > 0,
            d > 0,
    ;
}

/// The floor of a fraction with a positive denominator is the quotient of
/// the division with a remainder that is not negative.
pub proof fn lemma_frac_floor(a: int, b: int)
    requires
        b > 0,
    ensures
        frac(a, b).floor() == a / b,
{
    assert(frac(a, b).floor() == a / b) by (nonlinear_arith)
        requires
            b > 0,
    ;
}

/// A fraction with the denominator 1 is its numerator.
pub proof fn lemma_frac_integer(a: int)
    ensures
        frac(a, 1) == a as real,
        frac(a, 1).floor() == a,
        (a as real).floor() == a,
{
    assert(frac(a, 1) == a as real) by (nonlinear_arith);
}

/// The negative of a fraction has the negative numerator.
pub proof fn lemma_frac_neg(a: int, b: int)
    requires
        b != 0,
    ensures
        -frac(a, b) == frac(-a, b),
{
    assert(-frac(a, b) == frac(-a, b)) by (nonlinear_arith)
        requires
            b != 0,
    ;
}

/// Every integer is coprime to 1.
pub proof fn lemma_coprime_one(k: int)
    ensures
        coprime(k, 1),
{
    reveal_with_fuel(gcd, 2);
    assert(magnitude(k) % 1 == 0);
    lemma_gcd_symmetric(magnitude(k), 1);
}

/// An exact rational number: `numer / denom` in lowest terms, `denom > 0`.
#[derive(Clone, Copy, Debug, PartialEq, Eq, Structural)]
pub struct Num {
    pub numer: i64,
    pub denom: i64,
}

impl View for Num {
    type V = real;

    open spec fn view(&self) -> real {
        frac(self.numer as int, self.denom as int)
    }
}

/// The fraction `n / d` in lowest terms.
///
/// This is `num_rational::Ratio::new` on 128-bit integers, which divides
/// both parts by their greatest common divisor and makes the denominator
/// positive. The contract is taken on trust: the result has a positive
/// denominator, is in lowest terms and has the value of `n / d`.
#[verifier::external_body]
fn lowest_terms(n: i128, d: i128) -> (r: (i128, i128))
    requires
        d != 0,
        n > i128::MIN,
        d > i128::MIN,
    ensures
        r.1 > 0,
        coprime(r.0 as int, r.1 as int),
        r.0 * d == n * r.1,
{
    let q = num_rational::Ratio::new(n, d);
    (*q.numer(), *q.denom())
}

proof fn lemma_product_bound(x: int, y: int)
    requires
        -0x8000_0000_0000_0000 <= x <= 0x8000_0000_0000_0000,
        -0x8000_0000_0000_0000 <= y <= 0x8000_0000_0000_0000,
    ensures
        -0x4000_0000_0000_0000_0000_0000_0000_0000 <= x * y
            <= 0x4000_0000_0000_0000_0000_0000_0000_0000,
        -0x8000_0000_0000_0000 < y < 0x8000_0000_0000_0000
            ==> -0x3fff_ffff_ffff_ffff_8000_0000_0000_0000 <= x * y
            <= 0x3fff_ffff_ffff_ffff_8000_0000_0000_0000,
{
    assert(-0x4000_0000_0000_0000_0000_0000_0000_0000 <= x * y
        <= 0x4000_0000_0000_0000_0000_0000_0000_0000) by (nonlinear_arith)
        requires
            -0x8000_0000_0000_0000 <= x <= 0x8000_0000_0000_0000,
            -0x8000_0000_0000_0000 <= y <= 0x8000_0000_0000_0000,
    ;
    if -0x8000_0000_0000_0000 < y < 0x8000_0000_0000_0000 {
        assert(-0x3fff_ffff_ffff_ffff_8000_0000_0000_0000 <= x * y
            <= 0x3fff_ffff_ffff_ffff_8000_0000_0000_0000) by (nonlinear_arith)
            requires
                -0x8000_0000_0000_0000 <= x <= 0x8000_0000_0000_0000,
                -0x7fff_ffff_ffff_ffff <= y <= 0x7fff_ffff_ffff_ffff,
        ;
    }
}

/// The product of two 64-bit integers, which always fits in 128 bits.
pub(crate) fn wide_mul(x: i64, y: i64) -> (p: i128)
    ensures
        p == x * y,
        -0x4000_0000_0000_0000_0000_0000_0000_0000 <= p
            <= 0x4000_0000_0000_0000_0000_0000_0000_0000,
        y > i64::MIN ==> -0x3fff_ffff_ffff_ffff_8000_0000_0000_0000 <= p
            <= 0x3fff_ffff_ffff_ffff_8000_0000_0000_0000,
{
    proof {
        lemma_product_bound(x as int, y as int);
    }
    (x as i128) * (y as i128)
}

/// The 64-bit fraction of the value `n / d`, if there is one.
pub(crate) fn narrow(n: i128, d: i128) -> (r: Option<Num>)
    requires
        d != 0,
        n > i128::MIN,
        d > i128::MIN,
    ensures
        r is Some <==> representable(frac(n as int, d as int)),
        r matches Some(q) ==> q.wf() && q@ == frac(n as int, d as int),
{
    let (rn, rd) = lowest_terms(n, d);
    proof {
        lemma_frac_eq(rn as int, rd as int, n as int, d as int);
    }
    if rn >= i64::MIN as i128 && rn <= i64::MAX as i128 && rd <= i64::MAX as i128 {
        let q = Num { numer: rn as i64, denom: rd as i64 };
        assert(q@ == frac(rn as int, rd as int));
        assert(representable(frac(n as int, d as int)));
        Some(q)
    } else {
        proof {
            let v = frac(n as int, d as int);
            if representable(v) {
                let (p, q) = choose|p: int, q: int|
                    i64::MIN <= p <= i64::MAX && 0 < q <= i64::MAX && #[trigger] frac(p, q) == v;
                lemma_frac_eq(p, q, rn as int, rd as int);
                let k = lemma_lowest_terms_minimal(rn as int, rd as int, p, q);
                assert(rd <= q && i64::MIN <= rn <= i64::MAX) by (nonlinear_arith)
                    requires
                        k >= 1,
                        rd > 0,
                        q == k * rd,
                        p == k * rn,
                        i64::MIN <= p <= i64::MAX,
                ;
            }
        }
        None
    }
}

impl Num {
    /// The fraction is in lowest terms with a positive denominator.
    pub open spec fn wf(&self) -> bool {
        self.denom > 0 && coprime(self.numer as int, self.denom as int)
    }

    /// Two well-formed numbers of the same value are the same number.
    pub proof fn lemma_view_injective(a: Num, b: Num)
        requires
            a.wf(),
            b.wf(),
            a@ == b@,
        ensures
            a == b,
    {
        lemma_frac_eq(b.numer as int, b.denom as int, a.numer as int, a.denom as int);
        lemma_lowest_terms_unique(a.numer as int, a.denom as int, b.numer as int, b.denom as int);
    }

    /// Every well-formed number is representable.
    pub proof fn lemma_representable(self)
        requires
            self.wf(),
        ensures
            representable(self@),
    {
        assert(frac(self.numer as int, self.denom as int) == self@);
    }

    /// The fraction `numer / denom`, reduced to lowest terms. Its value must
    /// have a 64-bit fraction, as that of every fraction has whose parts
    /// are not the least 64-bit integer.
    pub fn new(numer: i64, denom: i64) -> (r: Num)
        requires
            denom != 0,
            (numer > i64::MIN && denom > i64::MIN) || representable(
                frac(numer as int, denom as int),
            ),
        ensures
            r.wf(),
            r@ == frac(numer as int, denom as int),
    {
        proof {
            if numer > i64::MIN && denom > i64::MIN {
                if denom > 0 {
                    assert(frac(numer as int, denom as int) == frac(numer as int, denom as int));
                } else {
                    lemma_frac_eq(-numer, -denom, numer as int, denom as int);
                    assert((-numer) * denom == numer * (-denom)) by (nonlinear_arith);
                    assert(frac(-numer, -denom) == frac(numer as int, denom as int));
                }
            }
        }
        narrow(numer as i128, denom as i128).unwrap()
    }

    /// Whether the fraction is in lowest terms with a positive denominator.
    pub fn is_wf(&self) -> (b: bool)
        ensures
            b == self.wf(),
    {
        if self.denom <= 0 {
            return false;
        }
        let (n, d) = lowest_terms(self.numer as i128, self.denom as i128);
        proof {
            if self.wf() {
                assert(n * self.denom == self.numer * d);
                lemma_lowest_terms_unique(
                    self.numer as int,
                    self.denom as int,
                    n as int,
                    d as int,
                );
            }
        }
        n == self.numer as i128 && d == self.denom as i128
    }

    /// The fraction `numer / denom` in lowest terms, if `denom` is not zero
    /// and the value has a 64-bit fraction.
    pub fn checked_new(numer: i64, denom: i64) -> (r: Option<Num>)
        ensures
            r is Some <==> denom != 0 && representable(frac(numer as int, denom as int)),
            r matches Some(q) ==> q.wf() && q@ == frac(numer as int, denom as int),
    {
        if denom == 0 {
            None
        } else {
            narrow(numer as i128, denom as i128)
        }
    }

    /// The integer `k` as a rational number.
    pub fn from_integer(k: i64) -> (r: Num)
        ensures
            r.wf(),
            r@ == k as real,
            r.numer == k,
            r.denom == 1,
    {
        proof {
            lemma_coprime_one(k as int);
            lemma_frac_integer(k as int);
        }
        Num { numer: k, denom: 1 }
    }

    /// The sum, if it has a 64-bit fraction.
    pub fn checked_add(&self, other: &Num) -> (r: Option<Num>)
        requires
            self.wf(),
            other.wf(),
        ensures
            r is Some <==> representable(self@ + other@),
            r matches Some(q) ==> q.wf() && q@ == self@ + other@,
    {
        let n = wide_mul(self.numer, other.denom) + wide_mul(other.numer, self.denom);
        let d = wide_mul(self.denom, other.denom);
        proof {
            lemma_frac_add(
                self.numer as int,
                self.denom as int,
                other.numer as int,
                other.denom as int,
            );
            assert(d != 0) by (nonlinear_arith)
                requires
                    d == self.denom * other.denom,
                    self.denom > 0,
                    other.denom > 0,
            ;
        }
        narrow(n, d)
    }

    /// The difference, if it has a 64-bit fraction.
    pub fn checked_sub(&self, other: &Num) -> (r: Option<Num>)
        requires
            self.wf(),
            other.wf(),
        ensures
            r is Some <==> representable(self@ - other@),
            r matches Some(q) ==> q.wf() && q@ == self@ - other@,
    {
        let n = wide_mul(self.numer, other.denom) - wide_mul(other.numer, self.denom);
        let d = wide_mul(self.denom, other.denom);
        proof {
            lemma_frac_sub(
                self.numer as int,
                self.denom as int,
                other.numer as int,
                other.denom as int,
            );
            assert(d != 0) by (nonlinear_arith)
                requires
                    d == self.denom * other.denom,
                    self.denom > 0,
                    other.denom > 0,
            ;
        }
        narrow(n, d)
    }

    /// The product, if it has a 64-bit fraction.
    pub fn checked_mul(&self, other: &Num) -> (r: Option<Num>)
        requires
            self.wf(),
            other.wf(),
        ensures
            r is Some <==> representable(self@ * other@),
            r matches Some(q) ==> q.wf() && q@ == self@ * other@,
    {
        let n = wide_mul(self.numer, other.numer);
        let d = wide_mul(self.denom, other.denom);
        proof {
            lemma_frac_mul(
                self.numer as int,
                self.denom as int,
                other.numer as int,
                other.denom as int,
            );
            assert(d != 0) by (nonlinear_arith)
                requires
                    d == self.denom * other.denom,
                    self.denom > 0,
                    other.denom > 0,
            ;
        }
        narrow(n, d)
    }

    /// The quotient, if the divisor is not zero and the quotient has a
    /// 64-bit fraction.
    pub fn checked_div(&self, other: &Num) -> (r: Option<Num>)
        requires
            self.wf(),
            other.wf(),
        ensures
            r is Some <==> other@ != 0real && representable(self@ / other@),
            r matches Some(q) ==> q.wf() && q@ == self@ / other@,
    {
        proof {
            lemma_frac_integer(0);
            lemma_frac_eq(other.numer as int, other.denom as int, 0, 1);
        }
        if other.numer == 0 {
            return None;
        }
        let n = wide_mul(self.numer, other.denom);
        let d = wide_mul(self.denom, other.numer);
        proof {
            lemma_frac_div(
                self.numer as int,
                self.denom as int,
                other.numer as int,
                other.denom as int,
            );
            assert(d != 0) by (nonlinear_arith)
                requires
                    d == self.denom * other.numer,
                    self.denom > 0,
                    other.numer != 0,
            ;
        }
        narrow(n, d)
    }

    /// `self < other`.
    pub fn lt(&self, other: &Num) -> (b: bool)
        requires
            self.wf(),
            other.wf(),
        ensures
            b == (self@ < other@),
    {
        proof {
            lemma_frac_lt(
                self.numer as int,
                self.denom as int,
                other.numer as int,
                other.denom as int,
            );
        }
        wide_mul(self.numer, other.denom) < wide_mul(other.numer, self.denom)
    }

    /// `self <= other`.
    pub fn le(&self, other: &Num) -> (b: bool)
        requires
            self.wf(),
            other.wf(),
        ensures
            b == (self@ <= other@),
    {
        !other.lt(self)
    }

    /// `self == other`, as numbers.
    pub fn equals(&self, other: &Num) -> (b: bool)
        requires
            self.wf(),
            other.wf(),
        ensures
            b == (self@ == other@),
            b == (*self == *other),
    {
        proof {
            if self@ == other@ {
                Self::lemma_view_injective(*self, *other);
            }
        }
        self.numer == other.numer && self.denom == other.denom
    }

    /// The smaller of the two numbers.
    pub fn min(self, other: Num) -> (r: Num)
        requires
            self.wf(),
            other.wf(),
        ensures
            r == if other@ < self@ { other } else { self },
    {
        if other.lt(&self) {
            other
        } else {
            self
        }
    }

    /// The larger of the two numbers.
    pub fn max(self, other: Num) -> (r: Num)
        requires
            self.wf(),
            other.wf(),
        ensures
            r == if self@ < other@ { other } else { self },
    {
        if self.lt(&other) {
            other
        } else {
            self
        }
    }

    /// Whether the number is an integer.
    pub fn is_integer(&self) -> (b: bool)
        requires
            self.wf(),
        ensures
            b == (self@ == self@.floor() as real),
            b == (self.denom == 1),
    {
        proof {
            let f = self@.floor();
            lemma_frac_integer(f);
            lemma_frac_integer(self.numer as int);
            if self@ == f as real {
                lemma_frac_eq(f, 1, self.numer as int, self.denom as int);
                lemma_coprime_one(f);
                lemma_lowest_terms_unique(f, 1, self.numer as int, self.denom as int);
            }
        }
        self.denom == 1
    }

    /// The greatest integer that is not above the number.
    pub fn floor(&self) -> (k: i64)
        requires
            self.wf(),
        ensures
            k == self@.floor(),
    {
        proof {
            lemma_frac_floor(self.numer as int, self.denom as int);
            assert(i64::MIN <= self.numer as int / self.denom as int <= i64::MAX)
                by (nonlinear_arith)
                requires
                    self.denom >= 1,
                    i64::MIN <= self.numer <= i64::MAX,
            ;
        }
        self.numer.checked_div_euclid(self.denom).unwrap()
    }

    /// The least integer that is not below the number.
    pub fn ceil(&self) -> (k: i64)
        requires
            self.wf(),
        ensures
            k == ceil(self@),
    {
        let n: i128 = -(self.numer as i128);
        let d: i128 = self.denom as i128;
        proof {
            lemma_frac_neg(self.numer as int, self.denom as int);
            lemma_frac_floor(n as int, d as int);
            assert(-(i64::MAX as int) <= n as int / d as int <= -(i64::MIN as int))
                by (nonlinear_arith)
                requires
                    d >= 1,
                    -(i64::MAX as int) <= n <= -(i64::MIN as int),
            ;
        }
        let f: i128 = n.checked_div_euclid(d).unwrap();
        (-f) as i64
    }

    /// The integer part, rounding towards zero.
    pub fn to_integer(&self) -> (k: i64)
        requires
            self.wf(),
        ensures
            k == trunc(self@),
    {
        proof {
            lemma_frac_integer(0);
            lemma_frac_lt(self.numer as int, self.denom as int, 0, 1);
        }
        if self.numer >= 0 {
            self.floor()
        } else {
            self.ceil()
        }
    }

    /// The nearest integer, half-way cases away from zero.
    pub fn round(&self) -> (k: i64)
        requires
            self.wf(),
        ensures
            k == round_half_away(self@),
    {
        let n: i128 = self.numer as i128;
        let d: i128 = self.denom as i128;
        proof {
            lemma_frac_integer(0);
            lemma_frac_lt(self.numer as int, self.denom as int, 0, 1);
        }
        if n >= 0 {
            proof {
                lemma_frac_add(n as int, d as int, 1, 2);
                lemma_frac_floor(n * 2 + d, d * 2);
                assert(0 <= (n * 2 + d) / (d * 2) <= n) by (nonlinear_arith)
                    requires
                        d >= 1,
                        n >= 0,
                ;
            }
            let q: i128 = (2 * n + d).checked_div_euclid(2 * d).unwrap();
            q as i64
        } else {
            proof {
                lemma_frac_neg(n as int, d as int);
                lemma_frac_add(-n as int, d as int, 1, 2);
                lemma_frac_floor((-n) * 2 + d, d * 2);
                assert(0 <= ((-n) * 2 + d) / (d * 2) <= -n) by (nonlinear_arith)
                    requires
                        d >= 1,
                        n < 0,
                ;
            }
            let q: i128 = (2 * (-n) + d).checked_div_euclid(2 * d).unwrap();
            (-q) as i64
        }
    }
}

} // verus!
