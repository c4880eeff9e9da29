//! Greatest common divisors and fractions in lowest terms.

use vstd::prelude::*;

verus! {

/// The absolute value of an integer.
pub open spec fn magnitude(x: int) -> nat {
    if x < 0 {
        (-x) as nat
    } else {
        x as nat
    }
}

/// The greatest common divisor of `a` and `b`; `gcd(0, 0)` is 0.
///
/// [`lemma_gcd_divides`] and [`lemma_gcd_greatest`] show that this is the
/// common divisor that every other common divisor divides.
pub open spec fn gcd(a: nat, b: nat) -> nat
    decreases b,
{
    if b == 0 {
        a
    } else {
        gcd(b, a % b)
    }
}

/// `a` and `b` have no common divisor but 1.
pub open spec fn coprime(a: int, b: int) -> bool {
    gcd(magnitude(a), magnitude(b)) == 1
}

proof fn lemma_div_mod_split(a: nat, b: nat)
    requires
        b > 0,
    ensures
        a == b * (a / b) + a % b,
        0 <= a % b < b,
{
    assert(a == b * (a / b) + a % b && 0 <= a % b < b) by (nonlinear_arith)
        requires
            b > 0,
            a >= 0,
    ;
}

/// The gcd divides both arguments: the result holds the two quotients.
pub proof fn lemma_gcd_divides(a: nat, b: nat) -> (q: (nat, nat))
    ensures
        a == gcd(a, b) * q.0,
        b == gcd(a, b) * q.1,
    decreases b,
{
    if b == 0 {
        assert(a == a * 1) by (nonlinear_arith);
        assert(0 == a * 0) by (nonlinear_arith);
        (1, 0)
    } else {
        let r = lemma_gcd_divides(b, a % b);
        let g = gcd(a, b);
        lemma_div_mod_split(a, b);
        let k = a / b;
        assert(a == g * (r.0 * k + r.1)) by (nonlinear_arith)
            requires
                a == b * k + a % b,
                b == g * r.0,
                a % b == g * r.1,
        ;
        (r.0 * k + r.1, r.0)
    }
}

/// Bezout's identity: the gcd is an integer combination of its arguments.
pub proof fn lemma_bezout(a: nat, b: nat) -> (c: (int, int))
    ensures
        a * c.0 + b * c.1 == gcd(a, b),
    decreases b,
{
    if b == 0 {
        assert(a * 1 + 0 * 0 == a) by (nonlinear_arith);
        (1, 0)
    } else {
        let r = lemma_bezout(b, a % b);
        let g = gcd(a, b);
        lemma_div_mod_split(a, b);
        let k = (a / b) as int;
        let m = (a % b) as int;
        assert(a * r.1 + b * (r.0 - k * r.1) == g) by (nonlinear_arith)
            requires
                a == b * k + m,
                b * r.0 + m * r.1 == g,
        ;
        (r.1, r.0 - k * r.1)
    }
}

/// Every common divisor `d` of `a` and `b` divides their gcd.
pub proof fn lemma_gcd_greatest(a: nat, b: nat, d: int, p: int, q: int) -> (k: int)
    requires
        a == d * p,
        b == d * q,
    ensures
        gcd(a, b) == d * k,
{
    let c = lemma_bezout(a, b);
    let g = gcd(a, b);
    assert(g == d * (p * c.0 + q * c.1)) by (nonlinear_arith)
        requires
            a == d * p,
            b == d * q,
            a * c.0 + b * c.1 == g,
    ;
    p * c.0 + q * c.1
}

/// Two naturals that divide each other are equal.
proof fn lemma_mutual_divisors(x: nat, y: nat, k: int, m: int)
    requires
        x == y * k,
        y == x * m,
    ensures
        x == y,
{
    assert(x == y) by (nonlinear_arith)
        requires
            x == y * k,
            y == x * m,
            x >= 0,
            y >= 0,
    ;
}

/// The gcd does not depend on the order of its arguments.
pub proof fn lemma_gcd_symmetric(a: nat, b: nat)
    ensures
        gcd(a, b) == gcd(b, a),
{
    let q1 = lemma_gcd_divides(a, b);
    let q2 = lemma_gcd_divides(b, a);
    let k = lemma_gcd_greatest(a, b, gcd(b, a) as int, q2.1 as int, q2.0 as int);
    let m = lemma_gcd_greatest(b, a, gcd(a, b) as int, q1.1 as int, q1.0 as int);
    lemma_mutual_divisors(gcd(a, b), gcd(b, a), k, m);
}

/// Euclid's lemma: if `a` is coprime to `b` and divides `b * c`, then it
/// divides `c`. The result is the quotient.
pub proof fn lemma_euclid(a: nat, b: nat, c: int, k: int) -> (m: int)
    requires
        gcd(a, b) == 1,
        a * k == b * c,
    ensures
        c == a * m,
{
    let z = lemma_bezout(a, b);
    assert(c == a * (c * z.0 + k * z.1)) by (nonlinear_arith)
        requires
            a * z.0 + b * z.1 == 1,
            a * k == b * c,
    ;
    c * z.0 + k * z.1
}

/// A fraction in lowest terms has the smallest numerator and denominator of
/// all fractions of its value: any other `n / d` of the same value is
/// `(k * n0) / (k * d0)` for some `k >= 1`.
pub proof fn lemma_lowest_terms_minimal(n0: int, d0: int, n: int, d: int) -> (k: int)
    requires
        d0 > 0,
        d > 0,
        coprime(n0, d0),
        n * d0 == n0 * d,
    ensures
        k >= 1,
        d == k * d0,
        n == k * n0,
{
    lemma_gcd_symmetric(magnitude(n0), magnitude(d0));
    let k = if n0 >= 0 {
        assert(d0 * n == n0 * d) by (nonlinear_arith)
            requires
                n * d0 == n0 * d,
        ;
        lemma_euclid(d0 as nat, magnitude(n0), d, n)
    } else {
        assert(d0 * (-n) == (-n0) * d) by (nonlinear_arith)
            requires
                n * d0 == n0 * d,
        ;
        lemma_euclid(d0 as nat, magnitude(n0), d, -n)
    };
    assert(k >= 1 && n == k * n0) by (nonlinear_arith)
        requires
            d0 > 0,
            d > 0,
            d == d0 * k,
            n * d0 == n0 * d,
    ;
    assert(d == k * d0) by (nonlinear_arith)
        requires
            d == d0 * k,
    ;
    k
}

/// Two fractions in lowest terms of the same value are the same fraction.
pub proof fn lemma_lowest_terms_unique(n0: int, d0: int, n1: int, d1: int)
    requires
        d0 > 0,
        d1 > 0,
        coprime(n0, d0),
        coprime(n1, d1),
        n1 * d0 == n0 * d1,
    ensures
        n0 == n1,
        d0 == d1,
{
    let k = lemma_lowest_terms_minimal(n0, d0, n1, d1);
    let m = lemma_lowest_terms_minimal(n1, d1, n0, d0);
    assert(k == 1) by (nonlinear_arith)
        requires
            k >= 1,
            m >= 1,
            d0 > 0,
            d1 == k * d0,
            d0 == m * d1,
    ;
    assert(d1 == d0 && n1 == n0) by (nonlinear_arith)
        requires
            k == 1,
            d1 == k * d0,
            n1 == k * n0,
    ;
}

/// The greatest common divisor of two 64-bit integers.
///
/// This is `num_integer::gcd`, which returns the non-negative greatest
/// common divisor of its arguments. The contract is taken on trust. The
/// least 64-bit integer is left out: its absolute value has no 64-bit form.
#[verifier::external_body]
pub(crate) fn greatest_common_divisor(a: i64, b: i64) -> (g: i64)
    requires
        a > i64::MIN,
        b > i64::MIN,
    ensures
        g == gcd(magnitude(a as int), magnitude(b as int)),
{
    num_integer::gcd(a, b)
}

} // verus!
