//! The fractions of bounded denominator inside an interval.

use crate::common::table_wf;
use crate::number_theory::{coprime, greatest_common_divisor, lemma_gcd_symmetric, magnitude};
use crate::rational::{
    ceil, frac, lemma_frac_floor, lemma_frac_integer, lemma_frac_mul, lemma_frac_neg, Num, wide_mul,
};
use crate::sorting::sort_by_value;
use vstd::prelude::*;

verus! {

/// `q * n` lies within the 64-bit integers.
pub open spec fn scaled_in_range(q: real, n: int) -> bool {
    i64::MIN as real <= q * n as real && q * n as real <= i64::MAX as real
}

/// `q` is a fraction in lowest terms with a denominator from 1 to `n` that
/// lies strictly between `l` and `r`.
pub open spec fn is_inner_fraction(q: real, n: int, l: real, r: real) -> bool {
    l < q < r && exists|i: int, j: int|
        1 <= i <= n && coprime(j, i) && #[trigger] frac(j, i) == q
}

/// The sequence holds the fraction `j / i` as it is written.
pub open spec fn holds(s: Seq<Num>, j: int, i: int) -> bool {
    exists|k: int| 0 <= k < s.len() && (#[trigger] s[k]).numer == j && s[k].denom == i
}

/// `s` runs from `l` to `r` through the inner fractions, each once, in
/// ascending order.
pub open spec fn is_segmentation(s: Seq<real>, n: int, l: real, r: real) -> bool {
    &&& s.len() >= 2
    &&& s[0] == l
    &&& s[s.len() - 1] == r
    &&& forall|a: int, b: int| 0 <= a < b < s.len() && l < r ==> #[trigger] s[a] < #[trigger] s[b]
    &&& forall|k: int| 1 <= k < s.len() - 1 ==> is_inner_fraction(#[trigger] s[k], n, l, r)
    &&& forall|q: real| #[trigger]
        is_inner_fraction(q, n, l, r) ==> exists|k: int|
            1 <= k < s.len() - 1 && #[trigger] s[k] == q
}

/// The ends of the segments on which the frames shown do not depend on the
/// rate: `l`, the inner fractions in ascending order, and `r`.
pub open spec fn segmentation(n: int, l: real, r: real) -> Seq<real> {
    choose|s: Seq<real>| is_segmentation(s, n, l, r)
}

/// The values of the numbers, in order.
pub open spec fn values(s: Seq<Num>) -> Seq<real> {
    Seq::new(s.len(), |i: int| s[i]@)
}

proof fn lemma_segmentation_prefix(a: Seq<real>, b: Seq<real>, n: int, l: real, r: real, i: int)
    requires
        is_segmentation(a, n, l, r),
        is_segmentation(b, n, l, r),
        l < r,
        0 <= i < a.len(),
    ensures
        i < b.len(),
        a[i] == b[i],
        (i == a.len() - 1) == (i == b.len() - 1),
    decreases i,
{
    if i > 0 {
        assert forall|j: int| 0 <= j < i implies j < b.len() && a[j] == b[j] && ((j == a.len() - 1)
            == (j == b.len() - 1)) by {
            lemma_segmentation_prefix(a, b, n, l, r, j);
        }
        assert(i < b.len());
        if i < a.len() - 1 {
            assert(is_inner_fraction(a[i], n, l, r));
            let j = choose|j: int| 1 <= j < b.len() - 1 && #[trigger] b[j] == a[i];
            if j < i {
                assert(a[j] < a[i]);
            } else if j > i {
                assert(b[i] < b[j]);
                assert(is_inner_fraction(b[i], n, l, r));
                let m = choose|m: int| 1 <= m < a.len() - 1 && #[trigger] a[m] == b[i];
                if m < i {
                    assert(b[m] < b[i]);
                } else if m > i {
                    assert(a[i] < a[m]);
                }
            }
        } else {
            if i < b.len() - 1 {
                assert(is_inner_fraction(b[i], n, l, r));
                let m = choose|m: int| 1 <= m < a.len() - 1 && #[trigger] a[m] == b[i];
                assert(b[m] < b[i]);
            }
        }
    }
}

/// There is one segmentation only.
pub proof fn lemma_segmentation_unique(a: Seq<real>, b: Seq<real>, n: int, l: real, r: real)
    requires
        is_segmentation(a, n, l, r),
        is_segmentation(b, n, l, r),
        l <= r,
    ensures
        a == b,
{
    if l < r {
        lemma_segmentation_prefix(a, b, n, l, r, a.len() - 1);
        assert forall|i: int| 0 <= i < a.len() implies a[i] == b[i] by {
            lemma_segmentation_prefix(a, b, n, l, r, i);
        }
        assert(a =~= b);
    } else {
        if a.len() > 2 {
            assert(is_inner_fraction(a[1], n, l, r));
        }
        if b.len() > 2 {
            assert(is_inner_fraction(b[1], n, l, r));
        }
        assert(a =~= b);
    }
}

/// The numerators `j` for which `j / i` lies strictly between `l` and `r`
/// are those from `floor(l * i) + 1` to `ceil(r * i) - 1`.
pub proof fn lemma_numerator_range(l: real, r: real, i: int, j: int)
    requires
        i >= 1,
    ensures
        l < frac(j, i) <==> (l * i as real).floor() + 1 <= j,
        frac(j, i) < r <==> j <= ceil(r * i as real) - 1,
{
    let x = l * i as real;
    let y = r * i as real;
    assert(l < frac(j, i) <==> x < j as real) by (nonlinear_arith)
        requires
            i >= 1,
            x == l * i as real,
    ;
    assert(frac(j, i) < r <==> (j as real) < y) by (nonlinear_arith)
        requires
            i >= 1,
            y == r * i as real,
    ;
}

/// Whether `q * n` lies within the 64-bit integers.
pub fn in_scaled_range(q: &Num, n: i64) -> (b: bool)
    requires
        q.wf(),
    ensures
        b == scaled_in_range(q@, n as int),
{
    let p = wide_mul(q.numer, n);
    let low = wide_mul(i64::MIN, q.denom);
    let high = wide_mul(i64::MAX, q.denom);
    proof {
        let a = q.numer as int;
        let d = q.denom as int;
        assert(scaled_in_range(frac(a, d), n as int) <==> i64::MIN * d <= a * n <= i64::MAX * d)
            by (nonlinear_arith)
            requires
                d > 0,
        ;
    }
    low <= p && p <= high
}

/// `floor(q * i)`.
fn scaled_floor(q: &Num, i: i64) -> (f: i128)
    requires
        q.wf(),
    ensures
        f == (q@ * i as real).floor(),
{
    let p = wide_mul(q.numer, i);
    proof {
        lemma_frac_integer(i as int);
        lemma_frac_mul(q.numer as int, q.denom as int, i as int, 1);
        assert(q.denom * 1 == q.denom);
        lemma_frac_floor(p as int, q.denom as int);
        assert(i128::MIN <= p as int / q.denom as int <= i128::MAX) by (nonlinear_arith)
            requires
                q.denom >= 1,
                i128::MIN <= p <= i128::MAX,
        ;
    }
    p.checked_div_euclid(q.denom as i128).unwrap()
}

/// `ceil(q * i)`.
fn scaled_ceil(q: &Num, i: i64) -> (c: i128)
    requires
        q.wf(),
    ensures
        c == ceil(q@ * i as real),
{
    let p = -wide_mul(q.numer, i);
    proof {
        lemma_frac_integer(i as int);
        lemma_frac_mul(q.numer as int, q.denom as int, i as int, 1);
        assert(q.denom * 1 == q.denom);
        lemma_frac_neg(q.numer * i, q.denom as int);
        lemma_frac_floor(p as int, q.denom as int);
        assert(-0x4000_0000_0000_0000_0000_0000_0000_0000 <= p as int / q.denom as int
            <= 0x4000_0000_0000_0000_0000_0000_0000_0000) by (nonlinear_arith)
            requires
                q.denom >= 1,
                -0x4000_0000_0000_0000_0000_0000_0000_0000 <= p
                    <= 0x4000_0000_0000_0000_0000_0000_0000_0000,
        ;
    }
    -p.checked_div_euclid(q.denom as i128).unwrap()
}

/// The fractions in lowest terms with denominators from 1 to `n` that lie
/// strictly between `l` and `r`, in ascending order, after `l` and before
/// `r`.
///
/// The numerators are 64-bit integers, so `l * n` and `r * n` must lie
/// within them.
pub fn fraction_between(n: i64, l: Num, r: Num) -> (out: Vec<Num>)
    requires
        l.wf(),
        r.wf(),
        l@ <= r@,
        n >= 1 ==> scaled_in_range(l@, n as int) && scaled_in_range(r@, n as int),
    ensures
        out@.len() >= 2,
        out@[0] == l,
        out@[out@.len() - 1] == r,
        table_wf(out@),
        forall|a: int, b: int|
            0 <= a < b < out@.len() ==> (#[trigger] out@[a])@ <= (#[trigger] out@[b])@,
        forall|a: int, b: int|
            0 <= a < b < out@.len() && l@ < r@ ==> (#[trigger] out@[a])@ < (#[trigger] out@[b])@,
        forall|k: int|
            1 <= k < out@.len() - 1 ==> is_inner_fraction((#[trigger] out@[k])@, n as int, l@, r@),
        forall|k: int| 1 <= k < out@.len() - 1 ==> 1 <= (#[trigger] out@[k]).denom <= n,
        forall|q: real|
            #[trigger] is_inner_fraction(q, n as int, l@, r@) ==> exists|k: int|
                1 <= k < out@.len() - 1 && (#[trigger] out@[k])@ == q,
        values(out@) == segmentation(n as int, l@, r@),
{
    let mut inner: Vec<Num> = Vec::new();
    let mut i: i64 = 0;
    while i < n
        invariant
            l.wf(),
            r.wf(),
            n >= 1 ==> scaled_in_range(l@, n as int) && scaled_in_range(r@, n as int),
            0 <= i,
            i <= n || i == 0,
            l@ <= r@,
            table_wf(inner@),
            inner@.no_duplicates(),
            forall|k: int|
                0 <= k < inner@.len() ==> 1 <= (#[trigger] inner@[k]).denom <= i && l@
                    < inner@[k]@ < r@,
            forall|i2: int, j2: int|
                1 <= i2 <= i && coprime(j2, i2) && l@ < #[trigger] frac(j2, i2) < r@ ==> holds(
                    inner@,
                    j2,
                    i2,
                ),
        decreases n - i,
    {
        i += 1;
        proof {
            assert(scaled_in_range(l@, i as int) && scaled_in_range(r@, i as int))
                by (nonlinear_arith)
                requires
                    1 <= i <= n,
                    scaled_in_range(l@, n as int),
                    scaled_in_range(r@, n as int),
            ;
        }
        let lo: i128 = scaled_floor(&l, i) + 1;
        let hi: i128 = scaled_ceil(&r, i) - 1;
        let mut j: i128 = lo;
        proof {
            assert forall|j2: int| j2 < lo implies !(l@ < #[trigger] frac(j2, i as int)) by {
                lemma_numerator_range(l@, r@, i as int, j2);
            }
        }
        while j <= hi
            invariant
                l.wf(),
                r.wf(),
                1 <= i <= n,
                lo == (l@ * i as real).floor() + 1,
                hi == ceil(r@ * i as real) - 1,
                i64::MIN <= lo - 1,
                hi + 1 <= i64::MAX,
                lo <= j,
                j <= hi + 1 || hi < lo,
                table_wf(inner@),
                inner@.no_duplicates(),
                forall|k: int|
                    0 <= k < inner@.len() ==> 1 <= (#[trigger] inner@[k]).denom <= i && l@
                        < inner@[k]@ < r@ && (inner@[k].denom == i ==> inner@[k].numer < j),
                forall|i2: int, j2: int|
                    1 <= i2 <= i && (i2 < i || j2 < j) && coprime(j2, i2) && l@ < #[trigger] frac(
                        j2,
                        i2,
                    ) < r@ ==> holds(inner@, j2, i2),
            decreases hi + 1 - j,
        {
            let jn: i64 = j as i64;
            if greatest_common_divisor(i, jn) == 1 {
                let q = Num { numer: jn, denom: i };
                proof {
                    lemma_gcd_symmetric(magnitude(i as int), magnitude(jn as int));
                    lemma_numerator_range(l@, r@, i as int, j as int);
                }
                let ghost before = inner@;
                inner.push(q);
                proof {
                    assert forall|i2: int, j2: int|
                        1 <= i2 <= i && (i2 < i || j2 < j + 1) && coprime(j2, i2) && l@
                            < #[trigger] frac(j2, i2) < r@ implies holds(inner@, j2, i2) by {
                        if i2 == i && j2 == j {
                            assert(inner@[before.len() as int] == q);
                        } else {
                            assert(holds(before, j2, i2));
                            let k = choose|k: int|
                                0 <= k < before.len() && (#[trigger] before[k]).numer == j2
                                    && before[k].denom == i2;
                            assert(inner@[k] == before[k]);
                        }
                    }
                }
            } else {
                proof {
                    lemma_gcd_symmetric(magnitude(i as int), magnitude(jn as int));
                }
            }
            j += 1;
        }
        proof {
            assert forall|i2: int, j2: int|
                1 <= i2 <= i && coprime(j2, i2) && l@ < #[trigger] frac(j2, i2) < r@ implies holds(
                inner@,
                j2,
                i2,
            ) by {
                if i2 == i {
                    lemma_numerator_range(l@, r@, i as int, j2);
                }
            }
        }
    }
    let ghost unsorted = inner@;
    sort_by_value(&mut inner);
    let ghost sorted = inner@;
    proof {
        broadcast use vstd::seq_lib::group_to_multiset_ensures;

        unsorted.lemma_multiset_has_no_duplicates();
        sorted.lemma_multiset_has_no_duplicates_conv();
        assert forall|k: int| 0 <= k < sorted.len() implies unsorted.contains(
            #[trigger] sorted[k],
        ) by {
            assert(sorted.contains(sorted[k]));
            assert(sorted.to_multiset().count(sorted[k]) > 0);
        }
        assert forall|k: int| 0 <= k < unsorted.len() implies sorted.contains(
            #[trigger] unsorted[k],
        ) by {
            assert(unsorted.contains(unsorted[k]));
            assert(unsorted.to_multiset().count(unsorted[k]) > 0);
        }
    }
    let mut out: Vec<Num> = Vec::new();
    out.push(l);
    out.append(&mut inner);
    out.push(r);
    proof {
        assert(out@.len() == sorted.len() + 2);
        assert forall|k: int| 1 <= k < out@.len() - 1 implies {
            &&& (#[trigger] out@[k]).wf()
            &&& 1 <= out@[k].denom <= n
            &&& l@ < out@[k]@ < r@
            &&& is_inner_fraction(out@[k]@, n as int, l@, r@)
        } by {
            let e = sorted[k - 1];
            assert(out@[k] == e);
            assert(unsorted.contains(e));
            let k0 = choose|k0: int| 0 <= k0 < unsorted.len() && unsorted[k0] == e;
            assert(unsorted[k0].wf());
            assert(1 <= e.denom <= n);
            assert(l@ < e@ < r@);
            assert(frac(e.numer as int, e.denom as int) == e@);
            assert(coprime(e.numer as int, e.denom as int));
        }
        assert forall|a: int, b: int| 0 <= a < b < out@.len() implies (#[trigger] out@[a])@ <= (
        #[trigger] out@[b])@ && (l@ < r@ ==> out@[a]@ < out@[b]@) by {
            if 1 <= a && b < out@.len() - 1 {
                assert(out@[a] == sorted[a - 1]);
                assert(out@[b] == sorted[b - 1]);
                assert(sorted[a - 1]@ <= sorted[b - 1]@);
                if sorted[a - 1]@ == sorted[b - 1]@ {
                    Num::lemma_view_injective(sorted[a - 1], sorted[b - 1]);
                }
            }
        }
        assert forall|q: real| #[trigger] is_inner_fraction(q, n as int, l@, r@) implies exists|
            k: int,
        |
            1 <= k < out@.len() - 1 && (#[trigger] out@[k])@ == q by {
            let (i2, j2) = choose|i2: int, j2: int|
                1 <= i2 <= n && coprime(j2, i2) && #[trigger] frac(j2, i2) == q;
            assert(holds(unsorted, j2, i2));
            let k0 = choose|k: int|
                0 <= k < unsorted.len() && (#[trigger] unsorted[k]).numer == j2
                    && unsorted[k].denom == i2;
            assert(sorted.contains(unsorted[k0]));
            let k1 = choose|k: int| 0 <= k < sorted.len() && sorted[k] == unsorted[k0];
            assert(out@[k1 + 1] == sorted[k1]);
        }
        let vals = values(out@);
        assert forall|q: real| #[trigger] is_inner_fraction(q, n as int, l@, r@) implies exists|
            k: int,
        |
            1 <= k < vals.len() - 1 && #[trigger] vals[k] == q by {
            let k = choose|k: int| 1 <= k < out@.len() - 1 && (#[trigger] out@[k])@ == q;
            assert(vals[k] == q);
        }
        assert(is_segmentation(vals, n as int, l@, r@));
        lemma_segmentation_unique(vals, segmentation(n as int, l@, r@), n as int, l@, r@);
    }
    out
}

} // verus!
