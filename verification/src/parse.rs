//! The numbers and the tables of the entity database, as they are written.

use crate::common::table_wf;
use crate::fractions::values;
use crate::rational::{frac, narrow, Num, representable, wide_mul};
use vstd::prelude::*;
use vstd::string::StringSliceAdditionalSpecFns;

verus! {

/// The byte is a decimal digit.
pub open spec fn is_digit(b: u8) -> bool {
    48 <= b <= 57
}

/// Every byte is a decimal digit.
pub open spec fn all_digits(s: Seq<u8>) -> bool {
    forall|i: int| 0 <= i < s.len() ==> is_digit(#[trigger] s[i])
}

/// The number that the digits write; what it is where a byte is no digit
/// does not matter.
pub open spec fn digits_value(s: Seq<u8>) -> int
    decreases s.len(),
{
    if s.len() == 0 {
        0
    } else {
        digits_value(s.drop_last()) * 10 + (s.last() - 48)
    }
}

/// The 64-bit integer that the text writes: a sign, `+` or `-`, or none,
/// and then one digit or more.
pub open spec fn integer_value(s: Seq<u8>) -> Option<int> {
    let signed = s.len() > 0 && (s[0] == 45 || s[0] == 43);
    let body = if signed {
        s.subrange(1, s.len() as int)
    } else {
        s
    };
    let value = if s.len() > 0 && s[0] == 45 {
        -digits_value(body)
    } else {
        digits_value(body)
    };
    if body.len() > 0 && all_digits(body) && i64::MIN <= value <= i64::MAX {
        Some(value)
    } else {
        None
    }
}

/// The place of the first `b` in the text, or the length of the text
/// where there is none.
pub open spec fn first_index(s: Seq<u8>, b: u8) -> int
    decreases s.len(),
{
    if s.len() == 0 {
        0
    } else if s[0] == b {
        0
    } else {
        1 + first_index(s.subrange(1, s.len() as int), b)
    }
}

/// Ten to the power of `k`.
pub open spec fn pow10(k: nat) -> int
    decreases k,
{
    if k == 0 {
        1
    } else {
        10 * pow10((k - 1) as nat)
    }
}

/// The number that the text writes.
///
/// With a point, the text is an integer, the point and a second integer,
/// which counts as many decimal places as it has bytes; a `-` in front
/// makes the number negative and does not count as part of the first
/// integer. Without a point, the text is an integer, or two integers with
/// a `/` between them, of which the second is not 0.
pub open spec fn decimal_value(s: Seq<u8>) -> Option<real> {
    let dot = first_index(s, 46);
    if dot < s.len() {
        let negative = s[0] == 45;
        let start: int = if negative {
            1
        } else {
            0
        };
        let places = s.len() - dot - 1;
        match (
            integer_value(s.subrange(start, dot)),
            integer_value(s.subrange(dot + 1, s.len() as int)),
        ) {
            (Some(whole), Some(part)) => {
                let unsigned = whole * pow10(places as nat) + part;
                let numer = if negative {
                    -unsigned
                } else {
                    unsigned
                };
                if places <= 18 && i64::MIN <= numer <= i64::MAX {
                    Some(frac(numer, pow10(places as nat)))
                } else {
                    None
                }
            },
            _ => None,
        }
    } else {
        let slash = first_index(s, 47);
        let numer = integer_value(s.subrange(0, slash));
        let denom = if slash < s.len() {
            integer_value(s.subrange(slash + 1, s.len() as int))
        } else {
            Some(1int)
        };
        match (numer, denom) {
            (Some(n), Some(d)) => if d != 0 && representable(frac(n, d)) {
                Some(frac(n, d))
            } else {
                None
            },
            _ => None,
        }
    }
}

proof fn lemma_digits_bounds(s: Seq<u8>, k: int)
    requires
        all_digits(s),
        0 <= k <= s.len(),
    ensures
        0 <= digits_value(s.subrange(0, k)) <= digits_value(s),
    decreases s.len() - k,
{
    if k < s.len() {
        lemma_digits_bounds(s, k + 1);
        assert(s.subrange(0, k + 1).drop_last() =~= s.subrange(0, k));
        lemma_digits_nonnegative(s.subrange(0, k));
    } else {
        assert(s.subrange(0, k) =~= s);
        lemma_digits_nonnegative(s);
    }
}

proof fn lemma_digits_nonnegative(s: Seq<u8>)
    requires
        all_digits(s),
    ensures
        0 <= digits_value(s),
    decreases s.len(),
{
    if s.len() > 0 {
        lemma_digits_nonnegative(s.drop_last());
    }
}

proof fn lemma_first_index(s: Seq<u8>, b: u8, k: int)
    requires
        0 <= k <= s.len(),
        forall|j: int| 0 <= j < k ==> s[j] != b,
        k == s.len() || s[k] == b,
    ensures
        first_index(s, b) == k,
    decreases k,
{
    if k > 0 {
        let rest = s.subrange(1, s.len() as int);
        assert forall|j: int| 0 <= j < k - 1 implies rest[j] != b by {
            assert(rest[j] == s[j + 1]);
        }
        lemma_first_index(rest, b, k - 1);
    }
}

/// The place of the first `b` among the bytes from `from` up to `to`, or
/// `to` where there is none.
fn find_byte(bytes: &[u8], b: u8, from: usize, to: usize) -> (k: usize)
    requires
        from <= to <= bytes@.len(),
    ensures
        from <= k <= to,
        k - from == first_index(bytes@.subrange(from as int, to as int), b),
        k < to ==> bytes@[k as int] == b,
        forall|j: int| from <= j < k ==> bytes@[j] != b,
{
    let mut k = from;
    while k < to && bytes[k] != b
        invariant
            from <= k <= to <= bytes@.len(),
            forall|j: int| from <= j < k ==> bytes@[j] != b,
        decreases to - k,
    {
        k += 1;
    }
    proof {
        lemma_first_index(bytes@.subrange(from as int, to as int), b, k - from);
    }
    k
}

/// The 64-bit integer that the bytes from `from` up to `to` write.
fn parse_integer(bytes: &[u8], from: usize, to: usize) -> (r: Option<i64>)
    requires
        from <= to <= bytes@.len(),
    ensures
        r is Some <==> integer_value(bytes@.subrange(from as int, to as int)) is Some,
        r matches Some(v) ==> integer_value(bytes@.subrange(from as int, to as int)) == Some(
            v as int,
        ),
{
    let ghost s = bytes@.subrange(from as int, to as int);
    if from == to {
        assert(s.len() == 0);
        assert(integer_value(s) is None);
        return None;
    }
    let negative = bytes[from] == 45;
    let start = if negative || bytes[from] == 43 {
        from + 1
    } else {
        from
    };
    let ghost body = bytes@.subrange(start as int, to as int);
    proof {
        assert(s[0] == bytes@[from as int]);
        if start > from {
            assert(body =~= s.subrange(1, s.len() as int));
        } else {
            assert(body =~= s);
        }
    }
    if start == to {
        assert(body.len() == 0);
        assert(integer_value(s) is None);
        return None;
    }
    let mut k = start;
    let mut acc: i128 = 0;
    while k < to
        invariant
            from < to,
            start <= k <= to <= bytes@.len(),
            s == bytes@.subrange(from as int, to as int),
            body == bytes@.subrange(start as int, to as int),
            body == if s[0] == 45 || s[0] == 43 {
                s.subrange(1, s.len() as int)
            } else {
                s
            },
            body.len() > 0,
            all_digits(body.subrange(0, k - start)),
            acc == digits_value(body.subrange(0, k - start)),
            0 <= acc <= 0x8000_0000_0000_0000,
        decreases to - k,
    {
        let b = bytes[k];
        assert(body[k - start] == b);
        if b < 48 || b > 57 {
            assert(!all_digits(body));
            return None;
        }
        proof {
            assert(body.subrange(0, k + 1 - start).drop_last() =~= body.subrange(0, k - start));
            assert(all_digits(body.subrange(0, k + 1 - start)));
        }
        acc = acc * 10 + (b - 48) as i128;
        if acc > 0x8000_0000_0000_0000 {
            proof {
                if all_digits(body) {
                    lemma_digits_bounds(body, k + 1 - start);
                }
            }
            return None;
        }
        k += 1;
    }
    proof {
        assert(body.subrange(0, k - start) =~= body);
    }
    let value: i128 = if negative {
        -acc
    } else {
        acc
    };
    if value > i64::MAX as i128 {
        None
    } else {
        Some(value as i64)
    }
}

/// Ten to the power of `k`.
fn power_of_ten(k: usize) -> (p: i64)
    requires
        k <= 18,
    ensures
        p == pow10(k as nat),
        1 <= p <= 1_000_000_000_000_000_000,
{
    let mut p: i64 = 1;
    let mut i: usize = 0;
    proof {
        lemma_pow10_eighteen();
    }
    while i < k
        invariant
            0 <= i <= k <= 18,
            p == pow10(i as nat),
            1 <= p,
            p * pow10((18 - i) as nat) == 1_000_000_000_000_000_000,
        decreases k - i,
    {
        proof {
            let rest = pow10((18 - i - 1) as nat);
            assert(pow10((18 - i) as nat) == 10 * rest);
            lemma_pow10_positive((18 - i - 1) as nat);
            assert(p * 10 * rest == 1_000_000_000_000_000_000) by (nonlinear_arith)
                requires
                    p * (10 * rest) == 1_000_000_000_000_000_000,
            ;
            assert(p * 10 <= 1_000_000_000_000_000_000) by (nonlinear_arith)
                requires
                    p * 10 * rest == 1_000_000_000_000_000_000,
                    rest >= 1,
                    p >= 1,
            ;
        }
        p = p * 10;
        i += 1;
    }
    proof {
        lemma_pow10_positive((18 - k) as nat);
        assert(p <= 1_000_000_000_000_000_000) by (nonlinear_arith)
            requires
                p * pow10((18 - k) as nat) == 1_000_000_000_000_000_000,
                pow10((18 - k) as nat) >= 1,
                p >= 1,
        ;
    }
    p
}

proof fn lemma_pow10_positive(k: nat)
    ensures
        pow10(k) >= 1,
    decreases k,
{
    if k > 0 {
        lemma_pow10_positive((k - 1) as nat);
    }
}

proof fn lemma_pow10_eighteen()
    ensures
        pow10(18) == 1_000_000_000_000_000_000,
{
    reveal_with_fuel(pow10, 19);
}

/// The number that the bytes from `from` up to `to` write.
fn parse_decimal(bytes: &[u8], from: usize, to: usize) -> (r: Option<Num>)
    requires
        from <= to <= bytes@.len(),
    ensures
        r is Some <==> decimal_value(bytes@.subrange(from as int, to as int)) is Some,
        r matches Some(q) ==> q.wf() && decimal_value(bytes@.subrange(from as int, to as int))
            == Some(q@),
{
    let ghost s = bytes@.subrange(from as int, to as int);
    let dot = find_byte(bytes, 46, from, to);
    if dot < to {
        let negative = bytes[from] == 45;
        let start = if negative {
            from + 1
        } else {
            from
        };
        proof {
            assert(s[0] == bytes@[from as int]);
            assert(s[dot - from] == bytes@[dot as int]);
            assert(s.subrange(start - from, dot - from) =~= bytes@.subrange(
                start as int,
                dot as int,
            ));
            assert(s.subrange(dot - from + 1, s.len() as int) =~= bytes@.subrange(
                dot + 1,
                to as int,
            ));
        }
        let whole = parse_integer(bytes, start, dot)?;
        let part = parse_integer(bytes, dot + 1, to)?;
        let places = to - dot - 1;
        if places > 18 {
            return None;
        }
        let scale = power_of_ten(places);
        let unsigned: i128 = wide_mul(whole, scale) + part as i128;
        let numer: i128 = if negative {
            -unsigned
        } else {
            unsigned
        };
        if numer < i64::MIN as i128 || numer > i64::MAX as i128 {
            return None;
        }
        assert(representable(frac(numer as int, scale as int)));
        narrow(numer, scale as i128)
    } else {
        let slash = find_byte(bytes, 47, from, to);
        proof {
            assert(s.subrange(0, slash - from) =~= bytes@.subrange(from as int, slash as int));
            if slash < to {
                assert(s.subrange(slash - from + 1, s.len() as int) =~= bytes@.subrange(
                    slash + 1,
                    to as int,
                ));
            }
        }
        let numer = parse_integer(bytes, from, slash)?;
        let denom = if slash < to {
            parse_integer(bytes, slash + 1, to)?
        } else {
            1
        };
        Num::checked_new(numer, denom)
    }
}

/// The number that the text writes: a decimal number such as `-0.37`, an
/// integer, or a fraction such as `3/8`. The result is `None` where the
/// text writes none, or none with a 64-bit form.
pub fn decimal_to_rational(decimal: &str) -> (r: Option<Num>)
    ensures
        r is Some <==> decimal_value(decimal.spec_bytes()) is Some,
        r matches Some(q) ==> q.wf() && decimal_value(decimal.spec_bytes()) == Some(q@),
{
    let bytes = decimal.as_bytes();
    assert(bytes@.subrange(0, bytes@.len() as int) =~= bytes@);
    parse_decimal(bytes, 0, bytes.len())
}

/// The numbers that the text writes, with a `,` between one and the next.
pub open spec fn positions(s: Seq<u8>) -> Option<Seq<real>>
    decreases s.len(),
{
    let comma = first_index(s, 44);
    let head = decimal_value(s.subrange(0, comma));
    if 0 <= comma < s.len() {
        match (head, positions(s.subrange(comma + 1, s.len() as int))) {
            (Some(v), Some(rest)) => Some(seq![v] + rest),
            _ => None,
        }
    } else {
        match head {
            Some(v) => Some(seq![v]),
            None => None,
        }
    }
}

/// The steps from each number to the next.
pub open spec fn steps(p: Seq<real>) -> Seq<real> {
    Seq::new((p.len() - 1) as nat, |i: int| p[i + 1] - p[i])
}

/// The table that the text writes: the text gives the position of the
/// entity at the start of each frame of the cycle and at its end, and the
/// table holds the displacement of each frame.
pub open spec fn table_value(s: Seq<u8>) -> Option<Seq<real>> {
    match positions(s) {
        Some(p) => if forall|i: int| 0 <= i < p.len() - 1 ==> representable(#[trigger] steps(p)[i]) {
            Some(steps(p))
        } else {
            None
        },
        None => None,
    }
}

/// The two tables that the text writes, with a `;` between them.
pub open spec fn table_pair_value(s: Seq<u8>) -> Option<(Seq<real>, Seq<real>)> {
    let sep = first_index(s, 59);
    if 0 <= sep < s.len() {
        match (table_value(s.subrange(0, sep)), table_value(s.subrange(sep + 1, s.len() as int))) {
            (Some(a), Some(b)) => Some((a, b)),
            _ => None,
        }
    } else {
        None
    }
}

/// The numbers that the bytes from `from` up to `to` write.
fn parse_positions(bytes: &[u8], from: usize, to: usize) -> (r: Option<Vec<Num>>)
    requires
        from <= to <= bytes@.len(),
    ensures
        r is Some <==> positions(bytes@.subrange(from as int, to as int)) is Some,
        r matches Some(v) ==> table_wf(v@) && v@.len() >= 1 && positions(
            bytes@.subrange(from as int, to as int),
        ) == Some(values(v@)),
{
    let ghost whole = bytes@.subrange(from as int, to as int);
    let mut out: Vec<Num> = Vec::new();
    let mut at = from;
    proof {
        assert(values(out@) + positions(whole).unwrap() =~= positions(whole).unwrap());
    }
    loop
        invariant
            from <= at <= to <= bytes@.len(),
            whole == bytes@.subrange(from as int, to as int),
            table_wf(out@),
            match positions(bytes@.subrange(at as int, to as int)) {
                Some(rest) => positions(whole) == Some(values(out@) + rest),
                None => positions(whole) is None,
            },
        decreases to - at,
    {
        let ghost here = bytes@.subrange(at as int, to as int);
        let ghost before = values(out@);
        let comma = find_byte(bytes, 44, at, to);
        proof {
            assert(here.subrange(0, comma - at) =~= bytes@.subrange(at as int, comma as int));
            if comma < to {
                assert(here.subrange(comma - at + 1, here.len() as int) =~= bytes@.subrange(
                    comma + 1,
                    to as int,
                ));
            }
        }
        let v = parse_decimal(bytes, at, comma)?;
        out.push(v);
        proof {
            assert(values(out@) =~= before + seq![v@]);
        }
        if comma == to {
            return Some(out);
        }
        proof {
            let rest = positions(bytes@.subrange(comma + 1, to as int));
            if rest is Some {
                assert((before + seq![v@]) + rest.unwrap() =~= before + (seq![v@] + rest.unwrap()));
            }
        }
        at = comma + 1;
    }
}

/// The table that the bytes from `from` up to `to` write.
fn parse_table(bytes: &[u8], from: usize, to: usize) -> (r: Option<Vec<Num>>)
    requires
        from <= to <= bytes@.len(),
    ensures
        r is Some <==> table_value(bytes@.subrange(from as int, to as int)) is Some,
        r matches Some(v) ==> table_wf(v@) && table_value(bytes@.subrange(from as int, to as int))
            == Some(values(v@)),
{
    let nums = parse_positions(bytes, from, to)?;
    let ghost p = values(nums@);
    let mut out: Vec<Num> = Vec::new();
    let mut i: usize = 1;
    while i < nums.len()
        invariant
            table_wf(nums@),
            p == values(nums@),
            from <= to <= bytes@.len(),
            positions(bytes@.subrange(from as int, to as int)) == Some(p),
            1 <= i <= nums@.len(),
            table_wf(out@),
            out@.len() == i - 1,
            forall|j: int| 0 <= j < i - 1 ==> (#[trigger] out@[j])@ == steps(p)[j],
            forall|j: int| 0 <= j < i - 1 ==> representable(#[trigger] steps(p)[j]),
        decreases nums@.len() - i,
    {
        let step = match nums[i].checked_sub(&nums[i - 1]) {
            Some(step) => step,
            None => {
                assert(!representable(steps(p)[i - 1]));
                return None;
            },
        };
        proof {
            step.lemma_representable();
            assert(step@ == steps(p)[i - 1]);
        }
        out.push(step);
        i += 1;
    }
    proof {
        assert(values(out@) =~= steps(p));
    }
    Some(out)
}

/// The table that the text writes: positions with a `,` between them,
/// turned into the steps from each to the next. The result is `None`
/// where the text writes none, or a number of it has no 64-bit form.
pub fn parse_animation(raw: &str) -> (r: Option<Vec<Num>>)
    ensures
        r is Some <==> table_value(raw.spec_bytes()) is Some,
        r matches Some(v) ==> table_wf(v@) && table_value(raw.spec_bytes()) == Some(values(v@)),
{
    let bytes = raw.as_bytes();
    assert(bytes@.subrange(0, bytes@.len() as int) =~= bytes@);
    parse_table(bytes, 0, bytes.len())
}

/// The two tables that the text writes, with a `;` between them.
pub fn parse_regular(raw: &str) -> (r: Option<(Vec<Num>, Vec<Num>)>)
    ensures
        r is Some <==> table_pair_value(raw.spec_bytes()) is Some,
        r matches Some(v) ==> table_wf(v.0@) && table_wf(v.1@) && table_pair_value(
            raw.spec_bytes(),
        ) == Some((values(v.0@), values(v.1@))),
{
    let bytes = raw.as_bytes();
    let sep = find_byte(bytes, 59, 0, bytes.len());
    proof {
        assert(bytes@.subrange(0, bytes@.len() as int) =~= bytes@);
    }
    if sep == bytes.len() {
        return None;
    }
    let first = parse_table(bytes, 0, sep)?;
    let second = parse_table(bytes, sep + 1, bytes.len())?;
    Some((first, second))
}

} // verus!
