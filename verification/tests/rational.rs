use num_rational::Ratio;
use pos_distribution::rational::Num;

fn same(q: Num, r: Ratio<i64>) -> bool {
    q.numer == *r.numer() && q.denom == *r.denom()
}

#[test]
fn new_reduces_to_lowest_terms() {
    let q = Num::new(6, -4);
    assert_eq!(q.numer, -3);
    assert_eq!(q.denom, 2);
    assert_eq!(Num::new(0, -7), Num { numer: 0, denom: 1 });
    assert_eq!(Num::new(12, 12), Num { numer: 1, denom: 1 });
    assert_eq!(Num::new(-10, 4), Num { numer: -5, denom: 2 });
}

#[test]
fn checked_new_refuses_a_zero_denominator() {
    assert_eq!(Num::checked_new(1, 0), None);
    assert_eq!(Num::checked_new(3, 6), Some(Num { numer: 1, denom: 2 }));
}

#[test]
fn checked_new_refuses_what_has_no_64_bit_form() {
    // 1 / -2^63 would need the denominator 2^63
    assert_eq!(Num::checked_new(1, i64::MIN), None);
    // -2^63 / -1 would need the numerator 2^63
    assert_eq!(Num::checked_new(i64::MIN, -1), None);
    // but -2^63 / 2 is -2^62
    assert_eq!(Num::checked_new(i64::MIN, 2), Some(Num { numer: i64::MIN / 2, denom: 1 }));
    assert_eq!(Num::checked_new(i64::MIN, i64::MIN), Some(Num { numer: 1, denom: 1 }));
}

#[test]
fn from_integer_has_denominator_one() {
    assert_eq!(Num::from_integer(-7), Num { numer: -7, denom: 1 });
}

#[test]
fn arithmetic_is_exact() {
    let a = Num::new(1, 6);
    let b = Num::new(3, 10);
    assert_eq!(a.checked_add(&b), Some(Num { numer: 7, denom: 15 }));
    assert_eq!(a.checked_sub(&b), Some(Num { numer: -2, denom: 15 }));
    assert_eq!(a.checked_mul(&b), Some(Num { numer: 1, denom: 20 }));
    assert_eq!(a.checked_div(&b), Some(Num { numer: 5, denom: 9 }));
    assert_eq!(b.checked_div(&Num::new(-3, 10)), Some(Num { numer: -1, denom: 1 }));
}

#[test]
fn division_by_zero_is_refused() {
    assert_eq!(Num::new(1, 2).checked_div(&Num::from_integer(0)), None);
}

#[test]
fn arithmetic_succeeds_whenever_the_result_has_a_64_bit_form() {
    // the denominator of the sum is nearly 2^63
    let big = 3_037_000_000i64;
    let a = Num::new(1, big);
    let b = Num::new(-1, big + 1);
    let sum = a.checked_add(&b).unwrap();
    assert_eq!(sum, Num { numer: 1, denom: big * (big + 1) });
    // the sum of the numerators leaves 64 bits, the sum does not
    let a = Num::new(i64::MAX, 2);
    assert_eq!(a.checked_add(&a), Some(Num { numer: i64::MAX, denom: 1 }));
    assert_eq!(a.checked_mul(&Num::new(2, i64::MAX)), Some(Num { numer: 1, denom: 1 }));
}

#[test]
fn arithmetic_refuses_what_has_no_64_bit_form() {
    let a = Num::from_integer(i64::MAX);
    let one = Num::from_integer(1);
    assert_eq!(a.checked_add(&one), None);
    assert_eq!(Num::from_integer(i64::MIN).checked_sub(&one), None);
    assert_eq!(a.checked_mul(&Num::from_integer(2)), None);
    assert_eq!(Num::new(1, i64::MAX).checked_div(&Num::from_integer(2)), None);
    assert_eq!(Num::new(1, i64::MAX).checked_add(&Num::new(1, i64::MAX - 1)), None);
}

#[test]
fn arithmetic_agrees_with_num_rational() {
    let values = [(0, 1), (1, 2), (-1, 2), (7, 3), (-7, 3), (16384, 5), (-22, 7), (355, 113), (1, 16384)];
    for &(an, ad) in values.iter() {
        for &(bn, bd) in values.iter() {
            let a = Num::new(an, ad);
            let b = Num::new(bn, bd);
            let x = Ratio::new(an, ad);
            let y = Ratio::new(bn, bd);
            assert!(same(a, x));
            assert!(same(a.checked_add(&b).unwrap(), x + y));
            assert!(same(a.checked_sub(&b).unwrap(), x - y));
            assert!(same(a.checked_mul(&b).unwrap(), x * y));
            if bn != 0 {
                assert!(same(a.checked_div(&b).unwrap(), x / y));
            }
            assert_eq!(a.lt(&b), x < y);
            assert_eq!(a.le(&b), x <= y);
            assert_eq!(a.equals(&b), x == y);
            assert!(same(a.min(b), x.min(y)));
            assert!(same(a.max(b), x.max(y)));
        }
        let a = Num::new(an, ad);
        let x = Ratio::new(an, ad);
        assert_eq!(a.floor(), *x.floor().numer());
        assert_eq!(a.ceil(), *x.ceil().numer());
        assert_eq!(a.round(), *x.round().numer());
        assert_eq!(a.to_integer(), x.to_integer());
        assert_eq!(a.is_integer(), x.is_integer());
    }
}

#[test]
fn rounding_of_negative_numbers() {
    let q = Num::new(-7, 2);
    assert_eq!(q.floor(), -4);
    assert_eq!(q.ceil(), -3);
    assert_eq!(q.to_integer(), -3);
    assert_eq!(q.round(), -4);
    let q = Num::new(7, 2);
    assert_eq!(q.floor(), 3);
    assert_eq!(q.ceil(), 4);
    assert_eq!(q.to_integer(), 3);
    assert_eq!(q.round(), 4);
    assert_eq!(Num::new(-1, 3).round(), 0);
    assert_eq!(Num::new(-2, 3).round(), -1);
    assert_eq!(Num::new(5, 1).round(), 5);
}

#[test]
fn rounding_at_the_ends_of_64_bits() {
    assert_eq!(Num::from_integer(i64::MIN).floor(), i64::MIN);
    assert_eq!(Num::from_integer(i64::MIN).ceil(), i64::MIN);
    assert_eq!(Num::from_integer(i64::MIN).round(), i64::MIN);
    assert_eq!(Num::from_integer(i64::MAX).round(), i64::MAX);
    assert_eq!(Num::new(i64::MAX, 2).round(), i64::MAX / 2 + 1);
    assert_eq!(Num::new(i64::MIN + 1, 2).round(), i64::MIN / 2);
    assert_eq!(Num::new(i64::MAX, 2).ceil(), i64::MAX / 2 + 1);
    assert_eq!(Num::new(i64::MIN + 1, 2).floor(), i64::MIN / 2);
}

#[test]
fn order_is_by_value() {
    let a = Num::new(1, 3);
    let b = Num::new(2, 5);
    assert!(a.lt(&b));
    assert!(!b.lt(&a));
    assert!(a.le(&a));
    assert!(a.equals(&Num::new(2, 6)));
    assert_eq!(a.min(b), a);
    assert_eq!(a.max(b), b);
    // large numbers whose cross products leave 64 bits
    let c = Num::new(i64::MAX, i64::MAX - 1);
    let d = Num::new(i64::MAX - 1, i64::MAX - 2);
    assert!(c.lt(&d));
}

#[test]
fn integers_are_told_from_fractions() {
    assert!(Num::new(4, 2).is_integer());
    assert!(!Num::new(1, 2).is_integer());
}

#[test]
fn lowest_terms_are_recognised() {
    assert!(Num { numer: 3, denom: 4 }.is_wf());
    assert!(Num { numer: -3, denom: 4 }.is_wf());
    assert!(Num { numer: 0, denom: 1 }.is_wf());
    assert!(Num { numer: i64::MIN, denom: 3 }.is_wf());
    assert!(!Num { numer: 2, denom: 4 }.is_wf());
    assert!(!Num { numer: 0, denom: 2 }.is_wf());
    assert!(!Num { numer: 3, denom: -4 }.is_wf());
    assert!(!Num { numer: 1, denom: 0 }.is_wf());
    assert!(!Num { numer: i64::MIN, denom: 2 }.is_wf());
}
