use pos_distribution::rational::Num;
use pos_distribution::sorting::sort_by_value;

fn nums(values: &[(i64, i64)]) -> Vec<Num> {
    values.iter().map(|v| Num::new(v.0, v.1)).collect()
}

#[test]
fn sorting_orders_by_value() {
    let mut v = nums(&[(1, 2), (-1, 3), (2, 3), (1, 4), (0, 1), (-5, 2), (7, 3)]);
    sort_by_value(&mut v);
    assert_eq!(v, nums(&[(-5, 2), (-1, 3), (0, 1), (1, 4), (1, 2), (2, 3), (7, 3)]));
}

#[test]
fn sorting_keeps_numbers_that_come_more_than_once() {
    let mut v = nums(&[(3, 4), (1, 2), (3, 4), (1, 2), (1, 2)]);
    sort_by_value(&mut v);
    assert_eq!(v, nums(&[(1, 2), (1, 2), (1, 2), (3, 4), (3, 4)]));
}

#[test]
fn sorting_short_vectors() {
    let mut v: Vec<Num> = Vec::new();
    sort_by_value(&mut v);
    assert!(v.is_empty());
    let mut v = nums(&[(5, 7)]);
    sort_by_value(&mut v);
    assert_eq!(v, nums(&[(5, 7)]));
    let mut v = nums(&[(5, 7), (2, 3)]);
    sort_by_value(&mut v);
    assert_eq!(v, nums(&[(2, 3), (5, 7)]));
}

#[test]
fn sorting_compares_without_leaving_64_bits() {
    let mut v = vec![
        Num::new(i64::MAX, i64::MAX - 1),
        Num::new(i64::MAX - 1, i64::MAX - 2),
        Num::from_integer(1),
        Num::new(i64::MIN + 1, i64::MAX),
        Num::from_integer(i64::MIN),
    ];
    sort_by_value(&mut v);
    assert_eq!(
        v,
        vec![
            Num::from_integer(i64::MIN),
            Num::new(i64::MIN + 1, i64::MAX),
            Num::from_integer(1),
            Num::new(i64::MAX, i64::MAX - 1),
            Num::new(i64::MAX - 1, i64::MAX - 2),
        ]
    );
}

#[test]
fn sorting_many_numbers() {
    let mut v: Vec<Num> = Vec::new();
    let mut x: i64 = 12345;
    for _ in 0..2000 {
        x = (x * 1103515245 + 12345) % 2147483648;
        v.push(Num::new(x % 1000 - 500, x % 97 + 1));
    }
    let mut expected = v.clone();
    expected.sort_by(|a, b| (a.numer as i128 * b.denom as i128).cmp(&(b.numer as i128 * a.denom as i128)));
    sort_by_value(&mut v);
    for k in 1..v.len() {
        assert!(v[k - 1].le(&v[k]));
    }
    for k in 0..v.len() {
        assert!(v[k].equals(&expected[k]));
    }
}
