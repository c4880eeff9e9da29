use pos_distribution::histogram::{add_range, histogram, prefix_sum, spread_over_spawns};
use pos_distribution::mass::Mass;
use pos_distribution::rational::Num;

fn zeros(cells: usize) -> Vec<Num> {
    vec![Num::from_integer(0); cells]
}

fn integers(values: &[i64]) -> Vec<Num> {
    values.iter().map(|v| Num::from_integer(*v)).collect()
}

#[test]
fn two_ranges_and_their_running_sums() {
    let mut array = zeros(10);
    assert!(add_range(&mut array, 2, 5, &Num::from_integer(3)));
    assert!(add_range(&mut array, 5, 7, &Num::from_integer(-1)));
    assert_eq!(array, integers(&[0, 0, 3, 0, 0, -4, 0, 1, 0, 0]));
    assert!(prefix_sum(&mut array));
    assert_eq!(array, integers(&[0, 0, 3, 3, 3, -1, -1, 0, 0, 0]));
    // a second pass folds the totals into cumulative form
    assert!(prefix_sum(&mut array));
    assert_eq!(array, integers(&[0, 0, 3, 6, 9, 8, 7, 7, 7, 7]));
}

#[test]
fn range_beyond_the_array_lasts_to_its_end() {
    let mut array = zeros(6);
    assert!(add_range(&mut array, 4, 6, &Num::new(1, 2)));
    assert!(add_range(&mut array, 1, 900, &Num::new(1, 3)));
    assert_eq!(
        array,
        vec![
            Num::from_integer(0),
            Num::new(1, 3),
            Num::from_integer(0),
            Num::from_integer(0),
            Num::new(1, 2),
            Num::from_integer(0),
        ]
    );
    assert!(prefix_sum(&mut array));
    assert_eq!(
        array,
        vec![
            Num::from_integer(0),
            Num::new(1, 3),
            Num::new(1, 3),
            Num::new(1, 3),
            Num::new(5, 6),
            Num::new(5, 6),
        ]
    );
}

#[test]
fn empty_range_adds_nothing() {
    let mut array = integers(&[1, 2, 3]);
    assert!(add_range(&mut array, 1, 1, &Num::from_integer(5)));
    assert_eq!(array, integers(&[1, 2, 3]));
}

#[test]
fn add_range_that_leaves_64_bits_changes_nothing() {
    let mut array = integers(&[0, i64::MAX, i64::MIN]);
    assert!(!add_range(&mut array, 1, 2, &Num::from_integer(1)));
    assert_eq!(array, integers(&[0, i64::MAX, i64::MIN]));
    assert!(!add_range(&mut array, 0, 2, &Num::from_integer(1)));
    assert_eq!(array, integers(&[0, i64::MAX, i64::MIN]));
    assert!(add_range(&mut array, 0, 1, &Num::from_integer(1)));
    assert_eq!(array, integers(&[1, i64::MAX - 1, i64::MIN]));
}

#[test]
fn prefix_sum_that_leaves_64_bits_changes_nothing() {
    let mut array = integers(&[1, i64::MAX, -5]);
    assert!(!prefix_sum(&mut array));
    assert_eq!(array, integers(&[1, i64::MAX, -5]));
}

#[test]
fn prefix_sum_of_nothing() {
    let mut array: Vec<Num> = Vec::new();
    assert!(prefix_sum(&mut array));
    assert!(array.is_empty());
}

#[test]
fn histogram_adds_the_masses_of_each_cell() {
    let masses = vec![
        Mass { first: 2, last: 4, weight: Num::new(1, 4) },
        Mass { first: 4, last: 4, weight: Num::new(1, 8) },
        Mass { first: 5, last: 4, weight: Num::new(1, 2) },
        Mass { first: 0, last: 0, weight: Num::new(1, 8) },
        Mass { first: 7, last: 7, weight: Num::new(1, 16) },
    ];
    let got = histogram(&masses, 8).unwrap();
    assert_eq!(
        got,
        vec![
            Num::new(1, 8),
            Num::from_integer(0),
            Num::new(1, 4),
            Num::new(1, 4),
            Num::new(3, 8),
            Num::from_integer(0),
            Num::from_integer(0),
            Num::new(1, 16),
        ]
    );
}

#[test]
fn histogram_that_leaves_64_bits_is_refused() {
    let masses = vec![
        Mass { first: 1, last: 1, weight: Num::new(1, i64::MAX) },
        Mass { first: 1, last: 1, weight: Num::new(1, i64::MAX - 1) },
    ];
    assert_eq!(histogram(&masses, 3), None);
}

#[test]
fn spawn_positions_spread_the_totals_downwards() {
    let totals = integers(&[0, 0, 0, 4, 2, 0, 1]);
    assert_eq!(spread_over_spawns(&totals, 1), Some(integers(&[0, 0, 0, 4, 2, 0, 1])));
    assert_eq!(spread_over_spawns(&totals, 2), Some(integers(&[0, 0, 4, 6, 2, 1, 1])));
    assert_eq!(spread_over_spawns(&totals, 3), Some(integers(&[0, 4, 6, 6, 3, 1, 1])));
    assert_eq!(spread_over_spawns(&totals, 100), Some(integers(&[7, 7, 7, 7, 3, 1, 1])));
    assert_eq!(spread_over_spawns(&totals, 0), Some(integers(&[0, 0, 0, 0, 0, 0, 0])));
}

#[test]
fn spread_that_leaves_64_bits_is_refused() {
    let totals = integers(&[i64::MAX, 1]);
    assert_eq!(spread_over_spawns(&totals, 1), Some(integers(&[i64::MAX, 1])));
    assert_eq!(spread_over_spawns(&totals, 2), None);
}
