use pos_distribution::animation::calculate_animation;
use pos_distribution::common::{MovementType, ZombieData};
use pos_distribution::engine::{
    calculate_pos_distribution, evaluate, exact_probabilities, test_input, Evaluation, Failure,
};
use pos_distribution::histogram::histogram;
use pos_distribution::mass::Mass;
use pos_distribution::mixture::{
    calculate_dancing, calculate_regular, dancing_last_of, dancing_multiplier_of, scale_masses,
};
use pos_distribution::rational::Num;

fn first_table() -> Vec<Num> {
    vec![Num::new(1, 2), Num::new(3, 2), Num::new(1, 1), Num::new(2, 1)]
}

fn second_table() -> Vec<Num> {
    vec![Num::new(2, 1), Num::new(1, 1), Num::new(1, 2)]
}

fn mixed_entity(movement_type: MovementType, speed: (Num, Num)) -> ZombieData {
    ZombieData {
        spawn: (800, 801),
        spawn_hugewave: (0, 0),
        movement_type: movement_type,
        speed: speed,
        freeze_immune: false,
        chill_immune: false,
        def_x: (0, 0),
        def_y: (0, 0),
        atk: (0, 0),
        hp: 0,
        summon_weight_normal: 0,
        summon_weight_hugewave: 0,
        if_generate_in: (true, false),
        if_generate_in_wave1to5: (true, false),
    }
}

fn sum_of(values: &Vec<Num>) -> Num {
    let mut total = Num::from_integer(0);
    for v in values.iter() {
        total = total.checked_add(v).unwrap();
    }
    total
}

#[test]
fn scaling_multiplies_every_weight() {
    let masses = vec![
        Mass { first: 3, last: 5, weight: Num::new(1, 3) },
        Mass { first: 7, last: 7, weight: Num::new(2, 5) },
    ];
    assert_eq!(
        scale_masses(&masses, &Num::new(3, 4)),
        Some(vec![
            Mass { first: 3, last: 5, weight: Num::new(1, 4) },
            Mass { first: 7, last: 7, weight: Num::new(3, 10) },
        ])
    );
    assert_eq!(scale_masses(&masses, &Num::new(1, i64::MAX)), None);
}

#[test]
fn regular_is_the_average_of_its_two_animations() {
    let speed = (Num::new(1, 1), Num::new(3, 2));
    let data = mixed_entity(MovementType::Regular(first_table(), second_table()), speed);
    let d = calculate_regular(&data, 0, 6).unwrap();
    let a = calculate_animation(&data, 0, 6, &first_table()).unwrap();
    let b = calculate_animation(&data, 0, 6, &second_table()).unwrap();
    assert_eq!(d.masses.len(), a.masses.len() + b.masses.len());
    let half = Num::new(1, 2);
    for (i, m) in a.masses.iter().chain(b.masses.iter()).enumerate() {
        assert_eq!(d.masses[i].first, m.first);
        assert_eq!(d.masses[i].last, m.last);
        assert_eq!(d.masses[i].weight, m.weight.checked_mul(&half).unwrap());
    }
    assert_eq!(d.min, a.min.min(b.min));
    assert_eq!(d.max, a.max.max(b.max));
    let p = exact_probabilities(&d, 2).unwrap();
    let pa = exact_probabilities(&a, 2).unwrap();
    let pb = exact_probabilities(&b, 2).unwrap();
    let two = Num::from_integer(2);
    for cell in 0..880 {
        let mean = pa[cell].checked_add(&pb[cell]).unwrap().checked_div(&two).unwrap();
        assert_eq!(p[cell], mean, "cell {}", cell);
    }
    assert_eq!(sum_of(&p), Num::from_integer(1));
    // the two animations differ
    assert!(pa != pb);
}

#[test]
fn dancing_for_a_short_time_is_an_animation_without_slow_effect() {
    let speed = (Num::new(1, 1), Num::new(3, 2));
    let data = mixed_entity(MovementType::Dancing(first_table()), speed);
    // the effect at 3 leaves 2 frames at normal speed
    let d = calculate_dancing(&data, 3, 500).unwrap();
    let a = calculate_animation(&data, 0, 2, &first_table()).unwrap();
    assert_eq!(d.masses, a.masses);
    assert_eq!(d.min, a.min);
    assert_eq!(d.max, a.max);
}

#[test]
fn dancing_for_a_long_time_mixes_twelve_times() {
    let speed = (Num::new(3, 10), Num::new(3, 10));
    let data = mixed_entity(MovementType::Dancing(first_table()), speed);
    let d = calculate_dancing(&data, 0, 400).unwrap();
    let mut expected: Vec<Mass> = Vec::new();
    let mut low = Num::from_integer(1000);
    let mut high = Num::from_integer(0);
    for norm in 299..=310 {
        let a = calculate_animation(&data, 0, norm, &first_table()).unwrap();
        expected.extend(scale_masses(&a.masses, &Num::new(1, 12)).unwrap());
        low = low.min(a.min);
        high = high.max(a.max);
    }
    assert_eq!(d.masses, expected);
    assert_eq!(d.min, low);
    assert_eq!(d.max, high);
    let totals = histogram(&d.masses, 880).unwrap();
    assert_eq!(sum_of(&totals), Num::new(1, 2));
}

#[test]
fn dancing_gives_the_last_time_what_is_cut_off() {
    let speed = (Num::new(3, 10), Num::new(3, 10));
    let data = mixed_entity(MovementType::Dancing(first_table()), speed);
    let d = calculate_dancing(&data, 0, 301).unwrap();
    let mut expected: Vec<Mass> = Vec::new();
    for (norm, twelfths) in [(299, 1), (300, 1), (301, 10)] {
        let a = calculate_animation(&data, 0, norm, &first_table()).unwrap();
        expected.extend(scale_masses(&a.masses, &Num::new(twelfths, 12)).unwrap());
    }
    assert_eq!(d.masses, expected);
    let totals = histogram(&d.masses, 880).unwrap();
    assert_eq!(sum_of(&totals), Num::new(1, 2));
}

#[test]
fn dancing_changes_at_299() {
    let speed = (Num::new(3, 10), Num::new(3, 10));
    let data = mixed_entity(MovementType::Dancing(first_table()), speed);
    // 298 frames at normal speed: the animation itself
    let d = calculate_dancing(&data, 0, 298).unwrap();
    let a = calculate_animation(&data, 0, 298, &first_table()).unwrap();
    assert_eq!(d.masses, a.masses);
    assert_eq!((d.min, d.max), (a.min, a.max));
    // 299: the one time of the mixture has all twelve twelfths
    let d = calculate_dancing(&data, 0, 299).unwrap();
    let a = calculate_animation(&data, 0, 299, &first_table()).unwrap();
    assert_eq!(d.masses, scale_masses(&a.masses, &Num::from_integer(1)).unwrap());
    assert_eq!((d.min, d.max), (a.min, a.max));
    // 310 and every later time give the same mixture
    let d = calculate_dancing(&data, 0, 310).unwrap();
    let e = calculate_dancing(&data, 0, 311).unwrap();
    let f = calculate_dancing(&data, 0, 2000).unwrap();
    assert_eq!(d.masses, e.masses);
    assert_eq!(d.masses, f.masses);
    assert_eq!((d.min, d.max), (f.min, f.max));
    // 309 gives its last time two twelfths
    let d = calculate_dancing(&data, 0, 309).unwrap();
    let a = calculate_animation(&data, 0, 309, &first_table()).unwrap();
    let tail = scale_masses(&a.masses, &Num::new(2, 12)).unwrap();
    assert_eq!(d.masses[d.masses.len() - tail.len()..], tail[..]);
}

#[test]
fn dancing_counts_only_the_time_at_normal_speed() {
    let speed = (Num::new(3, 10), Num::new(3, 10));
    let data = mixed_entity(MovementType::Dancing(first_table()), speed);
    // the effect at 301 leaves 300 frames at normal speed, whatever comes after
    let d = calculate_dancing(&data, 301, 500).unwrap();
    let e = calculate_dancing(&data, 0, 300).unwrap();
    assert_eq!(d.masses, e.masses);
    assert_eq!((d.min, d.max), (e.min, e.max));
}

#[test]
fn evaluation_goes_by_the_movement_model() {
    let speed = (Num::new(1, 1), Num::new(3, 2));
    let data = mixed_entity(MovementType::Animation(first_table()), speed);
    let a = calculate_animation(&data, 0, 6, &first_table()).unwrap();
    match calculate_pos_distribution(&data, 0, 6) {
        Evaluation::Exact(d) => {
            assert_eq!(d.masses, a.masses);
            assert_eq!((d.min, d.max), (a.min, a.max));
        },
        _ => panic!("not exact"),
    }
    let data = mixed_entity(MovementType::Regular(first_table(), second_table()), speed);
    let r = calculate_regular(&data, 0, 6).unwrap();
    match calculate_pos_distribution(&data, 0, 6) {
        Evaluation::Exact(d) => assert_eq!(d.masses, r.masses),
        _ => panic!("not exact"),
    }
    let data = mixed_entity(MovementType::Dancing(first_table()), speed);
    let r = calculate_dancing(&data, 0, 6).unwrap();
    match calculate_pos_distribution(&data, 0, 6) {
        Evaluation::Exact(d) => assert_eq!(d.masses, r.masses),
        _ => panic!("not exact"),
    }
    let data = mixed_entity(MovementType::Constant, (Num::new(23, 100), Num::new(37, 100)));
    match calculate_pos_distribution(&data, 0, 50) {
        Evaluation::Exact(d) => {
            assert_eq!(d.masses.len(), 3);
            assert_eq!(d.max, Num::new(808449, 1024));
        },
        _ => panic!("not exact"),
    }
}

#[test]
fn models_in_floating_point_are_not_evaluated() {
    let speed = (Num::new(1, 1), Num::new(3, 2));
    let data = mixed_entity(MovementType::DanceCheat, speed);
    assert!(matches!(calculate_pos_distribution(&data, 0, 6), Evaluation::Inexact));
    let data = mixed_entity(MovementType::Zomboni, speed);
    assert!(matches!(calculate_pos_distribution(&data, 0, 6), Evaluation::Inexact));
}

#[test]
fn evaluation_that_leaves_64_bits_says_so() {
    let data = mixed_entity(MovementType::Constant, (Num::new(1, 4), Num::new(i64::MAX / 16384, 1)));
    assert!(matches!(
        calculate_pos_distribution(&data, 0, 1_000_000),
        Evaluation::Unrepresentable
    ));
}

#[test]
fn dancing_multipliers_add_up_to_twelve() {
    for norm_time in [299, 300, 305, 309, 310, 311, 5000] {
        let last = dancing_last_of(norm_time);
        assert_eq!(last, norm_time.min(310));
        let total: i64 = (299..=last).map(|norm| dancing_multiplier_of(norm, norm_time)).sum();
        assert_eq!(total, 12, "at {}", norm_time);
    }
    assert_eq!(dancing_multiplier_of(299, 299), 12);
    assert_eq!(dancing_multiplier_of(299, 300), 1);
    assert_eq!(dancing_multiplier_of(300, 300), 11);
    assert_eq!(dancing_multiplier_of(310, 310), 1);
    assert_eq!(dancing_multiplier_of(310, 400), 1);
    assert_eq!(dancing_last_of(100), 100);
}

#[test]
fn input_in_the_domain_is_evaluated() {
    let speed = (Num::new(1, 1), Num::new(3, 2));
    let data = mixed_entity(MovementType::Animation(first_table()), speed);
    assert_eq!(test_input(&data, 0, 6), Ok(()));
    let d = evaluate(&data, 0, 6).ok().unwrap();
    let a = calculate_animation(&data, 0, 6, &first_table()).unwrap();
    assert_eq!(d.masses, a.masses);
    assert_eq!((d.min, d.max), (a.min, a.max));
    let data = mixed_entity(MovementType::Constant, (Num::new(-1, 2), Num::new(1, 4)));
    assert_eq!(test_input(&data, 0, 6), Ok(()));
    assert!(evaluate(&data, 0, 6).is_ok());
}

#[test]
fn input_out_of_the_domain_is_refused() {
    let speed = (Num::new(1, 1), Num::new(3, 2));
    let good = || mixed_entity(MovementType::Animation(first_table()), speed);
    assert_eq!(test_input(&good(), -1, 6), Err(Failure::OutOfDomain));
    assert_eq!(test_input(&good(), 0, -6), Err(Failure::OutOfDomain));
    assert_eq!(evaluate(&good(), 0, -6).err(), Some(Failure::OutOfDomain));
    // an empty range of spawn positions
    let mut data = good();
    data.spawn = (801, 800);
    assert_eq!(test_input(&data, 0, 6), Err(Failure::OutOfDomain));
    let mut data = good();
    data.spawn = (0, i64::MAX);
    assert_eq!(test_input(&data, 0, 6), Err(Failure::OutOfDomain));
    // an empty range of speeds
    let mut data = good();
    data.speed = (Num::new(3, 2), Num::new(1, 1));
    assert_eq!(test_input(&data, 0, 6), Err(Failure::OutOfDomain));
    // a number that is not in lowest terms
    let mut data = good();
    data.speed = (Num { numer: 2, denom: 2 }, Num::new(3, 2));
    assert_eq!(test_input(&data, 0, 6), Err(Failure::OutOfDomain));
    let mut data = good();
    data.speed = (Num { numer: -1, denom: -1 }, Num::new(3, 2));
    assert_eq!(test_input(&data, 0, 6), Err(Failure::OutOfDomain));
    let data = mixed_entity(
        MovementType::Animation(vec![Num { numer: 2, denom: 4 }, Num::new(1, 1)]),
        speed,
    );
    assert_eq!(test_input(&data, 0, 6), Err(Failure::OutOfDomain));
    // a negative speed with a table
    let data = mixed_entity(
        MovementType::Animation(first_table()),
        (Num::new(-1, 2), Num::new(3, 2)),
    );
    assert_eq!(test_input(&data, 0, 6), Err(Failure::OutOfDomain));
    // a table that is empty, or stands still, or goes backwards
    let data = mixed_entity(MovementType::Dancing(vec![]), speed);
    assert_eq!(test_input(&data, 0, 6), Err(Failure::OutOfDomain));
    let data = mixed_entity(MovementType::Dancing(vec![Num::new(1, 2), Num::new(-1, 2)]), speed);
    assert_eq!(test_input(&data, 0, 6), Err(Failure::OutOfDomain));
    let data = mixed_entity(MovementType::Animation(vec![Num::new(-1, 2)]), speed);
    assert_eq!(test_input(&data, 0, 6), Err(Failure::OutOfDomain));
    let data = mixed_entity(MovementType::Regular(first_table(), vec![]), speed);
    assert_eq!(test_input(&data, 0, 6), Err(Failure::OutOfDomain));
    let data = mixed_entity(MovementType::Regular(vec![], first_table()), speed);
    assert_eq!(evaluate(&data, 0, 6).err(), Some(Failure::OutOfDomain));
}

#[test]
fn input_is_told_from_what_leaves_64_bits() {
    let speed = (Num::new(1, 1), Num::new(3, 2));
    let large = vec![Num::new(i64::MAX, 1), Num::new(i64::MAX, 1)];
    let data = mixed_entity(MovementType::Animation(large.clone()), speed);
    assert_eq!(test_input(&data, 0, 6), Err(Failure::Unrepresentable));
    assert_eq!(evaluate(&data, 0, 6).err(), Some(Failure::Unrepresentable));
    let data = mixed_entity(MovementType::Regular(large.clone(), first_table()), speed);
    assert_eq!(test_input(&data, 0, 6), Err(Failure::Unrepresentable));
    // a table that is not in the domain counts before one that is too large
    let data = mixed_entity(MovementType::Regular(large, vec![]), speed);
    assert_eq!(test_input(&data, 0, 6), Err(Failure::OutOfDomain));
    // the input is good, the evaluation leaves 64 bits
    let data = mixed_entity(MovementType::Constant, (Num::new(1, 4), Num::new(i64::MAX / 16384, 1)));
    assert_eq!(test_input(&data, 0, 1_000_000), Ok(()));
    assert_eq!(evaluate(&data, 0, 1_000_000).err(), Some(Failure::Unrepresentable));
    let data = mixed_entity(MovementType::Zomboni, speed);
    assert_eq!(test_input(&data, 0, -6), Err(Failure::Inexact));
    assert_eq!(evaluate(&data, 0, 6).err(), Some(Failure::Inexact));
    let data = mixed_entity(MovementType::DanceCheat, speed);
    assert_eq!(evaluate(&data, 0, 6).err(), Some(Failure::Inexact));
}
