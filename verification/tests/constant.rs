use pos_distribution::common::{MovementType, ZombieData};
use pos_distribution::constant::{calculate_constant, speed_ticks, spread};
use pos_distribution::engine::exact_probabilities;
use pos_distribution::mass::Mass;
use pos_distribution::rational::Num;

fn constant_entity(spawn: (i64, i64), speed: (Num, Num), freeze_immune: bool) -> ZombieData {
    ZombieData {
        spawn: spawn,
        spawn_hugewave: (0, 0),
        movement_type: MovementType::Constant,
        speed: speed,
        freeze_immune: freeze_immune,
        chill_immune: false,
        def_x: (0, 0),
        def_y: (0, 0),
        atk: (0, 0),
        hp: 0,
        summon_weight_normal: 0,
        summon_weight_hugewave: 0,
        if_generate_in: (true, false),
        if_generate_in_wave1to5: (true, false),
    }
}

#[test]
fn speed_is_rounded_to_ticks() {
    // 0.23 * 16384 = 3768.32 and 0.23 * 0.4 * 16384 = 1507.328
    assert_eq!(speed_ticks(&Num::new(23, 100)), Some((3768, 1507)));
    // 0.37 * 16384 = 6062.08 and 0.37 * 0.4 * 16384 = 2424.832
    assert_eq!(speed_ticks(&Num::new(37, 100)), Some((6062, 2425)));
    // half-way cases are rounded away from zero
    assert_eq!(speed_ticks(&Num::new(1, 32768)), Some((1, 0)));
    assert_eq!(speed_ticks(&Num::new(-1, 32768)), Some((-1, 0)));
}

#[test]
fn speed_that_cannot_be_scaled_is_refused() {
    assert_eq!(speed_ticks(&Num::new(i64::MAX, 1)), None);
}

#[test]
fn spread_within_one_cell_keeps_the_whole_weight() {
    let w = Num::new(1, 3);
    // 1.25 and 1.75 cells: both in the second cell below the spawn position
    let got = spread(10, 20480, 28672, &w).unwrap();
    assert_eq!(got, vec![Mass { first: 8, last: 8, weight: w }]);
}

#[test]
fn spread_over_cells_is_split_by_overlap() {
    let w = Num::new(1, 1);
    // from 0.5 to 3.25 cells: the cells entered are 1, 2, 3 and 4
    let got = spread(10, 8192, 53248, &w).unwrap();
    assert_eq!(
        got,
        vec![
            Mass { first: 6, last: 6, weight: Num::new(1, 11) },
            Mass { first: 9, last: 9, weight: Num::new(2, 11) },
            Mass { first: 7, last: 8, weight: Num::new(4, 11) },
        ]
    );
}

#[test]
fn spread_that_ends_on_a_cell_border_fills_the_last_cell() {
    let w = Num::new(1, 1);
    // from 1 to 2 cells: everything lies in the second cell
    let got = spread(700, 16384, 32768, &w).unwrap();
    assert_eq!(
        got,
        vec![
            Mass { first: 698, last: 698, weight: Num::new(1, 1) },
            Mass { first: 699, last: 699, weight: Num::new(0, 1) },
            Mass { first: 699, last: 698, weight: Num::new(1, 1) },
        ]
    );
}

#[test]
fn constant_without_slow_effect() {
    let data = constant_entity((100, 102), (Num::new(23, 100), Num::new(37, 100)), false);
    let d = calculate_constant(&data, 0, 50).unwrap();
    assert_eq!(
        d.masses,
        vec![
            Mass { first: 83, last: 83, weight: Num { numer: 2047, denom: 86025 } },
            Mass { first: 90, last: 90, weight: Num { numer: 684, denom: 28675 } },
            Mass { first: 84, last: 89, weight: Num { numer: 4096, denom: 86025 } },
        ]
    );
    assert_eq!(d.min, Num { numer: 333825, denom: 4096 });
    assert_eq!(d.max, Num { numer: 92673, denom: 1024 });
}

#[test]
fn constant_probabilities_add_up_to_one() {
    let data = constant_entity((100, 102), (Num::new(23, 100), Num::new(37, 100)), false);
    let d = calculate_constant(&data, 0, 50).unwrap();
    let p = exact_probabilities(&d, 3).unwrap();
    assert_eq!(p.len(), 880);
    let expected: Vec<(usize, Num)> = vec![
            (81, Num { numer: 2047, denom: 86025 }),
            (82, Num { numer: 6143, denom: 86025 }),
            (83, Num { numer: 3413, denom: 28675 }),
            (84, Num { numer: 4096, denom: 28675 }),
            (85, Num { numer: 4096, denom: 28675 }),
            (86, Num { numer: 4096, denom: 28675 }),
            (87, Num { numer: 4096, denom: 28675 }),
            (88, Num { numer: 10244, denom: 86025 }),
            (89, Num { numer: 6148, denom: 86025 }),
            (90, Num { numer: 684, denom: 28675 }),
        ];
    let mut total = Num::from_integer(0);
    for cell in 0..880 {
        let want = expected.iter().find(|e| e.0 == cell).map(|e| e.1).unwrap_or(Num::from_integer(0));
        assert_eq!(p[cell], want, "cell {}", cell);
        total = total.checked_add(&p[cell]).unwrap();
    }
    assert_eq!(total, Num::from_integer(1));
}

#[test]
fn constant_bounds_hold_every_cell_with_probability() {
    let data = constant_entity((100, 102), (Num::new(23, 100), Num::new(37, 100)), false);
    let d = calculate_constant(&data, 0, 50).unwrap();
    let p = exact_probabilities(&d, 3).unwrap();
    let low = d.min.floor();
    let high = d.max.ceil();
    assert_eq!((low, high), (81, 91));
    assert!(Num::from_integer(0).le(&d.min) && d.min.le(&d.max));
    assert!(d.max.le(&Num::from_integer(879)));
    for cell in 0..880 {
        if (cell as i64) < low || (cell as i64) > high {
            assert_eq!(p[cell], Num::from_integer(0), "cell {}", cell);
        }
    }
}

#[test]
fn constant_with_slow_effect_weights_the_shortest_time() {
    // the effect at 1 leaves from 0 to 51 slowed frames at 450: the 150
    // lengths of the freeze that outlast 450 all leave none
    let data = constant_entity((800, 810), (Num::new(23, 100), Num::new(37, 100)), false);
    let d = calculate_constant(&data, 1, 450).unwrap();
    assert_eq!(d.masses.len(), 136);
    assert_eq!(d.masses[0], Mass { first: 810, last: 810, weight: Num { numer: 50, denom: 737 } });
    assert_eq!(d.masses[1], Mass { first: 809, last: 809, weight: Num { numer: 1, denom: 2211 } });
    assert_eq!(d.masses[135], Mass { first: 803, last: 804, weight: Num { numer: 8192, denom: 51757299 } });
    assert_eq!(d.min, Num { numer: 12983525, denom: 16384 });
    assert_eq!(d.max, Num { numer: 810, denom: 1 });
    let mut total = Num::from_integer(0);
    for m in d.masses.iter() {
        let cells = Num::from_integer(m.last - m.first + 1);
        total = total.checked_add(&m.weight.checked_mul(&cells).unwrap()).unwrap();
    }
    assert_eq!(total, Num::new(1, 11));
}

#[test]
fn constant_freeze_immune_has_one_slowed_time() {
    // an entity that cannot be frozen is slowed from the first frame on
    let data = constant_entity((800, 810), (Num::new(23, 100), Num::new(37, 100)), true);
    let d = calculate_constant(&data, 1, 450).unwrap();
    assert_eq!(
        d.masses,
        vec![
            Mass { first: 743, last: 743, weight: Num { numer: 1651, denom: 757350 } },
            Mass { first: 768, last: 768, weight: Num { numer: 1663, denom: 757350 } },
            Mass { first: 744, last: 767, weight: Num { numer: 4096, denom: 1136025 } },
        ]
    );
    assert_eq!(d.min, Num { numer: 6007975, denom: 8192 });
    assert_eq!(d.max, Num { numer: 6296445, denom: 8192 });
}

#[test]
fn constant_at_time_zero_stays_at_spawn() {
    let data = constant_entity((5, 6), (Num::new(1, 4), Num::new(1, 2)), false);
    let d = calculate_constant(&data, 0, 0).unwrap();
    assert_eq!(d.masses, vec![Mass { first: 6, last: 6, weight: Num::new(1, 2) }]);
    assert_eq!(d.min, Num::from_integer(5));
    assert_eq!(d.max, Num::from_integer(6));
}

#[test]
fn constant_that_leaves_64_bits_is_refused() {
    let data = constant_entity((0, 0), (Num::new(1, 4), Num::new(i64::MAX / 16384, 1)), false);
    assert!(calculate_constant(&data, 0, 1_000_000).is_none());
}

fn checksum_of(masses: &Vec<Mass>) -> u64 {
    let p: i128 = (1 << 61) - 1;
    let mut h: i128 = 0;
    for m in masses.iter() {
        for part in [m.first, m.last, m.weight.numer, m.weight.denom] {
            h = (h * 1000003 + (part as i128).rem_euclid(p)) % p;
        }
    }
    h as u64
}

#[test]
fn constant_over_a_long_time() {
    // normal speed for 299, then from 602 to 802 slowed frames
    let data = constant_entity((780, 819), (Num::new(23, 100), Num::new(37, 100)), false);
    let d = calculate_constant(&data, 300, 1500).unwrap();
    assert_eq!(d.masses.len(), 603);
    assert_eq!(d.masses[0], Mass { first: 619, last: 619, weight: Num { numer: 2993, denom: 2489469420 } });
    assert_eq!(d.masses[602], Mass { first: 590, last: 675, weight: Num { numer: 1024, denom: 714626355 } });
    assert_eq!(checksum_of(&d.masses), 575581772192327465);
    assert_eq!(d.min, Num { numer: 2255533, denom: 4096 });
    assert_eq!(d.max, Num { numer: 5692325, denom: 8192 });
}
