use pos_distribution::animation::{calculate_animation, empty_bounds, merge_bounds, positions_of};
use pos_distribution::common::{MovementType, ZombieData};
use pos_distribution::cover::cover;
use pos_distribution::engine::exact_probabilities;
use pos_distribution::histogram::histogram;
use pos_distribution::mass::{ExactDistribution, Mass};
use pos_distribution::plan::animation_plan;
use pos_distribution::rational::Num;
use pos_distribution::segment::animation_segment;

fn walk_table() -> Vec<Num> {
    vec![Num::new(1, 2), Num::new(3, 2), Num::new(1, 1), Num::new(2, 1)]
}

fn animated_entity(spawn: (i64, i64), speed: (Num, Num), freeze_immune: bool) -> ZombieData {
    ZombieData {
        spawn: spawn,
        spawn_hugewave: (0, 0),
        movement_type: MovementType::Animation(walk_table()),
        speed: speed,
        freeze_immune: freeze_immune,
        chill_immune: false,
        def_x: (0, 0),
        def_y: (0, 0),
        atk: (0, 0),
        hp: 0,
        summon_weight_normal: 0,
        summon_weight_hugewave: 0,
        if_generate_in: (true, false),
        if_generate_in_wave1to5: (true, false),
    }
}

#[test]
fn cover_splits_a_range_by_cells() {
    let w = Num::new(1, 1);
    // from 0.5 to 3.25 cells
    let got = cover(10, 8192, 53248, &w).unwrap();
    assert_eq!(
        got,
        vec![
            Mass { first: 9, last: 9, weight: Num::new(2, 11) },
            Mass { first: 8, last: 8, weight: Num::new(4, 11) },
            Mass { first: 7, last: 7, weight: Num::new(4, 11) },
            Mass { first: 6, last: 6, weight: Num::new(1, 11) },
        ]
    );
}

#[test]
fn cover_of_a_single_displacement_is_one_cell() {
    let w = Num::new(2, 7);
    let got = cover(10, 8192, 8192, &w).unwrap();
    assert_eq!(got, vec![Mass { first: 9, last: 9, weight: w }]);
    // a whole number of cells is the last point of its cell
    let got = cover(10, 32768, 32768, &w).unwrap();
    assert_eq!(got, vec![Mass { first: 8, last: 8, weight: w }]);
}

#[test]
fn plan_without_slow_effect_halves_the_fractions_of_the_doubled_rates() {
    let data = animated_entity((800, 801), (Num::new(1, 1), Num::new(3, 2)), false);
    let plan = animation_plan(&data, 0, 6, &walk_table()).unwrap();
    assert_eq!((plan.norm_time, plan.chill_time_max), (6, 0));
    assert_eq!(plan.k_min, Num { numer: 47, denom: 250 });
    assert_eq!(plan.k_max, Num { numer: 141, denom: 500 });
    assert_eq!(
        plan.k_segments,
        vec![
            Num { numer: 47, denom: 250 },
            Num { numer: 1, denom: 5 },
            Num { numer: 1, denom: 4 },
            Num { numer: 141, denom: 500 },
        ]
    );
    assert_eq!(plan.spawn, (800, 801));
}

#[test]
fn plan_with_slow_effect_takes_the_fractions_of_the_rates() {
    let data = animated_entity((800, 800), (Num::new(1, 1), Num::new(3, 2)), true);
    let plan = animation_plan(&data, 3, 8, &walk_table()).unwrap();
    assert_eq!((plan.norm_time, plan.chill_time_max), (2, 6));
    assert_eq!(
        plan.k_segments,
        vec![
            Num { numer: 47, denom: 250 },
            Num { numer: 1, denom: 5 },
            Num { numer: 2, denom: 9 },
            Num { numer: 1, denom: 4 },
            Num { numer: 141, denom: 500 },
        ]
    );
}

#[test]
fn segment_walks_the_frames_at_both_ends() {
    let data = animated_entity((800, 800), (Num::new(1, 1), Num::new(3, 2)), true);
    let plan = animation_plan(&data, 3, 8, &walk_table()).unwrap();
    let s = animation_segment(&plan, &walk_table(), &plan.k_segments[1], &plan.k_segments[2])
        .unwrap();
    assert_eq!(
        s.masses,
        vec![
            Mass { first: 799, last: 799, weight: Num { numer: 6500, denom: 28341 } },
            Mass { first: 799, last: 799, weight: Num { numer: 100, denom: 85023 } },
            Mass { first: 798, last: 798, weight: Num { numer: 100, denom: 85023 } },
            Mass { first: 798, last: 798, weight: Num { numer: 100, denom: 85023 } },
            Mass { first: 798, last: 798, weight: Num { numer: 0, denom: 1 } },
            Mass { first: 797, last: 797, weight: Num { numer: 100, denom: 85023 } },
            Mass { first: 797, last: 797, weight: Num { numer: 100, denom: 85023 } },
            Mass { first: 797, last: 797, weight: Num { numer: 100, denom: 85023 } },
        ]
    );
    assert_eq!(s.dx_min, Num { numer: 1, denom: 2 });
    assert_eq!(s.dx_max, Num { numer: 5689, denom: 2048 });
}

#[test]
fn animation_without_slow_effect() {
    let data = animated_entity((800, 801), (Num::new(1, 1), Num::new(3, 2)), false);
    let d = calculate_animation(&data, 0, 6, &walk_table()).unwrap();
    assert_eq!(
        d.masses,
        vec![
            Mass { first: 797, last: 797, weight: Num { numer: 3, denom: 47 } },
            Mass { first: 798, last: 798, weight: Num { numer: 0, denom: 1 } },
            Mass { first: 797, last: 797, weight: Num { numer: 25, denom: 94 } },
            Mass { first: 796, last: 796, weight: Num { numer: 4096, denom: 46201 } },
            Mass { first: 795, last: 795, weight: Num { numer: 3768, denom: 46201 } },
        ]
    );
    assert_eq!(d.min, Num { numer: 6510285, denom: 8192 });
    assert_eq!(d.max, Num { numer: 798, denom: 1 });
}

#[test]
fn animation_with_slow_effect() {
    let data = animated_entity((800, 800), (Num::new(1, 1), Num::new(3, 2)), true);
    let d = calculate_animation(&data, 3, 8, &walk_table()).unwrap();
    assert_eq!(
        d.masses,
        vec![
            Mass { first: 799, last: 799, weight: Num { numer: 390, denom: 3149 } },
            Mass { first: 799, last: 799, weight: Num { numer: 2, denom: 3149 } },
            Mass { first: 798, last: 798, weight: Num { numer: 2, denom: 3149 } },
            Mass { first: 798, last: 798, weight: Num { numer: 2, denom: 3149 } },
            Mass { first: 798, last: 798, weight: Num { numer: 2, denom: 3149 } },
            Mass { first: 797, last: 797, weight: Num { numer: 2, denom: 3149 } },
            Mass { first: 797, last: 797, weight: Num { numer: 2, denom: 3149 } },
            Mass { first: 799, last: 799, weight: Num { numer: 6500, denom: 28341 } },
            Mass { first: 799, last: 799, weight: Num { numer: 100, denom: 85023 } },
            Mass { first: 798, last: 798, weight: Num { numer: 100, denom: 85023 } },
            Mass { first: 798, last: 798, weight: Num { numer: 100, denom: 85023 } },
            Mass { first: 798, last: 798, weight: Num { numer: 0, denom: 1 } },
            Mass { first: 797, last: 797, weight: Num { numer: 100, denom: 85023 } },
            Mass { first: 797, last: 797, weight: Num { numer: 100, denom: 85023 } },
            Mass { first: 797, last: 797, weight: Num { numer: 100, denom: 85023 } },
            Mass { first: 799, last: 799, weight: Num { numer: 8125, denom: 28341 } },
            Mass { first: 799, last: 799, weight: Num { numer: 56875, denom: 169280793 } },
            Mass { first: 798, last: 798, weight: Num { numer: 64000, denom: 56426931 } },
            Mass { first: 798, last: 798, weight: Num { numer: 125, denom: 85023 } },
            Mass { first: 798, last: 798, weight: Num { numer: 398125, denom: 314330031 } },
            Mass { first: 797, last: 797, weight: Num { numer: 64000, denom: 314330031 } },
            Mass { first: 797, last: 797, weight: Num { numer: 125, denom: 85023 } },
            Mass { first: 797, last: 797, weight: Num { numer: 125, denom: 85023 } },
            Mass { first: 797, last: 797, weight: Num { numer: 125, denom: 85023 } },
            Mass { first: 798, last: 798, weight: Num { numer: 1040, denom: 3149 } },
            Mass { first: 798, last: 798, weight: Num { numer: 16, denom: 9447 } },
            Mass { first: 797, last: 797, weight: Num { numer: 16, denom: 9447 } },
            Mass { first: 797, last: 797, weight: Num { numer: 16, denom: 9447 } },
            Mass { first: 797, last: 797, weight: Num { numer: 16384, denom: 18569653 } },
            Mass { first: 796, last: 796, weight: Num { numer: 45200, denom: 55708959 } },
            Mass { first: 796, last: 796, weight: Num { numer: 16, denom: 9447 } },
            Mass { first: 796, last: 796, weight: Num { numer: 16, denom: 9447 } },
        ]
    );
    assert_eq!(d.min, Num { numer: 13043673, denom: 16384 });
    assert_eq!(d.max, Num { numer: 3274875, denom: 4096 });
}

#[test]
fn animation_with_a_single_speed_has_a_single_segment() {
    let data = animated_entity((800, 800), (Num::new(1, 1), Num::new(1, 1)), true);
    let plan = animation_plan(&data, 3, 8, &walk_table()).unwrap();
    assert_eq!(plan.k_segments, vec![Num { numer: 47, denom: 250 }, Num { numer: 47, denom: 250 }]);
    let d = calculate_animation(&data, 3, 8, &walk_table()).unwrap();
    assert_eq!(
        d.masses,
        vec![
            Mass { first: 799, last: 799, weight: Num { numer: 65, denom: 67 } },
            Mass { first: 799, last: 799, weight: Num { numer: 1, denom: 201 } },
            Mass { first: 798, last: 798, weight: Num { numer: 1, denom: 201 } },
            Mass { first: 798, last: 798, weight: Num { numer: 1, denom: 201 } },
            Mass { first: 798, last: 798, weight: Num { numer: 1, denom: 201 } },
            Mass { first: 797, last: 797, weight: Num { numer: 1, denom: 201 } },
            Mass { first: 797, last: 797, weight: Num { numer: 1, denom: 201 } },
        ]
    );
    assert_eq!(d.min, Num { numer: 13066775, denom: 16384 });
    assert_eq!(d.max, Num { numer: 3274875, denom: 4096 });
}

#[test]
fn animation_probabilities_add_up_to_one() {
    let data = animated_entity((800, 801), (Num::new(1, 1), Num::new(3, 2)), false);
    let d = calculate_animation(&data, 0, 6, &walk_table()).unwrap();
    let p = exact_probabilities(&d, 2).unwrap();
    let expected: Vec<(usize, Num)> = vec![
            (794, Num { numer: 3768, denom: 46201 }),
            (795, Num { numer: 8, denom: 47 }),
            (796, Num { numer: 38665, denom: 92402 }),
            (797, Num { numer: 31, denom: 94 }),
        ];
    let mut total = Num::from_integer(0);
    for cell in 0..880 {
        let want = expected.iter().find(|e| e.0 == cell).map(|e| e.1).unwrap_or(Num::from_integer(0));
        assert_eq!(p[cell], want, "cell {}", cell);
        total = total.checked_add(&p[cell]).unwrap();
    }
    assert_eq!(total, Num::from_integer(1));
}

#[test]
fn animation_bounds_hold_every_cell_with_probability() {
    let data = animated_entity((800, 800), (Num::new(1, 1), Num::new(3, 2)), true);
    let d = calculate_animation(&data, 3, 8, &walk_table()).unwrap();
    let p = exact_probabilities(&d, 1).unwrap();
    let expected: Vec<(usize, Num)> = vec![
            (796, Num { numer: 77968, denom: 18569653 }),
            (797, Num { numer: 25361937335, denom: 1853604192807 }),
            (798, Num { numer: 212836323772, denom: 625831091721 }),
            (799, Num { numer: 36227948, denom: 56426931 }),
        ];
    let low = d.min.floor();
    let high = d.max.ceil();
    assert_eq!((low, high), (796, 800));
    assert!(Num::from_integer(0).le(&d.min) && d.min.le(&d.max));
    assert!(d.max.le(&Num::from_integer(879)));
    let mut total = Num::from_integer(0);
    for cell in 0..880 {
        let want = expected.iter().find(|e| e.0 == cell).map(|e| e.1).unwrap_or(Num::from_integer(0));
        assert_eq!(p[cell], want, "cell {}", cell);
        if (cell as i64) < low || (cell as i64) > high {
            assert_eq!(p[cell], Num::from_integer(0), "cell {}", cell);
        }
        total = total.checked_add(&p[cell]).unwrap();
    }
    assert_eq!(total, Num::from_integer(1));
}

#[test]
fn segments_can_be_merged_in_any_order() {
    let data = animated_entity((800, 800), (Num::new(1, 1), Num::new(3, 2)), true);
    let table = walk_table();
    let plan = animation_plan(&data, 3, 8, &table).unwrap();
    let count = plan.k_segments.len() - 1;
    let mut forward: Vec<Mass> = Vec::new();
    let mut forward_bounds = empty_bounds();
    for i in 0..count {
        let s = animation_segment(&plan, &table, &plan.k_segments[i], &plan.k_segments[i + 1])
            .unwrap();
        forward.extend(s.masses.iter().copied());
        forward_bounds = merge_bounds(forward_bounds, (s.dx_min, s.dx_max));
    }
    let mut backward: Vec<Mass> = Vec::new();
    let mut backward_bounds = empty_bounds();
    for i in (0..count).rev() {
        let s = animation_segment(&plan, &table, &plan.k_segments[i], &plan.k_segments[i + 1])
            .unwrap();
        backward.extend(s.masses.iter().copied());
        backward_bounds = merge_bounds((s.dx_min, s.dx_max), backward_bounds);
    }
    assert_eq!(forward_bounds, backward_bounds);
    assert_eq!(histogram(&forward, 880).unwrap(), histogram(&backward, 880).unwrap());
    let whole = calculate_animation(&data, 3, 8, &table).unwrap();
    assert_eq!(forward, whole.masses);
    let d = ExactDistribution { masses: backward, min: whole.min, max: whole.max };
    assert_eq!(exact_probabilities(&d, 1), exact_probabilities(&whole, 1));
}

#[test]
fn bounds_of_no_part_change_nothing() {
    let a = (Num::new(5, 2), Num::new(7, 2));
    assert_eq!(merge_bounds(empty_bounds(), a), a);
    assert_eq!(merge_bounds(a, empty_bounds()), a);
    let b = (Num::new(1, 2), Num::new(3, 1));
    assert_eq!(merge_bounds(a, b), (Num::new(1, 2), Num::new(7, 2)));
    assert_eq!(merge_bounds(b, a), (Num::new(1, 2), Num::new(7, 2)));
}

#[test]
fn plan_that_leaves_64_bits_is_refused() {
    let table = vec![Num::new(i64::MAX, 1), Num::new(i64::MAX, 1)];
    let data = animated_entity((800, 800), (Num::new(1, 1), Num::new(3, 2)), false);
    assert!(animation_plan(&data, 0, 6, &table).is_none());
    assert!(calculate_animation(&data, 0, 6, &table).is_none());
}

#[test]
fn positions_are_spawn_positions_less_displacements() {
    let bounds = (Num::new(5, 2), Num::new(7, 2));
    assert_eq!(positions_of((800, 810), bounds), Some((Num::new(1593, 2), Num::new(1615, 2))));
    assert_eq!(positions_of((0, i64::MAX), (Num::from_integer(-1), Num::from_integer(0))), None);
}

fn checksum(masses: &Vec<Mass>) -> u64 {
    let p: i128 = (1 << 61) - 1;
    let mut h: i128 = 0;
    for m in masses.iter() {
        for part in [m.first, m.last, m.weight.numer, m.weight.denom] {
            h = (h * 1000003 + (part as i128).rem_euclid(p)) % p;
        }
    }
    h as u64
}

#[test]
fn animation_with_more_than_200_slowed_frames() {
    // the effect at 1 leaves from 51 to 251 slowed frames at 650
    let data = animated_entity((800, 801), (Num::new(1, 1), Num::new(101, 100)), false);
    let plan = animation_plan(&data, 1, 650, &walk_table()).unwrap();
    assert_eq!((plan.norm_time, plan.chill_time_max), (0, 251));
    assert_eq!(plan.k_segments.len(), 41);
    assert_eq!(plan.k_segments[1], Num { numer: 22, denom: 117 });
    let d = calculate_animation(&data, 1, 650, &walk_table()).unwrap();
    assert_eq!(d.masses.len(), 8132);
    assert_eq!(d.masses[0], Mass { first: 786, last: 786, weight: Num { numer: 50, denom: 1105299 } });
    assert_eq!(d.masses[1], Mass { first: 785, last: 785, weight: Num { numer: 50, denom: 1105299 } });
    assert_eq!(d.masses[8131], Mass { first: 725, last: 725, weight: Num { numer: 13, denom: 1492626 } });
    assert_eq!(checksum(&d.masses), 1972731932096657757);
    assert_eq!(d.min, Num { numer: 1484071, denom: 2048 });
    assert_eq!(d.max, Num { numer: 12882959, denom: 16384 });
    let mut total = Num::from_integer(0);
    for m in d.masses.iter() {
        total = total.checked_add(&m.weight).unwrap();
    }
    assert_eq!(total, Num::new(1, 2));
}

#[test]
fn animation_of_an_entity_that_can_be_frozen() {
    // the effect at 1 leaves from 0 to 3 slowed frames at 402
    let data = animated_entity((800, 800), (Num::new(2, 1), Num::new(3, 1)), false);
    let d = calculate_animation(&data, 1, 402, &walk_table()).unwrap();
    assert_eq!(
        d.masses,
        vec![
            Mass { first: 800, last: 800, weight: Num { numer: 2046, denom: 3149 } },
            Mass { first: 799, last: 799, weight: Num { numer: 31, denom: 9447 } },
            Mass { first: 799, last: 799, weight: Num { numer: 30473, denom: 47981313 } },
            Mass { first: 798, last: 798, weight: Num { numer: 126976, denom: 47981313 } },
            Mass { first: 798, last: 798, weight: Num { numer: 22537, denom: 10495617 } },
            Mass { first: 797, last: 797, weight: Num { numer: 3968, denom: 3498539 } },
            Mass { first: 800, last: 800, weight: Num { numer: 1056, denom: 3149 } },
            Mass { first: 799, last: 799, weight: Num { numer: 8192, denom: 9286401 } },
            Mass { first: 798, last: 798, weight: Num { numer: 2512, denom: 3095467 } },
            Mass { first: 798, last: 798, weight: Num { numer: 8192, denom: 9286401 } },
            Mass { first: 797, last: 797, weight: Num { numer: 2512, denom: 3095467 } },
            Mass { first: 797, last: 797, weight: Num { numer: 16, denom: 9447 } },
        ]
    );
    assert_eq!(d.min, Num { numer: 13060997, denom: 16384 });
    assert_eq!(d.max, Num { numer: 800, denom: 1 });
}
