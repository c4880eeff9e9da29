use pos_distribution::common::{MovementType, ZombieData};
use pos_distribution::rational::Num;
use pos_distribution::timing::{calc_time, chill_multiplier_of, chill_time_min, chill_weight_of};

fn entity(freeze_immune: bool, chill_immune: bool) -> ZombieData {
    ZombieData {
        spawn: (780, 819),
        spawn_hugewave: (820, 859),
        movement_type: MovementType::Constant,
        speed: (Num::new(23, 100), Num::new(37, 100)),
        freeze_immune: freeze_immune,
        chill_immune: chill_immune,
        def_x: (0, 0),
        def_y: (0, 0),
        atk: (0, 0),
        hp: 0,
        summon_weight_normal: 0,
        summon_weight_hugewave: 0,
        if_generate_in: (true, false),
        if_generate_in_wave1to5: (true, false),
    }
}

#[test]
fn no_effect_means_normal_speed_throughout() {
    assert_eq!(calc_time(&entity(false, false), 0, 1000), (1000, 0));
    assert_eq!(calc_time(&entity(true, false), 0, 0), (0, 0));
}

#[test]
fn effect_after_the_time_does_not_count() {
    assert_eq!(calc_time(&entity(false, false), 1001, 1000), (1000, 0));
    assert_eq!(calc_time(&entity(true, false), 1001, 1000), (1000, 0));
}

#[test]
fn chill_immune_entity_is_never_slowed() {
    assert_eq!(calc_time(&entity(false, true), 300, 1000), (1000, 0));
    assert_eq!(calc_time(&entity(true, true), 300, 1000), (1000, 0));
}

#[test]
fn entity_that_can_be_frozen_loses_the_freeze() {
    // normal for 299, then 701 under the effect, of which 399 do not move
    assert_eq!(calc_time(&entity(false, false), 300, 1000), (299, 302));
    // the effect at the very time of observation
    assert_eq!(calc_time(&entity(false, false), 1000, 1000), (999, 0));
    // still within the time that does not move
    assert_eq!(calc_time(&entity(false, false), 1, 399), (0, 0));
    assert_eq!(calc_time(&entity(false, false), 1, 400), (0, 1));
}

#[test]
fn freeze_immune_entity_is_slowed_at_once() {
    assert_eq!(calc_time(&entity(true, false), 300, 1000), (299, 701));
    assert_eq!(calc_time(&entity(true, false), 1000, 1000), (999, 1));
    assert_eq!(calc_time(&entity(true, false), 1, 1), (0, 1));
}

#[test]
fn effect_ends_after_1999() {
    assert_eq!(calc_time(&entity(true, false), 1, 1999), (0, 1999));
    assert_eq!(calc_time(&entity(true, false), 1, 2000), (1, 1999));
    assert_eq!(calc_time(&entity(true, false), 101, 3000), (1001, 1999));
    assert_eq!(calc_time(&entity(false, false), 1, 1999), (0, 1600));
    assert_eq!(calc_time(&entity(false, false), 1, 2000), (1, 1600));
    assert_eq!(calc_time(&entity(false, false), 101, 3000), (1001, 1600));
}

#[test]
fn shortest_slowed_time() {
    assert_eq!(chill_time_min(false, 0), 0);
    assert_eq!(chill_time_min(false, 150), 0);
    assert_eq!(chill_time_min(false, 200), 0);
    assert_eq!(chill_time_min(false, 201), 1);
    assert_eq!(chill_time_min(false, 1600), 1400);
    assert_eq!(chill_time_min(true, 150), 150);
    assert_eq!(chill_time_min(true, 1999), 1999);
}

#[test]
fn weights_of_the_slowed_times() {
    // 150 possible times: the shortest has the 51 lengths of the freeze that outlast the effect
    assert_eq!(chill_weight_of(0, 0, 150, 1), Some(Num::new(51, 201)));
    assert_eq!(chill_weight_of(1, 0, 150, 1), Some(Num::new(1, 201)));
    assert_eq!(chill_weight_of(150, 0, 150, 1), Some(Num::new(1, 201)));
    // all 201 times are possible
    assert_eq!(chill_weight_of(1400, 1400, 1600, 40), Some(Num::new(1, 8040)));
    assert_eq!(chill_weight_of(1500, 1400, 1600, 40), Some(Num::new(1, 8040)));
    // a single time
    assert_eq!(chill_weight_of(700, 700, 700, 3), Some(Num::new(1, 3)));
}

#[test]
fn weights_add_up_to_one_spawn_position() {
    let mut total = Num::from_integer(0);
    for chill in 0..=150 {
        total = total.checked_add(&chill_weight_of(chill, 0, 150, 40).unwrap()).unwrap();
    }
    assert_eq!(total, Num::new(1, 40));
}

#[test]
fn weight_that_leaves_64_bits_is_refused() {
    assert_eq!(chill_weight_of(1, 0, 150, i64::MAX), None);
    // 201 / (201 * span) is 1 / span
    assert_eq!(chill_weight_of(0, 0, 0, i64::MAX), Some(Num::new(1, i64::MAX)));
}

#[test]
fn multipliers_of_the_slowed_times() {
    assert_eq!(chill_multiplier_of(0, 0, 150), 51);
    assert_eq!(chill_multiplier_of(1, 0, 150), 1);
    assert_eq!(chill_multiplier_of(150, 0, 150), 1);
    assert_eq!(chill_multiplier_of(1400, 1400, 1600), 1);
    assert_eq!(chill_multiplier_of(700, 700, 700), 201);
    let total: i64 = (0..=150).map(|c| chill_multiplier_of(c, 0, 150)).sum();
    assert_eq!(total, 201);
}
