use pos_distribution::common::MovementType;
use pos_distribution::parse::{decimal_to_rational, parse_animation, parse_regular};
use pos_distribution::rational::Num;
use pos_distribution::record::{convert_zombie_data, RawZombieData};

fn record(movement_type: &str, movement_args: Option<&str>) -> RawZombieData {
    RawZombieData {
        name: "Regular".to_string(),
        spawn_l: 780,
        spawn_r: 819,
        spawn_hugewave_l: 820,
        spawn_hugewave_r: 859,
        movement_type: movement_type.to_string(),
        movement_args: movement_args.map(|a| a.to_string()),
        speed_l: "0.23".to_string(),
        speed_r: "0.37".to_string(),
        freeze_immune: false,
        chill_immune: true,
        defx_l: 20,
        defx_r: 70,
        defy_l: 0,
        defy_r: 115,
        atk_l: 10,
        atk_r: 50,
        hp: 270,
        summon_weight_normal: 4000,
        summon_weight_hugewave: 0,
        on_ground: true,
        in_pool: false,
        in_pool_wave1to5: true,
    }
}

#[test]
fn decimals_are_read_exactly() {
    assert_eq!(decimal_to_rational("0.37"), Some(Num { numer: 37, denom: 100 }));
    assert_eq!(decimal_to_rational("0.25"), Some(Num { numer: 1, denom: 4 }));
    assert_eq!(decimal_to_rational("12.5"), Some(Num { numer: 25, denom: 2 }));
    assert_eq!(decimal_to_rational("3.000"), Some(Num { numer: 3, denom: 1 }));
    assert_eq!(decimal_to_rational("0.0001"), Some(Num { numer: 1, denom: 10000 }));
    assert_eq!(decimal_to_rational("+1.5"), Some(Num { numer: 3, denom: 2 }));
}

#[test]
fn negative_decimals_keep_their_sign_below_one() {
    assert_eq!(decimal_to_rational("-0.5"), Some(Num { numer: -1, denom: 2 }));
    assert_eq!(decimal_to_rational("-9.8"), Some(Num { numer: -49, denom: 5 }));
    assert_eq!(decimal_to_rational("-0.0"), Some(Num { numer: 0, denom: 1 }));
}

#[test]
fn integers_and_fractions_are_read() {
    assert_eq!(decimal_to_rational("40"), Some(Num { numer: 40, denom: 1 }));
    assert_eq!(decimal_to_rational("-7"), Some(Num { numer: -7, denom: 1 }));
    assert_eq!(decimal_to_rational("+7"), Some(Num { numer: 7, denom: 1 }));
    assert_eq!(decimal_to_rational("3/8"), Some(Num { numer: 3, denom: 8 }));
    assert_eq!(decimal_to_rational("6/-8"), Some(Num { numer: -3, denom: 4 }));
    assert_eq!(
        decimal_to_rational("-9223372036854775808"),
        Some(Num { numer: i64::MIN, denom: 1 })
    );
}

#[test]
fn malformed_numbers_are_refused() {
    assert_eq!(decimal_to_rational(""), None);
    assert_eq!(decimal_to_rational("-"), None);
    assert_eq!(decimal_to_rational("."), None);
    assert_eq!(decimal_to_rational("1."), None);
    assert_eq!(decimal_to_rational(".5"), None);
    assert_eq!(decimal_to_rational("-.5"), None);
    assert_eq!(decimal_to_rational("1.2.3"), None);
    assert_eq!(decimal_to_rational("1,5"), None);
    assert_eq!(decimal_to_rational(" 1"), None);
    assert_eq!(decimal_to_rational("1e3"), None);
    assert_eq!(decimal_to_rational("abc"), None);
    assert_eq!(decimal_to_rational("3/0"), None);
    assert_eq!(decimal_to_rational("3/"), None);
    assert_eq!(decimal_to_rational("1/2/3"), None);
    assert_eq!(decimal_to_rational("½"), None);
}

#[test]
fn numbers_beyond_64_bits_are_refused() {
    assert_eq!(decimal_to_rational("9223372036854775808"), None);
    assert_eq!(decimal_to_rational("-9223372036854775809"), None);
    assert_eq!(decimal_to_rational("99999999999999999999999"), None);
    assert_eq!(decimal_to_rational("1.0000000000000000000"), None);
    assert_eq!(decimal_to_rational("922337203685477580.8"), None);
    assert_eq!(
        decimal_to_rational("922337203685477580.7"),
        Some(Num { numer: i64::MAX, denom: 10 })
    );
    assert_eq!(
        decimal_to_rational("1.000000000000000000"),
        Some(Num { numer: 1, denom: 1 })
    );
    assert_eq!(decimal_to_rational("-9223372036854775808/-1"), None);
}

#[test]
fn table_is_the_steps_between_positions() {
    assert_eq!(
        parse_animation("0,1.5,3.7,3.7,10"),
        Some(vec![Num::new(3, 2), Num::new(11, 5), Num::new(0, 1), Num::new(63, 10)])
    );
    assert_eq!(parse_animation("5,4.5"), Some(vec![Num::new(-1, 2)]));
}

#[test]
fn table_of_one_position_has_no_step() {
    assert_eq!(parse_animation("7.5"), Some(vec![]));
}

#[test]
fn malformed_table_is_refused() {
    assert_eq!(parse_animation(""), None);
    assert_eq!(parse_animation("1,,2"), None);
    assert_eq!(parse_animation("1,2,"), None);
    assert_eq!(parse_animation(",1"), None);
    assert_eq!(parse_animation("1;2"), None);
    assert_eq!(parse_animation("1, 2"), None);
    assert_eq!(parse_animation("-9223372036854775808,1"), None);
}

#[test]
fn two_tables_are_split_at_the_semicolon() {
    assert_eq!(
        parse_regular("0,1,3;10,10.5"),
        Some((vec![Num::new(1, 1), Num::new(2, 1)], vec![Num::new(1, 2)]))
    );
}

#[test]
fn malformed_pair_of_tables_is_refused() {
    assert_eq!(parse_regular("0,1,3"), None);
    assert_eq!(parse_regular("0,1;"), None);
    assert_eq!(parse_regular(";0,1"), None);
    assert_eq!(parse_regular("0,1;2,3;4,5"), None);
}

#[test]
fn record_without_table() {
    let z = convert_zombie_data(record("constant", None)).unwrap();
    assert!(matches!(z.movement_type, MovementType::Constant));
    assert_eq!(z.spawn, (780, 819));
    assert_eq!(z.spawn_hugewave, (820, 859));
    assert_eq!(z.speed, (Num::new(23, 100), Num::new(37, 100)));
    assert!(!z.freeze_immune);
    assert!(z.chill_immune);
    assert_eq!(z.def_x, (20, 70));
    assert_eq!(z.def_y, (0, 115));
    assert_eq!(z.atk, (10, 50));
    assert_eq!(z.hp, 270);
    assert_eq!(z.summon_weight_normal, 4000);
    assert_eq!(z.summon_weight_hugewave, 0);
    assert_eq!(z.if_generate_in, (true, false));
    assert_eq!(z.if_generate_in_wave1to5, (true, true));
    let z = convert_zombie_data(record("constant", Some("not read"))).unwrap();
    assert!(matches!(z.movement_type, MovementType::Constant));
    let z = convert_zombie_data(record("dancecheat", None)).unwrap();
    assert!(matches!(z.movement_type, MovementType::DanceCheat));
    let z = convert_zombie_data(record("zomboni", None)).unwrap();
    assert!(matches!(z.movement_type, MovementType::Zomboni));
}

#[test]
fn record_with_tables() {
    let z = convert_zombie_data(record("animation", Some("0,1,3"))).unwrap();
    match z.movement_type {
        MovementType::Animation(t) => assert_eq!(t, vec![Num::new(1, 1), Num::new(2, 1)]),
        _ => panic!("not an animation"),
    }
    let z = convert_zombie_data(record("dancing", Some("0,0.5"))).unwrap();
    match z.movement_type {
        MovementType::Dancing(t) => assert_eq!(t, vec![Num::new(1, 2)]),
        _ => panic!("not dancing"),
    }
    let z = convert_zombie_data(record("regular", Some("0,1,3;10,10.5"))).unwrap();
    match z.movement_type {
        MovementType::Regular(a, b) => {
            assert_eq!(a, vec![Num::new(1, 1), Num::new(2, 1)]);
            assert_eq!(b, vec![Num::new(1, 2)]);
        },
        _ => panic!("not regular"),
    }
}

#[test]
fn record_that_cannot_be_read_is_refused() {
    assert!(convert_zombie_data(record("flying", None)).is_none());
    assert!(convert_zombie_data(record("Constant", None)).is_none());
    assert!(convert_zombie_data(record("animation", None)).is_none());
    assert!(convert_zombie_data(record("regular", Some("0,1,3"))).is_none());
    assert!(convert_zombie_data(record("dancing", Some("0,x"))).is_none());
    let mut raw = record("constant", None);
    raw.speed_l = "fast".to_string();
    assert!(convert_zombie_data(raw).is_none());
    let mut raw = record("constant", None);
    raw.speed_r = "".to_string();
    assert!(convert_zombie_data(raw).is_none());
}
