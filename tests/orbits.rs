use planet_position::catalog::{get_planet_by_name, get_planets, select_planets};
use planet_position::instant::{parse_date_str, REFERENCE_EPOCH_SECONDS};
use planet_position::planet::Distance;
use planet_position::{Instant, OrbitError, Planet};

fn au(d: Distance) -> f64 {
    d.mantissa as f64 / 2f64.powi(d.shift as i32)
}

const NAMES: [&str; 8] = [
    "Mercury", "Venus", "Earth", "Mars", "Jupiter", "Saturn", "Uranus", "Neptune",
];

fn date(text: &str) -> Instant {
    parse_date_str(text.to_string(), 0).unwrap()
}

#[test]
fn catalog_lists_the_eight_planets_in_order() {
    let planets = get_planets();
    assert_eq!(planets.len(), 8);
    for (planet, name) in planets.iter().zip(NAMES.iter()) {
        assert_eq!(planet.name, *name);
        assert_eq!(planet.ref_date.seconds, REFERENCE_EPOCH_SECONDS);
    }
}

#[test]
fn angular_speed_is_360_over_period() {
    let expected: [u64; 8] = [
        4092350714456, 1602129051495, 985610092647, 524032722932, 83091176409, 33459736783,
        11731294695, 5981056995,
    ];
    for (planet, want) in get_planets().iter().zip(expected.iter()) {
        let speed = planet.get_angular_speed();
        assert_eq!(speed, *want);
        let exact = 360.0 / (planet.period as f64 / 1000.0);
        let got = speed as f64 / 1e12;
        assert!(((got - exact) / exact).abs() < 1e-9);
    }
}

#[test]
fn years_are_period_over_year_length() {
    let expected: [u64; 8] = [
        240842039555818, 615187703966533, 1000000000000000, 1880817837352432, 11861790086952712,
        29456600302253761, 84015457651619685, 164788614013185272,
    ];
    for (planet, want) in get_planets().iter().zip(expected.iter()) {
        assert_eq!(planet.get_years(), *want);
        let exact = (planet.period as f64 / 1000.0) / 365.256;
        let got = planet.get_years() as f64 / 1e15;
        assert!(((got - exact) / exact).abs() < 1e-12);
    }
}

#[test]
fn earth_takes_one_year_and_lies_at_one_au() {
    let earth = get_planet_by_name("Earth".to_string()).unwrap();
    assert_eq!(earth.get_years(), 1_000_000_000_000_000);
    assert_eq!(earth.get_au(), Distance { mantissa: 1 << 41, shift: 41 });
}

#[test]
fn distance_follows_keplers_third_law() {
    let expected: [(u64, u32); 8] = [
        (3404954747644, 43),
        (3181253290194, 42),
        (2199023255552, 41),
        (3350639048665, 41),
        (2859367568761, 39),
        (2621771972689, 38),
        (2636428338755, 37),
        (4131058137142, 37),
    ];
    for (planet, want) in get_planets().iter().zip(expected.iter()) {
        let distance = planet.get_au();
        assert_eq!((distance.mantissa, distance.shift), *want);
        let years = (planet.period as f64 / 1000.0) / 365.256;
        let exact = years.powf(2.0).cbrt();
        assert!(((au(distance) - exact) / exact).abs() < 1e-12);
        assert!(((au(distance).powi(3) - years.powi(2)) / years.powi(2)).abs() < 1e-9);
    }
}

#[test]
fn distance_is_precise_at_the_extremes() {
    for (period, mantissa, shift) in [
        (1u32, 3525506556530u64, 54u32),
        (4_000_000_000, 4236087724795, 33),
        (4_000_000_001, 4236087725501, 33),
        (u32::MAX, 2220929960712, 32),
    ] {
        let body = Planet::new("Far".to_string(), 0, period).unwrap();
        assert_eq!(body.get_au(), Distance { mantissa, shift });
    }
}

#[test]
fn distance_and_period_grow_outward() {
    let planets = get_planets();
    for pair in planets.windows(2) {
        assert!(pair[0].period < pair[1].period);
        assert!(pair[0].get_years() < pair[1].get_years());
        let (a, b) = (pair[0].get_au(), pair[1].get_au());
        assert!(((a.mantissa as u128) << b.shift) < ((b.mantissa as u128) << a.shift));
    }
    let near = Planet::new("Near".to_string(), 0, 4_000_000_000).unwrap().get_au();
    let far = Planet::new("Far".to_string(), 0, 4_000_000_001).unwrap().get_au();
    assert!(((near.mantissa as u128) << far.shift) < ((far.mantissa as u128) << near.shift));
}

#[test]
fn position_stays_within_a_full_turn() {
    let dates = [
        "1950-06-15", "1999-12-31", "2000-01-01", "2000-01-02", "2024-02-29", "2049-12-31",
    ];
    for planet in get_planets().iter() {
        for text in dates.iter() {
            let position = planet.get_position_at_date(date(text));
            assert!(0 <= position && position < 360_000_000);
        }
        for seconds in [i64::MIN, -1, 0, i64::MAX] {
            let position = planet.get_position_at_date(Instant { seconds });
            assert!(0 <= position && position < 360_000_000);
        }
    }
}

#[test]
fn position_is_repeatable() {
    for planet in get_planets().iter() {
        let when = date("2031-07-04");
        assert_eq!(planet.get_position_at_date(when), planet.get_position_at_date(when));
    }
}

#[test]
fn position_at_reference_epoch_is_zero() {
    let body = Planet::new("TestBody".to_string(), 100_000_000, 365_256).unwrap();
    assert_eq!(body.get_position_at_date(date("2000-01-01")), 0);
    assert_eq!(body.get_position_at_date(Instant::reference_epoch()), 0);
}

#[test]
fn position_multiplies_longitude_by_angle_traversed() {
    let body = Planet::new("TestBody".to_string(), 100_000_000, 365_256).unwrap();
    assert_eq!(body.get_position_at_date(date("2000-01-02")), 98_561_009);
    assert_eq!(body.get_position_at_date(date("1999-12-31")), 261_438_991);
    let mercury = get_planet_by_name("Mercury".to_string()).unwrap();
    assert_eq!(mercury.get_position_at_date(date("2020-01-01")), 274_416_669);
    let west = Planet::new("West".to_string(), -5_000_000, 365_256).unwrap();
    assert_eq!(west.get_position_at_date(date("2000-01-11")), 310_719_496);
}

#[test]
fn position_counts_whole_days_only() {
    let body = Planet::new("TestBody".to_string(), 100_000_000, 365_256).unwrap();
    let epoch = REFERENCE_EPOCH_SECONDS;
    assert_eq!(body.get_position_at_date(Instant { seconds: epoch + 86_399 }), 0);
    assert_eq!(body.get_position_at_date(Instant { seconds: epoch + 86_400 }), 98_561_009);
    assert_eq!(body.get_position_at_date(Instant { seconds: epoch - 1 }), 261_438_991);
}

#[test]
fn new_refuses_a_zero_period() {
    assert_eq!(
        Planet::new("Nothing".to_string(), 0, 0).err(),
        Some(OrbitError::InvalidParameter)
    );
    let p = Planet::new("Vulcan".to_string(), -1, 1).unwrap();
    assert_eq!(p.name, "Vulcan");
    assert_eq!(p.mean_longitude, -1);
    assert_eq!(p.period, 1);
    assert_eq!(p.ref_date.seconds, REFERENCE_EPOCH_SECONDS);
}

#[test]
fn lookup_finds_earth() {
    let earth = get_planet_by_name("Earth".to_string()).unwrap();
    assert_eq!(earth.name, "Earth");
    assert_eq!(earth.period, 365_256);
    assert_eq!(earth.mean_longitude, 100_000_000);
    let au = au(earth.get_au());
    let years = earth.get_years() as f64 / 1e15;
    assert!((au - 1.0).abs() < 1e-9);
    assert!((years - 1.0).abs() < 1e-9);
}

#[test]
fn lookup_of_unknown_planet_fails() {
    assert_eq!(
        get_planet_by_name("Pluto".to_string()).err(),
        Some(OrbitError::PlanetNotFound)
    );
    assert_eq!(
        get_planet_by_name("earth".to_string()).err(),
        Some(OrbitError::PlanetNotFound)
    );
}

#[test]
fn invalid_calendar_date_is_refused() {
    assert_eq!(
        parse_date_str("2020-13-45".to_string(), 0).err(),
        Some(OrbitError::DateParseError("2020-13-45".to_string()))
    );
    assert_eq!(
        parse_date_str("yesterday".to_string(), 0).err(),
        Some(OrbitError::DateParseError("yesterday".to_string()))
    );
}

#[test]
fn calendar_dates_read_as_midnight_utc() {
    assert_eq!(date("2000-01-01").seconds, 946_684_800);
    assert_eq!(date("1970-01-01").seconds, 0);
    assert_eq!(date("1969-12-31").seconds, -86_400);
    assert_eq!(date("2020-01-01").seconds, 1_577_836_800);
}

#[test]
fn now_is_the_given_instant() {
    let now = parse_date_str("now".to_string(), 1_700_000_000).unwrap();
    assert_eq!(now.seconds, 1_700_000_000);
}

#[test]
fn positions_mirror_about_the_reference_date() {
    for planet in get_planets().iter() {
        for k in [1i64, 2, 365, 7305, 18262] {
            let after = planet.get_position_at_date(Instant { seconds: REFERENCE_EPOCH_SECONDS + k * 86_400 });
            let before = planet.get_position_at_date(Instant { seconds: REFERENCE_EPOCH_SECONDS - k * 86_400 });
            assert_eq!(before, (360_000_000 - after) % 360_000_000);
        }
    }
}

#[test]
fn day_numbers_map_to_midnight() {
    assert_eq!(Instant::from_day_number(730_120).seconds, 946_684_800);
    assert_eq!(Instant::from_day_number(719_163).seconds, 0);
    assert_eq!(Instant::from_day_number(1).seconds, -62_135_596_800);
}

#[test]
fn selector_all_gives_every_planet() {
    let all = select_planets("all".to_string()).unwrap();
    assert_eq!(all.len(), 8);
    let mars = select_planets("Mars".to_string()).unwrap();
    assert_eq!(mars.len(), 1);
    assert_eq!(mars[0].name, "Mars");
    assert_eq!(
        select_planets("Pluto".to_string()).err(),
        Some(OrbitError::PlanetNotFound)
    );
}
