use ant_colony::cities::City;
use ant_colony::fixed::{isqrt, pow_fixed};

fn city(x: i64, y: i64) -> City {
    City { x, y }
}

#[test]
fn it_calculates_distances_correctly() {
    // Coordinates in milli-units: 1000 is one unit.
    for (a, b, result) in vec![
        ((0, 0), (0, 0), 0),
        ((1000, 0), (0, 0), 1000),
        ((0, 0), (0, 1000), 1000),
        ((-1000, 0), (0, 0), 1000),
        ((10000, 0), (-10000, 0), 20000),
        // One unit right and one unit down: sqrt(2) units, rounded down.
        ((1000, 0), (0, -1000), 1414),
    ] {
        assert_eq!(city(a.0, a.1).distance(&city(b.0, b.1)), result);
    }
}

#[test]
fn distance_is_symmetric_on_samples() {
    let pts = vec![
        city(0, 0),
        city(1000, 0),
        city(-2500, 740),
        city(999999, -999999),
    ];
    for p in &pts {
        for q in &pts {
            assert_eq!(p.distance(q), q.distance(p));
        }
    }
}

#[test]
fn seven_city_distances() {
    // Six collinear cities and one offset city, in milli-units.
    let cities = vec![
        city(0, 0),
        city(1000, 0),
        city(2000, 0),
        city(3000, 0),
        city(4000, 0),
        city(5000, 0),
        city(0, 3000),
    ];
    assert_eq!(cities[0].distance(&cities[5]), 5000);
    assert_eq!(cities[1].distance(&cities[4]), 3000);
    assert_eq!(cities[4].distance(&cities[6]), 5000);
}

#[test]
fn isqrt_exact_values() {
    assert_eq!(isqrt(0), 0);
    assert_eq!(isqrt(1), 1);
    assert_eq!(isqrt(2), 1);
    assert_eq!(isqrt(3), 1);
    assert_eq!(isqrt(4), 2);
    assert_eq!(isqrt(999999), 999);
    assert_eq!(isqrt(1000000), 1000);
    assert_eq!(isqrt(2000000), 1414);
    assert_eq!(isqrt(u64::MAX), 4294967295);
}

#[test]
fn pow_fixed_exact_values() {
    // 2.0 cubed is 8.0 in milli-units.
    assert_eq!(pow_fixed(2000, 3), 8000);
    // Anything to the zeroth power is one.
    assert_eq!(pow_fixed(123456, 0), 1000);
    assert_eq!(pow_fixed(0, 0), 1000);
    // 0.5 squared is 0.25.
    assert_eq!(pow_fixed(500, 2), 250);
    // Saturation instead of overflow.
    assert_eq!(pow_fixed(u64::MAX, 5), u64::MAX);
}
