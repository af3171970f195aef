use ant_colony::cities::City;
use ant_colony::parameters::Parameters;
use ant_colony::universe::{ConfigError, Universe, UniverseParams};

fn small_params(max_cycles: usize) -> UniverseParams {
    UniverseParams {
        max_cycles,
        ..UniverseParams::default()
    }
}

fn triangle_cities() -> Vec<City> {
    vec![
        City { x: 0, y: 0 },
        City { x: 1000, y: 0 },
        City { x: 0, y: 1000 },
    ]
}

#[test]
fn parameter_defaults() {
    let p = Parameters::default();
    assert_eq!(p.trail_importance, 1);
    assert_eq!(p.distance_importance, 5);
    assert_eq!(p.distance_constant, 100000);
    assert_eq!(p.trail_decay, 500);
    assert_eq!(p.max_cycles, 500);

    let u = UniverseParams::default();
    assert_eq!(u.trail_importance, 1);
    assert_eq!(u.distance_importance, 5);
    assert_eq!(u.distance_constant, 100000);
    assert_eq!(u.trail_decay, 500);
    assert_eq!(u.max_cycles, 500);
}

#[test]
fn triangle_solves_to_optimum() {
    // The unique closed tour over three cities at the corners of a right
    // triangle has length 1 + 1 + sqrt(2), which is 3414 milli-units.
    let mut universe = Universe::new(triangle_cities(), small_params(3)).unwrap();
    let result = universe.solve();
    assert_eq!(result.shortest_length, 3414);
    assert_eq!(result.shortest_tour.len(), 4);
    assert_eq!(result.shortest_tour[0], result.shortest_tour[3]);
}

#[test]
fn one_cycle_visits_every_city_exactly_once() {
    let cities = vec![
        City { x: 0, y: 0 },
        City { x: 5000, y: 1000 },
        City { x: -2000, y: 4000 },
        City { x: 1000, y: -3000 },
        City { x: 2500, y: 2500 },
    ];
    let n = cities.len();
    let mut universe = Universe::new(cities, small_params(1)).unwrap();
    let (result, done) = universe.run_cycle();
    assert!(done);
    assert_eq!(result.shortest_tour.len(), n + 1);
    assert_eq!(result.shortest_tour[0], result.shortest_tour[n]);
    let mut seen = vec![false; n];
    for &c in &result.shortest_tour[..n] {
        assert!(c < n);
        assert!(!seen[c]);
        seen[c] = true;
    }
    assert!(seen.iter().all(|&s| s));
    // The reported length is consistent with the distance store.
    let mut len = 0u64;
    for w in 0..n {
        len += universe
            .edges
            .get(result.shortest_tour[w], result.shortest_tour[w + 1])
            .distance;
    }
    assert_eq!(len, result.shortest_length);
}

#[test]
fn solver_tracks_the_best_round() {
    let mut universe = Universe::new(triangle_cities(), small_params(5)).unwrap();
    let mut done = false;
    let mut rounds = 0;
    while !done {
        let (result, d) = universe.run_cycle();
        assert_eq!(result.shortest_length, 3414);
        done = d;
        rounds += 1;
    }
    assert_eq!(rounds, 5);
    assert_eq!(universe.cycles_done, 5);
    let best = universe.best.as_ref().unwrap();
    assert_eq!(best.shortest_length, 3414);
}

#[test]
fn too_few_cities_is_rejected() {
    let r = Universe::new(vec![City { x: 0, y: 0 }], small_params(1));
    assert_eq!(r.err().unwrap(), ConfigError::TooFewCities);
    let r = Universe::new(vec![], small_params(1));
    assert_eq!(r.err().unwrap(), ConfigError::TooFewCities);
}

#[test]
fn too_many_cities_is_rejected() {
    let cities = vec![City { x: 0, y: 0 }; 40001];
    let r = Universe::new(cities, small_params(1));
    assert_eq!(r.err().unwrap(), ConfigError::TooManyCities);
}

#[test]
fn out_of_range_coordinate_is_rejected() {
    let mut cities = triangle_cities();
    cities[1].x = 2000000000;
    let r = Universe::new(cities, small_params(1));
    assert_eq!(r.err().unwrap(), ConfigError::CoordinateOutOfRange);
}

#[test]
fn zero_distance_constant_is_rejected() {
    let mut p = small_params(1);
    p.distance_constant = 0;
    let r = Universe::new(triangle_cities(), p);
    assert_eq!(r.err().unwrap(), ConfigError::InvalidDistanceConstant);
}

#[test]
fn decay_above_one_is_rejected() {
    let mut p = small_params(1);
    p.trail_decay = 1001;
    let r = Universe::new(triangle_cities(), p);
    assert_eq!(r.err().unwrap(), ConfigError::InvalidTrailDecay);
}

#[test]
fn zero_cycle_budget_is_rejected() {
    let r = Universe::new(triangle_cities(), small_params(0));
    assert_eq!(r.err().unwrap(), ConfigError::InvalidMaxCycles);
}

#[test]
fn coincident_cities_are_admissible() {
    // Two cities may share a position: the edge has distance zero and the
    // engine still produces a closed tour.
    let cities = vec![
        City { x: 500, y: 500 },
        City { x: 500, y: 500 },
        City { x: 500, y: 500 },
    ];
    let mut universe = Universe::new(cities, small_params(1)).unwrap();
    let result = universe.solve();
    assert_eq!(result.shortest_length, 0);
    assert_eq!(result.shortest_tour.len(), 4);
    assert_eq!(result.shortest_tour[0], result.shortest_tour[3]);
}

#[test]
fn read_accessors_expose_cities_and_trails() {
    let cities = triangle_cities();
    let mut universe = Universe::new(cities.clone(), small_params(2)).unwrap();
    assert_eq!(universe.get_cities().len(), cities.len());
    for (a, b) in universe.get_cities().iter().zip(cities.iter()) {
        assert_eq!(a.x, b.x);
        assert_eq!(a.y, b.y);
    }
    let trails = universe.get_trails();
    assert_eq!(trails.len(), 3);
    assert!(trails.iter().all(|&t| t == 0));
    universe.solve();
    let trails = universe.get_trails();
    assert_eq!(trails.len(), 3);
    // Pheromone was deposited and decayed; all trails stay non-negative
    // and some are positive.
    assert!(trails.iter().any(|&t| t > 0));
}
