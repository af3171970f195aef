use ant_colony::cities::City;
use ant_colony::instance::Instance;

fn line_cities() -> Vec<City> {
    vec![
        City { x: 0, y: 0 },
        City { x: 1000, y: 0 },
        City { x: 2000, y: 0 },
        City { x: 3000, y: 0 },
        City { x: 4000, y: 0 },
    ]
}

fn closed_tour_length(inst: &Instance) -> u64 {
    let n = inst.n;
    let mut len = 0u64;
    for w in 0..n {
        let a = inst.tour[w];
        let b = inst.tour[(w + 1) % n];
        len += inst.edges.get(a, b).distance;
    }
    len
}

#[test]
fn combinations_enumerates_the_scan_order() {
    let inst = Instance::new(&line_cities());
    let combs = inst.combinations();
    assert_eq!(combs, vec![(0, 2, 4), (1, 3, 5)]);

    let three = Instance::new(&line_cities()[..3]);
    assert_eq!(three.combinations(), vec![]);
}

#[test]
fn try_combination_applies_an_improving_reversal() {
    // Cities 0 and 1 sit out of order along a line, so the identity tour
    // crosses itself and reversing its first segment improves it.
    let cities = vec![
        City { x: 0, y: 0 },
        City { x: 2000, y: 0 },
        City { x: 1000, y: 0 },
        City { x: 3000, y: 0 },
        City { x: 4000, y: 0 },
    ];
    let mut inst = Instance::new(&cities);
    let before = closed_tour_length(&inst);
    let improved = inst.try_combination(&(0, 2, 4));
    assert!(improved);
    assert_eq!(inst.tour, vec![1, 0, 2, 3, 4]);
    let after = closed_tour_length(&inst);
    assert!(after < before);
}

#[test]
fn try_combination_leaves_a_good_tour_alone() {
    let mut inst = Instance::new(&line_cities());
    for comb in inst.combinations() {
        let improved = inst.try_combination(&comb);
        assert!(!improved);
        assert_eq!(inst.tour, vec![0, 1, 2, 3, 4]);
    }
}

#[test]
fn cycle_reaches_a_terminal_state_that_is_stable() {
    let cities = vec![
        City { x: 0, y: 0 },
        City { x: 2000, y: 0 },
        City { x: 1000, y: 0 },
        City { x: 3000, y: 0 },
        City { x: 4000, y: 0 },
    ];
    let mut inst = Instance::new(&cities);
    let first = inst.cycle();
    assert!(!first.done);
    assert_eq!(first.shortest_tour, inst.tour);
    let mut result = inst.cycle();
    let mut rounds = 0;
    while !result.done {
        result = inst.cycle();
        rounds += 1;
        assert!(rounds < 1000, "local search failed to terminate");
    }
    // The local optimum over collinear cities is the sorted sweep.
    assert_eq!(closed_tour_length(&inst), 8000);
    // Once done is reported, re-invoking the step changes nothing.
    let tour_at_optimum = inst.tour.clone();
    let again = inst.cycle();
    assert!(again.done);
    assert_eq!(inst.tour, tour_at_optimum);
    assert_eq!(again.shortest_tour, tour_at_optimum);
    let third = inst.cycle();
    assert!(third.done);
    assert_eq!(inst.tour, tour_at_optimum);
}

#[test]
fn triangle_local_search_is_optimal_at_once() {
    // Three cities admit no three-cut move; the identity tour is already
    // the unique closed tour, of length 2 + sqrt(2) units.
    let cities = vec![
        City { x: 0, y: 0 },
        City { x: 1000, y: 0 },
        City { x: 0, y: 1000 },
    ];
    let mut inst = Instance::new(&cities);
    let result = inst.cycle();
    assert!(result.done);
    assert_eq!(inst.tour, vec![0, 1, 2]);
    assert_eq!(closed_tour_length(&inst), 3414);
}

#[test]
fn test() {
    // Twenty random cities within a 200 by 200 unit square, as the host
    // binding generates them; run the local search to its terminal state.
    let cities: Vec<City> = (0..20)
        .map(|_| City {
            x: (rand::random::<u64>() % 200000) as i64,
            y: (rand::random::<u64>() % 200000) as i64,
        })
        .collect();
    let mut inst = Instance::new(&cities);
    let start = closed_tour_length(&inst);
    let mut result = inst.cycle();
    while !result.done {
        result = inst.cycle();
    }
    let finish = closed_tour_length(&inst);
    assert!(finish <= start);
    // The terminal tour is still a permutation of all cities.
    let mut seen = vec![false; 20];
    for &c in &inst.tour {
        assert!(!seen[c]);
        seen[c] = true;
    }
    assert!(seen.iter().all(|&s| s));
}
