use ant_colony::cities::City;
use ant_colony::cycle::{select_next, Cycle};
use ant_colony::edges::Edges;
use ant_colony::universe::UniverseParams;

fn get_test_data() -> (Vec<City>, Edges) {
    let cities = vec![
        City { x: 0, y: 0 },
        City { x: 1000, y: 0 },
        City { x: 2000, y: 0 },
        City { x: 3000, y: 0 },
        City { x: 4000, y: 0 },
        City { x: 5000, y: 0 },
        City { x: 0, y: 3000 },
    ];
    let edges = Edges::new(&cities);
    (cities, edges)
}

#[test]
fn it_places_one_ant_per_city() {
    let (cities, edges) = get_test_data();
    let cycle = Cycle::new(&edges, &UniverseParams::default());
    assert_eq!(cycle.ants.len(), cities.len());
    let mut seen = vec![false; cities.len()];
    for ant in cycle.ants {
        assert_eq!(ant.tour.len(), 1);
        seen[ant.tour[0]] = true;
    }
    assert!(seen.iter().all(|&seen| seen));
}

#[test]
fn it_applies_time_correctly() {
    let (cities, edges) = get_test_data();
    let mut cycle = Cycle::new(&edges, &UniverseParams::default());
    assert_eq!(cycle.time, 1);
    let more = cycle.tick(&edges);
    assert!(more);
    assert_eq!(cycle.time, 2);
    for ant in &cycle.ants {
        assert_eq!(ant.tour.len(), 2);
        assert_ne!(ant.tour[0], ant.tour[1]);
    }
    assert_eq!(cycle.ants.len(), cities.len());
}

#[test]
fn full_round_makes_every_tour_a_permutation() {
    let (cities, edges) = get_test_data();
    let n = cities.len();
    let mut cycle = Cycle::new(&edges, &UniverseParams::default());
    while cycle.tick(&edges) {}
    assert_eq!(cycle.time, n);
    for ant in &cycle.ants {
        assert_eq!(ant.tour.len(), n);
        let mut seen = vec![false; n];
        for &c in &ant.tour {
            assert!(c < n);
            assert!(!seen[c], "city {} visited twice", c);
            seen[c] = true;
        }
        assert!(seen.iter().all(|&s| s));
        assert!(ant.visited.iter().all(|&v| v));
    }
    // A completed round ticks no further and changes nothing.
    let tours: Vec<Vec<usize>> = cycle.ants.iter().map(|a| a.tour.clone()).collect();
    assert!(!cycle.tick(&edges));
    let tours_after: Vec<Vec<usize>> = cycle.ants.iter().map(|a| a.tour.clone()).collect();
    assert_eq!(tours, tours_after);
}

#[test]
fn complete_returns_closed_tour_and_clears_deltas() {
    let (cities, mut edges) = get_test_data();
    let n = cities.len();
    let cycle = Cycle::new(&edges, &UniverseParams::default());
    let result = cycle.complete(&mut edges);
    assert_eq!(result.shortest_tour.len(), n + 1);
    assert_eq!(result.shortest_tour[0], result.shortest_tour[n]);
    let mut seen = vec![false; n];
    for &c in &result.shortest_tour[..n] {
        assert!(c < n);
        assert!(!seen[c]);
        seen[c] = true;
    }
    assert!(seen.iter().all(|&s| s));
    // The reported length is the exact sum of the legs.
    let mut len = 0u64;
    for w in 0..n {
        len += edges
            .get(result.shortest_tour[w], result.shortest_tour[w + 1])
            .distance;
    }
    assert_eq!(len, result.shortest_length);
    // Decay ran exactly once, after all deposits: every delta is zero.
    for e in &edges.edges {
        assert_eq!(e.trail_delta, 0);
    }
    // Deposits happened: some trail is positive.
    assert!(edges.edges.iter().any(|e| e.trail > 0));
}

#[test]
fn evaluate_returns_the_shortest_agent_tour() {
    let (_cities, mut edges) = get_test_data();
    let mut cycle = Cycle::new(&edges, &UniverseParams::default());
    while cycle.tick(&edges) {}
    // Compute every agent's closed tour length before scoring.
    let mut lengths: Vec<u64> = Vec::new();
    for ant in &cycle.ants {
        let n = ant.tour.len();
        let mut len = 0u64;
        for w in 0..n {
            len += edges.get(ant.tour[w], ant.tour[(w + 1) % n]).distance;
        }
        lengths.push(len);
    }
    let result = cycle.evaluate(&mut edges);
    assert_eq!(result.shortest_length, *lengths.iter().min().unwrap());
    for len in lengths {
        assert!(result.shortest_length <= len);
    }
}

#[test]
fn select_next_follows_cumulative_weights() {
    // A single candidate is always chosen.
    assert_eq!(select_next(&vec![(5, 10)], 0), 5);
    assert_eq!(select_next(&vec![(5, 10)], u64::MAX), 5);
    // Two candidates of equal weight split the draws evenly.
    let cands = vec![(7, 1), (9, 1)];
    assert_eq!(select_next(&cands, 0), 7);
    assert_eq!(select_next(&cands, 1), 9);
    assert_eq!(select_next(&cands, 2), 7);
    assert_eq!(select_next(&cands, 3), 9);
    // The first candidate whose cumulative weight exceeds the target wins.
    let cands = vec![(1, 3), (2, 2), (3, 5)];
    for draw in 0..10 {
        let expect = match draw % 10 {
            0..=2 => 1,
            3..=4 => 2,
            _ => 3,
        };
        assert_eq!(select_next(&cands, draw), expect);
    }
}
