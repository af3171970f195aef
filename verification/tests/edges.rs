use ant_colony::cities::City;
use ant_colony::edges::Edges;

fn get_test_cities() -> Vec<City> {
    vec![
        City { x: 0, y: 0 },
        City { x: 1000, y: 0 },
        City { x: 2000, y: 0 },
        City { x: 3000, y: 0 },
        City { x: 4000, y: 0 },
        City { x: 5000, y: 0 },
        City { x: 0, y: 3000 },
    ]
}

#[test]
fn it_has_correct_shape() {
    let cities = get_test_cities();
    for multiple in 1..10 {
        let size = multiple * cities.len();
        let cities: Vec<City> = cities.iter().cycle().take(size).copied().collect();
        let edges = Edges::new(&cities);
        assert_eq!(edges.n_cities, size);
        // One packed slot per unordered pair.
        assert_eq!(edges.edges.len(), size * (size - 1) / 2);
        for i in 0..size {
            assert_eq!(edges.adjacent(i).len(), size - 1);
        }
    }
}

#[test]
fn it_is_symmetric_matrix() {
    let cities = get_test_cities();
    let edges = Edges::new(&cities);
    for i in 0..edges.n_cities {
        for j in 0..edges.n_cities {
            if i != j {
                assert_eq!(edges.get(i, j).distance, edges.get(j, i).distance);
            }
        }
    }
}

#[test]
fn edge_index_is_a_bijection() {
    let cities = get_test_cities();
    let edges = Edges::new(&cities);
    let n = edges.n_cities;
    let mut seen = vec![false; n * (n - 1) / 2];
    for i in 0..n {
        for j in 0..i {
            let slot = edges.edge_index(i, j);
            assert_eq!(slot, i * (i - 1) / 2 + j);
            assert_eq!(slot, edges.edge_index(j, i));
            assert!(slot < seen.len());
            assert!(!seen[slot], "two pairs share slot {}", slot);
            seen[slot] = true;
        }
    }
    assert!(seen.iter().all(|&s| s));
}

#[test]
fn trails_start_at_zero() {
    let cities = get_test_cities();
    let edges = Edges::new(&cities);
    for e in &edges.edges {
        assert_eq!(e.trail, 0);
        assert_eq!(e.trail_delta, 0);
    }
}

#[test]
fn adjacent_lists_neighbours_in_order() {
    let cities = get_test_cities();
    let edges = Edges::new(&cities);
    let adj = edges.adjacent(3);
    let indices: Vec<usize> = adj.iter().map(|&(j, _)| j).collect();
    assert_eq!(indices, vec![0, 1, 2, 4, 5, 6]);
    for &(j, e) in &adj {
        assert_eq!(e.distance, edges.get(3, j).distance);
    }
}

#[test]
fn decay_arithmetic_is_exact() {
    // Two cities are enough for a single edge.
    let cities = vec![City { x: 0, y: 0 }, City { x: 1000, y: 0 }];
    let mut edges = Edges::new(&cities);

    // Bring the trail to 10.0: deposit 10.0 and decay once.
    edges.add_trail_delta(0, 1, 10000);
    assert_eq!(edges.get(0, 1).trail_delta, 10000);
    assert_eq!(edges.get(0, 1).trail, 0);
    edges.apply_decay(500);
    assert_eq!(edges.get(0, 1).trail, 10000);
    assert_eq!(edges.get(0, 1).trail_delta, 0);

    // Accumulated delta 4.0, decay 0.5: trail becomes 10.0 * 0.5 + 4.0.
    edges.add_trail_delta(0, 1, 4000);
    edges.apply_decay(500);
    assert_eq!(edges.get(0, 1).trail, 9000);
    assert_eq!(edges.get(0, 1).trail_delta, 0);
}

#[test]
fn decay_clears_every_delta() {
    let cities = get_test_cities();
    let mut edges = Edges::new(&cities);
    edges.add_trail_delta(0, 5, 123);
    edges.add_trail_delta(2, 3, 77);
    edges.add_trail_delta(6, 1, 900000);
    edges.apply_decay(250);
    for e in &edges.edges {
        assert_eq!(e.trail_delta, 0);
    }
    // A full decay share erases the whole trail but keeps the deposits.
    edges.add_trail_delta(2, 3, 500);
    edges.apply_decay(1000);
    assert_eq!(edges.get(2, 3).trail, 500);
    assert_eq!(edges.get(3, 2).trail, 500);
}

#[test]
fn deposits_accumulate_per_edge() {
    let cities = get_test_cities();
    let mut edges = Edges::new(&cities);
    edges.add_trail_delta(0, 1, 300);
    edges.add_trail_delta(1, 0, 200);
    assert_eq!(edges.get(0, 1).trail_delta, 500);
    // Other edges are untouched.
    assert_eq!(edges.get(0, 2).trail_delta, 0);
    // Distances are never altered by deposits or decay.
    let d = edges.get(0, 1).distance;
    edges.apply_decay(500);
    assert_eq!(edges.get(0, 1).distance, d);
}
