use tsp_solver::distance::{build_distance_matrix, distance};
use tsp_solver::heuristics::{nearest_neighbor, three_opt, two_opt};
use tsp_solver::models::{tour_distance, City, TspInstance};

fn city(id: usize, x: i64, y: i64) -> City {
    City { id, x, y }
}

fn instance(coords: &[(i64, i64)]) -> TspInstance {
    TspInstance {
        name: String::from("test"),
        depot: city(0, coords[0].0, coords[0].1),
        cities: coords[1..]
            .iter()
            .enumerate()
            .map(|(p, &(x, y))| city(p + 1, x, y))
            .collect(),
    }
}

/// The unit square, in fixed-point units of 1/1000: depot (0,0), then
/// cities (0,1), (1,1), (1,0).
fn square() -> TspInstance {
    instance(&[(0, 0), (0, 1000), (1000, 1000), (1000, 0)])
}

/// An instance whose 2-opt optimum is not 3-opt optimal.
fn seven_cities() -> TspInstance {
    instance(&[
        (0, 0),
        (3500, 4500),
        (3500, 500),
        (500, 2000),
        (3500, 5000),
        (500, 0),
        (2000, 5000),
        (4500, 5000),
    ])
}

#[test]
fn distance_exact_values() {
    let o = city(0, 0, 0);
    assert_eq!(distance(&o, &city(1, 3, 4)), 5);
    // sqrt(2) = 1.414... rounds down
    assert_eq!(distance(&o, &city(1, 1, 1)), 1);
    // sqrt(8) = 2.828... rounds up
    assert_eq!(distance(&o, &city(1, 2, 2)), 3);
    // sqrt(5) = 2.236... rounds down
    assert_eq!(distance(&o, &city(1, 1, 2)), 2);
    assert_eq!(distance(&o, &city(1, 0, -7)), 7);
    assert_eq!(distance(&o, &o), 0);
}

#[test]
fn distance_symmetric() {
    let a = city(0, -123, 456);
    let b = city(1, 789, -12);
    assert_eq!(distance(&a, &b), distance(&b, &a));
}

#[test]
fn matrix_symmetric_zero_diagonal() {
    let inst = seven_cities();
    let d = build_distance_matrix(&inst);
    let n = inst.cities.len() + 1;
    assert_eq!(d.len(), n);
    for i in 0..n {
        assert_eq!(d[i].len(), n);
        assert_eq!(d[i][i], 0);
        for j in 0..n {
            assert_eq!(d[i][j], d[j][i]);
        }
    }
}

#[test]
fn matrix_square_values() {
    let inst = square();
    let d = build_distance_matrix(&inst);
    assert_eq!(d[0][1], 1000);
    assert_eq!(d[0][3], 1000);
    // the diagonal of the unit square: sqrt(2) scaled
    assert_eq!(d[0][2], 1414);
    assert_eq!(d[1][3], 1414);
}

#[test]
fn empty_instance() {
    let inst = instance(&[(0, 0)]);
    let d = build_distance_matrix(&inst);
    let mut tour = nearest_neighbor(&inst, &d);
    assert_eq!(tour, vec![0, 0]);
    assert_eq!(tour_distance(&tour, &d), 0);
    two_opt(&mut tour, &d);
    assert_eq!(tour, vec![0, 0]);
    three_opt(&mut tour, &d);
    assert_eq!(tour, vec![0, 0]);
}

#[test]
fn square_scenario() {
    let inst = square();
    let d = build_distance_matrix(&inst);
    let mut tour = nearest_neighbor(&inst, &d);
    // ties broken to the lowest index: city 1 (distance 1000) beats
    // city 3 (also 1000) and city 2 (1414)
    assert_eq!(tour, vec![0, 1, 2, 3, 0]);
    two_opt(&mut tour, &d);
    // the perimeter is already 2-opt optimal: exactly 4.0 scaled
    assert_eq!(tour, vec![0, 1, 2, 3, 0]);
    assert_eq!(tour_distance(&tour, &d), 4000);
    three_opt(&mut tour, &d);
    assert_eq!(tour_distance(&tour, &d), 4000);
}

#[test]
fn two_opt_uncrosses() {
    let inst = square();
    let d = build_distance_matrix(&inst);
    // a crossed tour over the square: both diagonals are used
    let mut tour = vec![0, 2, 1, 3, 0];
    let before = tour_distance(&tour, &d);
    assert_eq!(before, 4828);
    two_opt(&mut tour, &d);
    let after = tour_distance(&tour, &d);
    assert!(after <= before);
    assert_eq!(after, 4000);
    assert_eq!(tour, vec![0, 1, 2, 3, 0]);
}

#[test]
fn two_opt_never_increases() {
    let inst = seven_cities();
    let d = build_distance_matrix(&inst);
    let mut tour = nearest_neighbor(&inst, &d);
    let before = tour_distance(&tour, &d);
    assert_eq!(before, 19239);
    two_opt(&mut tour, &d);
    let after = tour_distance(&tour, &d);
    assert!(after <= before);
    assert_eq!(after, 16648);
}

#[test]
fn two_opt_idempotent() {
    let inst = seven_cities();
    let d = build_distance_matrix(&inst);
    let mut tour = nearest_neighbor(&inst, &d);
    two_opt(&mut tour, &d);
    let settled = tour.clone();
    let len = tour_distance(&tour, &d);
    two_opt(&mut tour, &d);
    assert_eq!(tour, settled);
    assert_eq!(tour_distance(&tour, &d), len);
}

#[test]
fn three_opt_improves_two_opt_optimum() {
    let inst = seven_cities();
    let d = build_distance_matrix(&inst);
    let mut tour = nearest_neighbor(&inst, &d);
    two_opt(&mut tour, &d);
    // confirm 2-opt local optimality: a rerun changes nothing
    let settled = tour.clone();
    two_opt(&mut tour, &d);
    assert_eq!(tour, settled);
    let len2 = tour_distance(&tour, &d);
    assert_eq!(len2, 16648);
    three_opt(&mut tour, &d);
    let len3 = tour_distance(&tour, &d);
    // a pure 3-opt reconnection shortens the 2-opt optimum further
    assert!(len3 < len2);
    assert_eq!(len3, 16575);
}

#[test]
fn three_opt_never_increases() {
    let inst = seven_cities();
    let d = build_distance_matrix(&inst);
    let mut tour = nearest_neighbor(&inst, &d);
    let before = tour_distance(&tour, &d);
    three_opt(&mut tour, &d);
    assert!(tour_distance(&tour, &d) <= before);
}

#[test]
fn three_opt_idempotent() {
    let inst = seven_cities();
    let d = build_distance_matrix(&inst);
    let mut tour = nearest_neighbor(&inst, &d);
    two_opt(&mut tour, &d);
    three_opt(&mut tour, &d);
    let settled = tour.clone();
    let len = tour_distance(&tour, &d);
    three_opt(&mut tour, &d);
    assert_eq!(tour, settled);
    assert_eq!(tour_distance(&tour, &d), len);
}

#[test]
fn tours_are_permutations() {
    let inst = seven_cities();
    let d = build_distance_matrix(&inst);
    let n = inst.cities.len();
    let mut tour = nearest_neighbor(&inst, &d);
    check_permutation(&tour, n);
    two_opt(&mut tour, &d);
    check_permutation(&tour, n);
    three_opt(&mut tour, &d);
    check_permutation(&tour, n);
}

fn check_permutation(tour: &[usize], n: usize) {
    assert_eq!(tour.len(), n + 2);
    assert_eq!(tour[0], 0);
    assert_eq!(tour[n + 1], 0);
    let mut interior: Vec<usize> = tour[1..=n].to_vec();
    interior.sort();
    let expected: Vec<usize> = (1..=n).collect();
    assert_eq!(interior, expected);
}

#[test]
fn tour_distance_counts_every_edge() {
    let inst = square();
    let d = build_distance_matrix(&inst);
    let tour = vec![0, 2, 0];
    assert_eq!(tour_distance(&tour, &d), 2828);
    let single = vec![0];
    assert_eq!(tour_distance(&single, &d), 0);
}

#[test]
fn solve_square() {
    let (tour, len) = tsp_solver::heuristics::solve(&square());
    assert_eq!(tour, vec![0, 1, 2, 3, 0]);
    assert_eq!(len, 4000);
}

#[test]
fn solve_seven_cities() {
    let (tour, len) = tsp_solver::heuristics::solve(&seven_cities());
    assert_eq!(tour, vec![0, 5, 2, 1, 7, 4, 6, 3, 0]);
    assert_eq!(len, 16575);
}
