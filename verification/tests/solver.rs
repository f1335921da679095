use held_karp::solver::TSPResult;
use held_karp::solver::TSPSolver;

fn solve_matrix(rows: Vec<Vec<i32>>) -> TSPResult {
    let mut solver = TSPSolver::new(rows);
    solver.solve()
}

fn permutations(items: &mut Vec<usize>, k: usize, out: &mut Vec<Vec<usize>>) {
    if k == items.len() {
        out.push(items.clone());
        return;
    }
    for i in k..items.len() {
        items.swap(k, i);
        permutations(items, k + 1, out);
        items.swap(k, i);
    }
}

fn closed_tour_cost(dist: &Vec<Vec<i32>>, order: &Vec<usize>) -> i32 {
    let mut cost = 0;
    let mut prev = 0;
    for &city in order {
        cost += dist[prev][city];
        prev = city;
    }
    cost + dist[prev][0]
}

fn brute_force_minimum(dist: &Vec<Vec<i32>>) -> i32 {
    let n = dist.len();
    let mut rest: Vec<usize> = (1..n).collect();
    let mut orders = Vec::new();
    permutations(&mut rest, 0, &mut orders);
    if orders.is_empty() {
        return dist[0][0];
    }
    orders
        .iter()
        .map(|order| closed_tour_cost(dist, order))
        .min()
        .unwrap()
}

#[test]
fn single_city() {
    let r = solve_matrix(vec![vec![7]]);
    assert_eq!(r.min_cost, 7);
    assert_eq!(r.path, vec![0, 0]);
}

#[test]
fn two_cities() {
    let r = solve_matrix(vec![vec![0, 5], vec![7, 0]]);
    assert_eq!(r.min_cost, 12);
    assert_eq!(r.path, vec![0, 1, 0]);
}

#[test]
fn three_cities_unique_asymmetric_order() {
    // The only cheap cycle is 0 -> 1 -> 2 -> 0 with cost 1 + 1 + 1;
    // the reverse direction costs 30.
    let r = solve_matrix(vec![vec![0, 1, 10], vec![10, 0, 1], vec![1, 10, 0]]);
    assert_eq!(r.min_cost, 3);
    assert_eq!(r.path, vec![0, 1, 2, 0]);
}

#[test]
fn four_cities_symmetric() {
    let dist = vec![
        vec![0, 10, 15, 20],
        vec![10, 0, 35, 25],
        vec![15, 35, 0, 30],
        vec![20, 25, 30, 0],
    ];
    let r = solve_matrix(dist);
    assert_eq!(r.min_cost, 80);
    // Two orders tie at 80; the scan in ascending index order keeps the
    // first one it finds.
    assert_eq!(r.path, vec![0, 1, 3, 2, 0]);
}

#[test]
fn matches_brute_force_on_asymmetric_five() {
    let dist = vec![
        vec![0, 2, 9, 10, 7],
        vec![1, 0, 6, 4, 3],
        vec![15, 7, 0, 8, 3],
        vec![6, 3, 12, 0, 11],
        vec![7, 8, 4, 2, 0],
    ];
    let expected = brute_force_minimum(&dist);
    let r = solve_matrix(dist);
    assert_eq!(r.min_cost, expected);
}

#[test]
fn matches_brute_force_on_symmetric_six() {
    let dist = vec![
        vec![0, 20, 42, 25, 30, 45],
        vec![20, 0, 30, 34, 12, 8],
        vec![42, 30, 0, 10, 28, 15],
        vec![25, 34, 10, 0, 15, 40],
        vec![30, 12, 28, 15, 0, 22],
        vec![45, 8, 15, 40, 22, 0],
    ];
    let expected = brute_force_minimum(&dist);
    let r = solve_matrix(dist);
    assert_eq!(r.min_cost, expected);
}

#[test]
fn matches_brute_force_on_small_symmetric() {
    let dist = vec![vec![0, 5, 8], vec![5, 0, 3], vec![8, 3, 0]];
    let expected = brute_force_minimum(&dist);
    let r = solve_matrix(dist);
    assert_eq!(r.min_cost, expected);
    assert_eq!(r.min_cost, 16);
}

#[test]
fn path_is_a_permutation() {
    let dist = vec![
        vec![0, 20, 42, 25, 30, 45],
        vec![20, 0, 30, 34, 12, 8],
        vec![42, 30, 0, 10, 28, 15],
        vec![25, 34, 10, 0, 15, 40],
        vec![30, 12, 28, 15, 0, 22],
        vec![45, 8, 15, 40, 22, 0],
    ];
    let n = dist.len();
    let r = solve_matrix(dist);
    assert_eq!(r.path.len(), n + 1);
    assert_eq!(r.path[0], 0);
    assert_eq!(r.path[n], 0);
    let mut seen = vec![false; n];
    for &city in &r.path[..n] {
        assert!(city < n);
        assert!(!seen[city], "city {} visited twice", city);
        seen[city] = true;
    }
    assert!(seen.iter().all(|&s| s));
}

#[test]
fn min_cost_equals_path_edge_sum() {
    let dist = vec![
        vec![0, 2, 9, 10, 7],
        vec![1, 0, 6, 4, 3],
        vec![15, 7, 0, 8, 3],
        vec![6, 3, 12, 0, 11],
        vec![7, 8, 4, 2, 0],
    ];
    let r = {
        let mut solver = TSPSolver::new(dist.clone());
        solver.solve()
    };
    let mut sum = 0;
    for w in r.path.windows(2) {
        sum += dist[w[0]][w[1]];
    }
    assert_eq!(sum, r.min_cost);
}

#[test]
fn solve_is_deterministic() {
    let dist = vec![
        vec![0, 2, 9, 10, 7],
        vec![1, 0, 6, 4, 3],
        vec![15, 7, 0, 8, 3],
        vec![6, 3, 12, 0, 11],
        vec![7, 8, 4, 2, 0],
    ];
    let mut solver = TSPSolver::new(dist.clone());
    let r1 = solver.solve();
    let r2 = solver.solve();
    let mut fresh = TSPSolver::new(dist);
    let r3 = fresh.solve();
    assert_eq!(r1.min_cost, r2.min_cost);
    assert_eq!(r1.path, r2.path);
    assert_eq!(r1.min_cost, r3.min_cost);
    assert_eq!(r1.path, r3.path);
}

#[test]
fn memo_table_size_within_bounds() {
    let mut solver = TSPSolver::new(vec![vec![0, 5, 8], vec![5, 0, 3], vec![8, 3, 0]]);
    solver.solve();
    let states = solver.memo_len();
    assert!(states >= 1);
    assert!(states <= 3 * (1 << 3));
}

#[test]
fn memo_table_empty_for_single_city() {
    // With one city the initial state is already complete, so the
    // recursion memoizes nothing.
    let mut solver = TSPSolver::new(vec![vec![4]]);
    let r = solver.solve();
    assert_eq!(r.min_cost, 4);
    assert_eq!(solver.memo_len(), 0);
}

#[test]
fn negative_costs_are_handled() {
    let r = solve_matrix(vec![vec![0, -5], vec![-7, 0]]);
    assert_eq!(r.min_cost, -12);
    assert_eq!(r.path, vec![0, 1, 0]);
}

#[test]
fn largest_allowed_costs() {
    let m = held_karp::MAX_EDGE_COST;
    let r = solve_matrix(vec![vec![0, m], vec![m, 0]]);
    assert_eq!(r.min_cost, 2 * m);
}

#[test]
fn check_matrix_accepts_valid_input() {
    let good = vec![vec![0, 5], vec![7, 0]];
    assert!(TSPSolver::check_matrix(&good));
}

#[test]
fn check_matrix_rejects_bad_input() {
    let empty: Vec<Vec<i32>> = vec![];
    assert!(!TSPSolver::check_matrix(&empty));
    let ragged = vec![vec![0, 5], vec![7]];
    assert!(!TSPSolver::check_matrix(&ragged));
    let out_of_range = vec![vec![0, held_karp::MAX_EDGE_COST + 1], vec![7, 0]];
    assert!(!TSPSolver::check_matrix(&out_of_range));
    let too_many = vec![vec![0; 21]; 21];
    assert!(!TSPSolver::check_matrix(&too_many));
}
