use aco_sbas::cost::{
    calculate_route_distance, compute_route_demand, rate_solution, solution_distance,
    try_rate_solution, try_solution_distance,
};
use aco_sbas::greedy::{
    candidate_lists, nearest_neighbor_heuristic, nearest_neighbor_heuristic_with_candidates,
    nn_input_holds, try_nearest_neighbor_heuristic_with_candidates,
};
use aco_sbas::ranking::k_smallest;
use aco_sbas::savings::compute_savings_matrix;
use aco_sbas::swap::try_swap;
use aco_sbas::three_opt::three_opt;
use aco_sbas::two_opt::two_opt;

/// Five points on a line at 0, 1, 2, -1 and -2; the depot is at 0.
fn line_matrix() -> Vec<Vec<i32>> {
    vec![
        vec![0, 1, 2, 1, 2],
        vec![1, 0, 1, 2, 3],
        vec![2, 1, 0, 3, 4],
        vec![1, 2, 3, 0, 1],
        vec![2, 3, 4, 1, 0],
    ]
}

fn line_demands() -> Vec<i32> {
    vec![0, 1, 1, 1, 1]
}

/// Seven points: the depot at the origin, six customers around it.
fn ring_matrix() -> Vec<Vec<i32>> {
    vec![
        vec![0, 10, 14, 10, 14, 10, 7],
        vec![10, 0, 10, 14, 22, 20, 7],
        vec![14, 10, 0, 10, 20, 22, 7],
        vec![10, 14, 10, 0, 10, 14, 7],
        vec![14, 22, 20, 10, 0, 10, 16],
        vec![10, 20, 22, 14, 10, 0, 16],
        vec![7, 7, 7, 7, 16, 16, 0],
    ]
}

fn ring_demands() -> Vec<i32> {
    vec![0, 3, 4, 2, 5, 1, 2]
}

fn asymmetric_matrix() -> Vec<Vec<i32>> {
    vec![vec![5, 1, 2], vec![3, 0, 4], vec![6, 7, 0]]
}

#[test]
fn route_distance_follows_the_directed_edges() {
    let dm = asymmetric_matrix();
    assert_eq!(calculate_route_distance(&vec![0, 1, 2, 0], &dm), 11);
    assert_eq!(calculate_route_distance(&vec![0, 2, 1, 0], &dm), 2 + 7 + 3);
    assert_eq!(calculate_route_distance(&vec![1], &dm), 0);
    assert_eq!(calculate_route_distance(&vec![], &dm), 0);
    assert_eq!(calculate_route_distance(&vec![0, 1, 2, 0], &line_matrix()), 4);
}

#[test]
fn route_demand_adds_every_node() {
    let demands = ring_demands();
    assert_eq!(compute_route_demand(&vec![0, 1, 2, 0], &demands), 7);
    assert_eq!(compute_route_demand(&vec![0, 4, 4, 0], &demands), 10);
    assert_eq!(compute_route_demand(&vec![], &demands), 0);
}

#[test]
fn rating_reads_the_upper_triangle_and_returns_to_the_depot() {
    let dm = asymmetric_matrix();
    // Edges 0-1, 1-2, 2-0 read as dm[0][1], dm[1][2], dm[0][2], then dm[0][0].
    assert_eq!(rate_solution(&vec![vec![0, 1, 2, 0]], &dm), 1 + 4 + 2 + 5);
    // An empty route costs only dm[0][0].
    assert_eq!(rate_solution(&vec![vec![]], &dm), 5);
    assert_eq!(rate_solution(&vec![], &dm), 0);
    // A route that stops at customer 2 is charged dm[0][2] on top.
    assert_eq!(rate_solution(&vec![vec![0, 2]], &dm), 2 + 2);
}

#[test]
fn rating_equals_distance_on_symmetric_instances() {
    let dm = line_matrix();
    let solution = vec![vec![0, 1, 2, 0], vec![0, 3, 4, 0]];
    assert_eq!(rate_solution(&solution, &dm), 8);
    assert_eq!(solution_distance(&solution, &dm), 8);
    let dm = ring_matrix();
    let solution = vec![vec![0, 6, 1, 2, 3, 5, 0], vec![0, 4, 0]];
    assert_eq!(rate_solution(&solution, &dm), solution_distance(&solution, &dm));
}

#[test]
fn solution_distance_adds_route_distances() {
    let dm = asymmetric_matrix();
    assert_eq!(solution_distance(&vec![vec![0, 1, 2, 0], vec![0, 2, 0]], &dm), 11 + 8);
    assert_eq!(solution_distance(&vec![], &dm), 0);
}

#[test]
fn the_construction_reads_instances_that_cover_every_node() {
    assert!(nn_input_holds(5, &line_demands(), &line_matrix()));
    assert!(nn_input_holds(7, &ring_demands(), &ring_matrix()));
    // Negative demands and extra rows or columns are fine.
    assert!(nn_input_holds(3, &vec![0, -1, 1, 7], &line_matrix()));
    // Too few demands.
    assert!(!nn_input_holds(5, &vec![0, 1, 1, 1], &line_matrix()));
    // A short row.
    let mut ragged = line_matrix();
    ragged[2].pop();
    assert!(!nn_input_holds(5, &line_demands(), &ragged));
    // No node at all.
    assert!(!nn_input_holds(0, &vec![], &vec![]));
}

#[test]
fn checked_rating_refuses_only_overflow_and_missing_entries() {
    let dm = asymmetric_matrix();
    assert_eq!(try_rate_solution(&vec![vec![0, 1, 2, 0]], &dm), Some(12));
    assert_eq!(try_rate_solution(&vec![], &vec![]), Some(0));
    assert_eq!(try_rate_solution(&vec![vec![]], &vec![]), None);
    assert_eq!(try_rate_solution(&vec![vec![0, 5, 0]], &dm), None);
    let huge = vec![vec![0, 2_000_000_000], vec![2_000_000_000, 0]];
    assert_eq!(try_rate_solution(&vec![vec![0, 1, 0]], &huge), None);
    assert_eq!(try_rate_solution(&vec![vec![0, 1]], &huge), None);
    let big = vec![vec![0, 1_000_000_000], vec![1_000_000_000, 0]];
    assert_eq!(try_rate_solution(&vec![vec![0, 1]], &big), Some(2_000_000_000));
}

#[test]
fn checked_distance_refuses_only_overflow_and_missing_entries() {
    let dm = asymmetric_matrix();
    assert_eq!(try_solution_distance(&vec![vec![0, 1, 2, 0], vec![0, 2, 0]], &dm), Some(19));
    assert_eq!(try_solution_distance(&vec![], &dm), Some(0));
    assert_eq!(try_solution_distance(&vec![vec![0, 3]], &dm), None);
    let huge = vec![vec![0, 2_000_000_000], vec![2_000_000_000, 0]];
    assert_eq!(try_solution_distance(&vec![vec![0, 1, 0]], &huge), None);
    assert_eq!(try_solution_distance(&vec![vec![0, 1], vec![1, 0]], &huge), None);
}

#[test]
fn rating_adds_over_lists_of_routes() {
    let dm = vec![vec![0, 1, 2, 3], vec![1, 0, 1, 2], vec![2, 1, 0, 1], vec![3, 2, 1, 0]];
    let whole = rate_solution(&vec![vec![0, 1, 2, 0], vec![0, 3, 0]], &dm);
    assert_eq!(whole, 10);
    assert_eq!(whole, rate_solution(&vec![vec![0, 1, 2, 0]], &dm) + rate_solution(&vec![vec![0, 3, 0]], &dm));
}

#[test]
fn nearest_neighbour_builds_routes_greedily() {
    let solution = nearest_neighbor_heuristic(5, 2, &line_demands(), &line_matrix());
    assert_eq!(solution, vec![vec![0, 1, 2, 0], vec![0, 3, 4, 0]]);
    assert_eq!(rate_solution(&solution, &line_matrix()), 8);
    let solution = nearest_neighbor_heuristic(7, 15, &ring_demands(), &ring_matrix());
    assert_eq!(solution, vec![vec![0, 6, 1, 2, 3, 5, 0], vec![0, 4, 0]]);
    assert_eq!(rate_solution(&solution, &ring_matrix()), 86);
}

#[test]
fn nearest_neighbour_with_only_the_depot() {
    let solution = nearest_neighbor_heuristic(1, 5, &vec![0], &vec![vec![0]]);
    assert!(solution.is_empty());
    let solution = nearest_neighbor_heuristic_with_candidates(1, 5, &vec![0], &vec![vec![0]]);
    assert!(solution.is_empty());
}

#[test]
fn candidate_lists_keep_the_nearest_third() {
    let lists = candidate_lists(5, &line_matrix());
    assert_eq!(lists, vec![vec![1], vec![0], vec![1], vec![0], vec![3]]);
    let lists = candidate_lists(7, &ring_matrix());
    assert_eq!(lists[0], vec![6, 1]);
    assert_eq!(lists[4], vec![3, 5]);
    assert_eq!(lists[6], vec![0, 1]);
}

#[test]
fn candidate_search_gives_the_plain_greedy_solution() {
    for (n, capacity, demands, dm) in [
        (5, 2, line_demands(), line_matrix()),
        (5, 4, line_demands(), line_matrix()),
        (7, 15, ring_demands(), ring_matrix()),
        (7, 6, ring_demands(), ring_matrix()),
    ] {
        assert_eq!(
            nearest_neighbor_heuristic_with_candidates(n, capacity, &demands, &dm),
            nearest_neighbor_heuristic(n, capacity, &demands, &dm)
        );
    }
    assert_eq!(
        nearest_neighbor_heuristic_with_candidates(5, 2, &line_demands(), &line_matrix()),
        vec![vec![0, 1, 2, 0], vec![0, 3, 4, 0]]
    );
}

#[test]
fn savings_compare_a_shared_trip_with_two_returns() {
    let savings = compute_savings_matrix(&line_matrix(), 5);
    assert_eq!(
        savings,
        vec![
            vec![0, 0, 0, 0, 0],
            vec![0, 0, 2, 0, 0],
            vec![0, 2, 0, 0, 0],
            vec![0, 0, 0, 0, 2],
            vec![0, 0, 0, 2, 0],
        ]
    );
    let savings = compute_savings_matrix(&ring_matrix(), 7);
    // d(1,0) + d(0,2) - d(1,2) = 10 + 14 - 10.
    assert_eq!(savings[1][2], 14);
    for i in 0..7 {
        for j in 0..7 {
            assert_eq!(savings[i][j], savings[j][i]);
        }
    }
    let savings = compute_savings_matrix(&asymmetric_matrix(), 3);
    // d(1,0) + d(0,2) - d(1,2) = 3 + 2 - 4, and d(2,0) + d(0,1) - d(2,1) = 6 + 1 - 7.
    assert_eq!(savings[1][2], 1);
    assert_eq!(savings[2][1], 0);
    assert_eq!(savings[0][1], 0);
}

#[test]
fn k_smallest_is_a_stable_partial_sort() {
    let row = vec![5, 3, 3, 1, 9];
    assert_eq!(k_smallest(&row, 0, 3), vec![3, 1, 2]);
    assert_eq!(k_smallest(&row, 0, 10), vec![3, 1, 2, 4]);
    assert_eq!(k_smallest(&row, 5, 2), vec![3, 1]);
    assert_eq!(k_smallest(&row, 3, 2), vec![1, 2]);
    assert_eq!(k_smallest(&row, 0, 0), Vec::<usize>::new());
    assert_eq!(k_smallest(&vec![], 0, 3), Vec::<usize>::new());
}

#[test]
fn three_opt_reorders_a_crossed_route() {
    let dm = ring_matrix();
    let demands = ring_demands();
    let mut solution = vec![vec![0, 2, 1, 3, 6, 0], vec![0, 5, 4, 0]];
    let before = solution_distance(&solution, &dm);
    assert!(three_opt(&mut solution, &dm, &demands, 15));
    assert_eq!(solution, vec![vec![0, 1, 2, 3, 6, 0], vec![0, 5, 4, 0]]);
    assert!(solution_distance(&solution, &dm) < before);
}

#[test]
fn three_opt_leaves_short_routes_alone() {
    let dm = line_matrix();
    let demands = line_demands();
    let mut solution = vec![vec![0, 1, 4, 0], vec![0, 3, 2, 0]];
    assert!(!three_opt(&mut solution, &dm, &demands, 2));
    assert_eq!(solution, vec![vec![0, 1, 4, 0], vec![0, 3, 2, 0]]);
}

#[test]
fn three_opt_is_deterministic() {
    let dm = ring_matrix();
    let demands = ring_demands();
    let mut first = vec![vec![0, 3, 1, 6, 2, 0], vec![0, 4, 5, 0]];
    let mut second = first.clone();
    let a = three_opt(&mut first, &dm, &demands, 15);
    let b = three_opt(&mut second, &dm, &demands, 15);
    assert_eq!(a, b);
    assert_eq!(first, second);
}

#[test]
fn swap_trades_customers_between_routes() {
    let dm = ring_matrix();
    let demands = ring_demands();
    let mut solution = vec![vec![0, 4, 1, 0], vec![0, 2, 5, 0]];
    assert!(!try_swap(&mut solution, &dm, &demands, 15));
    assert_eq!(solution, vec![vec![0, 2, 1, 0], vec![0, 4, 5, 0]]);
}

#[test]
fn swap_respects_capacity() {
    let dm = ring_matrix();
    let demands = ring_demands();
    // Trading 4 (demand 5) for 2 (demand 4) would overload the second route.
    let mut solution = vec![vec![0, 4, 1, 0], vec![0, 2, 5, 0]];
    assert!(!try_swap(&mut solution, &dm, &demands, 6));
    assert_eq!(solution, vec![vec![0, 4, 1, 0], vec![0, 2, 5, 0]]);
}

#[test]
fn swap_on_the_line_instance() {
    let dm = line_matrix();
    let demands = line_demands();
    let mut solution = vec![vec![0, 1, 4, 0], vec![0, 3, 2, 0]];
    assert!(!try_swap(&mut solution, &dm, &demands, 2));
    assert_eq!(solution, vec![vec![0, 3, 4, 0], vec![0, 1, 2, 0]]);
}

#[test]
fn two_opt_uncrosses_a_route() {
    let dm = ring_matrix();
    let demands = ring_demands();
    assert_eq!(two_opt(&vec![0, 2, 1, 3, 6, 0], &dm, &demands, 15), vec![0, 1, 2, 3, 6, 0]);
}

#[test]
fn two_opt_keeps_an_overloaded_route() {
    let dm = ring_matrix();
    let demands = ring_demands();
    assert_eq!(two_opt(&vec![0, 2, 1, 3, 6, 0], &dm, &demands, 5), vec![0, 2, 1, 3, 6, 0]);
}

#[test]
fn two_opt_on_short_routes() {
    let dm = ring_matrix();
    let demands = ring_demands();
    assert_eq!(two_opt(&vec![0, 0], &dm, &demands, 15), vec![0, 0]);
    assert_eq!(two_opt(&vec![0, 4, 0], &dm, &demands, 15), vec![0, 4, 0]);
}

#[test]
fn local_search_is_idempotent() {
    let dm = ring_matrix();
    let demands = ring_demands();

    let mut solution = vec![vec![0, 3, 1, 6, 2, 0], vec![0, 4, 5, 0]];
    assert!(three_opt(&mut solution, &dm, &demands, 15));
    let once = solution.clone();
    assert!(!three_opt(&mut solution, &dm, &demands, 15));
    assert_eq!(solution, once);

    let mut solution = vec![vec![0, 4, 1, 0], vec![0, 2, 5, 0]];
    try_swap(&mut solution, &dm, &demands, 15);
    let once = solution.clone();
    try_swap(&mut solution, &dm, &demands, 15);
    assert_eq!(solution, once);

    let once = two_opt(&vec![0, 2, 1, 3, 6, 0], &dm, &demands, 15);
    assert_eq!(two_opt(&once, &dm, &demands, 15), once);
}

#[test]
fn the_construction_stops_only_when_it_ends() {
    let m = i32::MAX;
    // Customer 2 is out of reach from the depot but reached from customer 1.
    let dm = vec![vec![0, 5, m], vec![5, 0, 3], vec![m, 3, 0]];
    assert_eq!(nearest_neighbor_heuristic(3, 5, &vec![0, 1, 1], &dm), vec![vec![0, 1, 2, 0]]);
    assert_eq!(
        try_nearest_neighbor_heuristic_with_candidates(3, 5, &vec![0, 1, 1], &dm),
        Some(vec![vec![0, 1, 2, 0]])
    );
    // No customer can be reached from the depot: the construction would never end.
    let stuck = vec![vec![0, m, m], vec![m, 0, 3], vec![m, 3, 0]];
    assert_eq!(try_nearest_neighbor_heuristic_with_candidates(3, 5, &vec![0, 1, 1], &stuck), None);
    // A customer whose demand exceeds the capacity can never be served.
    assert_eq!(try_nearest_neighbor_heuristic_with_candidates(3, 5, &vec![0, 1, 6], &dm), None);
}

#[test]
fn the_construction_takes_negative_demands_and_larger_matrices() {
    let dm = vec![vec![0, 1, 2, 3], vec![1, 0, 1, 2], vec![2, 1, 0, 1], vec![3, 2, 1, 0]];
    assert_eq!(nearest_neighbor_heuristic(4, 2, &vec![0, -2, 3, 1], &dm), vec![vec![0, 1, 2, 3, 0]]);
    let wide = vec![
        vec![0, 4, 1, 9, 9],
        vec![4, 0, 2, 9, 9],
        vec![1, 2, 0, 9, 9],
        vec![9, 9, 9, 0, 9],
        vec![9, 9, 9, 9, 0],
    ];
    assert_eq!(nearest_neighbor_heuristic_with_candidates(3, 10, &vec![0, 1, 1], &wide), vec![vec![0, 2, 1, 0]]);
    assert_eq!(candidate_lists(3, &wide), vec![vec![2], vec![2], vec![0]]);
}

#[test]
fn local_search_takes_large_distances() {
    let b = 300_000_000;
    let dm = vec![vec![0, 1, b, 1], vec![1, 0, 1, b], vec![b, 1, 0, 1], vec![1, b, 1, 0]];
    let demands = vec![0, 1, 1, 1];
    let mut solution = vec![vec![0, 2, 1, 3, 0]];
    assert!(three_opt(&mut solution, &dm, &demands, 10));
    assert_eq!(solution, vec![vec![0, 1, 2, 3, 0]]);
    assert_eq!(two_opt(&vec![0, 2, 1, 3, 0], &dm, &demands, 10), vec![0, 1, 2, 3, 0]);
    let mut pair = vec![vec![0, 2, 0], vec![0, 1, 0]];
    try_swap(&mut pair, &dm, &demands, 10);
    assert_eq!(pair, vec![vec![0, 2, 0], vec![0, 1, 0]]);
}
