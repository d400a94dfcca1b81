use aco_sbas::ant::AntTour;
use aco_sbas::colony::{
    ant_seed, copy_rated, ratings, ratings_total, route_edges, update_best, update_best_solution, Progress,
    RatedSolution, NO_IMPROVEMENT_THRESHOLD, SIGMA,
};
use rand::rngs::StdRng;
use rand::SeedableRng;

fn line_matrix() -> Vec<Vec<i32>> {
    vec![
        vec![0, 1, 2, 1, 2],
        vec![1, 0, 1, 2, 3],
        vec![2, 1, 0, 3, 4],
        vec![1, 2, 3, 0, 1],
        vec![2, 3, 4, 1, 0],
    ]
}

fn line_demands() -> Vec<i32> {
    vec![0, 1, 1, 1, 1]
}

fn rated(tag: usize, rating: i32) -> RatedSolution {
    RatedSolution { routes: vec![vec![0, tag, 0]], rating }
}

/// Every customer `1..n` appears exactly once over the routes' interiors.
fn serves_each_once(routes: &[Vec<usize>], n: usize) -> bool {
    let mut seen = vec![0usize; n];
    for route in routes {
        if route.len() < 3 || route[0] != 0 || route[route.len() - 1] != 0 {
            return false;
        }
        for &x in &route[1..route.len() - 1] {
            if x == 0 || x >= n {
                return false;
            }
            seen[x] += 1;
        }
    }
    seen.iter().skip(1).all(|&c| c == 1)
}

#[test]
fn a_walk_opens_extends_and_closes_routes() {
    let demands = line_demands();
    let tour = AntTour::new(5, 2, &demands);
    assert_eq!(tour.unvisited(), &vec![1, 2, 3, 4]);
    assert!(tour.routes().is_empty());
    assert!(!tour.is_open());
    assert!(tour.has_unvisited());

    let tour = tour.open_route(0);
    assert_eq!(tour.route(), &vec![0, 1]);
    assert_eq!(tour.current_node(), 1);
    assert_eq!(tour.capacity_left(), 1);
    assert_eq!(tour.unvisited(), &vec![2, 3, 4]);
    assert_eq!(tour.candidates(), vec![2, 3, 4]);

    let tour = tour.advance(Some(4));
    assert_eq!(tour.route(), &vec![0, 1, 4]);
    assert_eq!(tour.capacity_left(), 0);
    assert_eq!(tour.unvisited(), &vec![2, 3]);
    assert_eq!(tour.candidates(), Vec::<usize>::new());

    let tour = tour.advance(None);
    assert!(!tour.is_open());
    assert_eq!(tour.routes(), &vec![vec![0, 1, 4, 0]]);

    let tour = tour.open_route(1);
    assert_eq!(tour.route(), &vec![0, 3]);
    assert_eq!(tour.unvisited(), &vec![2]);
    assert_eq!(tour.candidates(), vec![2]);

    // Visiting the last customer closes the route at once.
    let tour = tour.advance(Some(2));
    assert!(!tour.is_open());
    assert!(!tour.has_unvisited());
    assert_eq!(tour.unvisited_count(), 0);
    assert_eq!(tour.routes(), &vec![vec![0, 1, 4, 0], vec![0, 3, 2, 0]]);

    let solution = tour.finish(&line_matrix());
    assert_eq!(solution, vec![vec![0, 3, 4, 0], vec![0, 1, 2, 0]]);
}

#[test]
fn candidates_skip_the_current_node_and_what_does_not_fit() {
    let demands = vec![0, 1, 2, 1, 1];
    let tour = AntTour::new(5, 2, &demands).open_route(2);
    assert_eq!(tour.current_node(), 3);
    assert_eq!(tour.capacity_left(), 1);
    // Customer 2 demands 2, more than what is left.
    assert_eq!(tour.candidates(), vec![1, 4]);
}

#[test]
fn opening_at_the_last_customer_closes_the_route() {
    let tour = AntTour::new(2, 1, &vec![0, 1]).open_route(0);
    assert!(!tour.is_open());
    assert_eq!(tour.routes(), &vec![vec![0, 1, 0]]);
    assert!(!tour.has_unvisited());
}

#[test]
fn a_walk_with_only_the_depot_has_nothing_to_visit() {
    let tour = AntTour::new(1, 3, &vec![0]);
    assert!(!tour.has_unvisited());
    let solution = tour.finish(&vec![vec![0]]);
    assert!(solution.is_empty());
}

#[test]
fn random_openings_visit_every_customer_once() {
    let demands = line_demands();
    let dm = line_matrix();
    for seed in 0..20u64 {
        let mut rng = StdRng::seed_from_u64(seed);
        let mut tour = AntTour::new(5, 2, &demands);
        while tour.has_unvisited() {
            let before = tour.unvisited_count();
            tour = tour.open_route_at_random(&mut rng);
            assert_eq!(tour.unvisited_count(), before - 1);
            while tour.is_open() {
                let cands = tour.candidates();
                let next = cands.last().copied();
                tour = tour.advance(next);
            }
        }
        assert!(serves_each_once(tour.routes(), 5));
        let solution = tour.finish(&dm);
        assert!(serves_each_once(&solution, 5));
        for route in &solution {
            let load: i32 = route.iter().map(|&x| demands[x]).sum();
            assert!(load <= 2);
        }
    }
}

#[test]
fn ratings_are_listed_in_order() {
    let solutions = vec![rated(1, 7), rated(2, 3), rated(3, 5), rated(4, 3)];
    assert_eq!(ratings(&solutions), vec![7, 3, 5, 3]);
    assert_eq!(ratings_total(&solutions), 18);
    assert_eq!(ratings_total(&vec![]), 0);
}

#[test]
fn ranking_picks_the_best_solutions_and_updates_the_best() {
    let solutions = vec![rated(1, 7), rated(2, 3), rated(3, 5), rated(4, 3)];
    let mut best: Option<RatedSolution> = None;
    let top = update_best_solution(&solutions, &mut best);
    assert_eq!(top, vec![1, 3]);
    assert_eq!(top.len(), SIGMA - 1);
    let b = best.expect("a best solution");
    assert_eq!(b.rating, 3);
    assert_eq!(b.routes, vec![vec![0, 2, 0]]);

    let mut best = Some(rated(9, 2));
    let top = update_best_solution(&solutions, &mut best);
    assert_eq!(top, vec![1, 3]);
    let b = best.expect("a best solution");
    assert_eq!(b.rating, 2);
    assert_eq!(b.routes, vec![vec![0, 9, 0]]);

    let single = vec![rated(5, 11)];
    let mut best = Some(rated(9, 12));
    assert_eq!(update_best_solution(&single, &mut best), vec![0]);
    let b = best.expect("a best solution");
    assert_eq!(b.rating, 11);
    assert_eq!(b.routes, vec![vec![0, 5, 0]]);
}

#[test]
fn the_best_changes_only_on_a_strict_improvement() {
    let mut best: Option<RatedSolution> = None;
    update_best(&mut best, &rated(1, 5));
    assert_eq!(best.as_ref().map(|b| b.rating), Some(5));

    update_best(&mut best, &rated(2, 5));
    assert_eq!(best.as_ref().map(|b| b.routes.clone()), Some(vec![vec![0, 1, 0]]));

    update_best(&mut best, &rated(3, 4));
    assert_eq!(best.as_ref().map(|b| b.rating), Some(4));
    assert_eq!(best.as_ref().map(|b| b.routes.clone()), Some(vec![vec![0, 3, 0]]));

    let copy = copy_rated(&rated(6, 9));
    assert_eq!(copy.rating, 9);
    assert_eq!(copy.routes, vec![vec![0, 6, 0]]);
}

#[test]
fn route_edges_are_undirected_pairs() {
    assert_eq!(route_edges(&vec![0, 3, 1, 0]), vec![(0, 3), (1, 3), (0, 1)]);
    assert_eq!(route_edges(&vec![4, 2]), vec![(2, 4)]);
    assert_eq!(route_edges(&vec![5]), Vec::<(usize, usize)>::new());
    assert_eq!(route_edges(&vec![]), Vec::<(usize, usize)>::new());
}

#[test]
fn progress_counts_iterations_without_improvement() {
    let mut progress = Progress::new(10);
    assert_eq!(progress.previous_best_cost, 10);
    assert_eq!(progress.iterations_without_improvement, 0);

    assert!(!progress.record(12));
    assert_eq!(progress.previous_best_cost, 10);
    assert_eq!(progress.iterations_without_improvement, 1);

    assert!(!progress.record(10));
    assert_eq!(progress.iterations_without_improvement, 2);

    assert!(!progress.record(9));
    assert_eq!(progress.previous_best_cost, 9);
    assert_eq!(progress.iterations_without_improvement, 0);

    for t in 1..NO_IMPROVEMENT_THRESHOLD {
        assert!(!progress.record(9));
        assert_eq!(progress.iterations_without_improvement, t);
        assert_eq!(progress.stalling(), t > NO_IMPROVEMENT_THRESHOLD / 2);
    }
    assert!(progress.record(9));
    assert_eq!(progress.iterations_without_improvement, NO_IMPROVEMENT_THRESHOLD);
}

#[test]
fn stalling_starts_after_half_the_threshold() {
    let mut progress = Progress::new(0);
    for _ in 0..50 {
        progress.record(0);
    }
    assert!(!progress.stalling());
    progress.record(0);
    assert!(progress.stalling());
}

#[test]
fn finishing_depends_on_the_routes_alone() {
    let demands = line_demands();
    let dm = line_matrix();
    let walk = |first: usize, second: usize| {
        let tour = AntTour::new(5, 2, &demands).open_route(first);
        let next = tour.candidates().last().copied();
        let mut tour = tour.advance(next);
        while tour.is_open() {
            tour = tour.advance(None);
        }
        let tour = tour.open_route(second);
        let next = tour.candidates().first().copied();
        let mut tour = tour.advance(next);
        while tour.has_unvisited() || tour.is_open() {
            if tour.is_open() {
                tour = tour.advance(None);
            } else {
                tour = tour.open_route(0);
            }
        }
        tour
    };
    let a = walk(0, 1);
    let b = walk(0, 1);
    assert_eq!(a.routes(), b.routes());
    assert_eq!(a.finish(&dm), b.finish(&dm));
}

#[test]
fn a_customer_over_capacity_gets_a_route_of_its_own() {
    let demands = vec![0, 5, 1];
    let dm = vec![vec![0, 3, 4], vec![3, 0, 5], vec![4, 5, 0]];
    let tour = AntTour::new(3, 2, &demands).open_route(0);
    assert_eq!(tour.current_node(), 1);
    assert_eq!(tour.capacity_left(), -3);
    assert_eq!(tour.candidates(), Vec::<usize>::new());
    let tour = tour.advance(None);
    assert_eq!(tour.routes(), &vec![vec![0, 1, 0]]);
    let tour = tour.open_route(0);
    assert!(!tour.is_open());
    assert_eq!(tour.routes(), &vec![vec![0, 1, 0], vec![0, 2, 0]]);
    assert_eq!(tour.finish(&dm), vec![vec![0, 1, 0], vec![0, 2, 0]]);
}

#[test]
fn ant_seeds_add_the_index_to_the_cut_seed() {
    assert_eq!(ant_seed(7, 3), Some(10));
    assert_eq!(ant_seed((1u64 << 32) + 5, 2), Some(7));
    assert_eq!(ant_seed(u32::MAX as u64, 0), Some(u32::MAX));
    assert_eq!(ant_seed(u32::MAX as u64, 1), None);
}

#[test]
fn a_walk_with_negative_demands() {
    let demands = vec![0, -3, 2];
    let tour = AntTour::new(3, 1, &demands).open_route(0);
    assert_eq!(tour.capacity_left(), 4);
    assert_eq!(tour.candidates(), vec![2]);
    let tour = tour.advance(Some(2));
    assert!(!tour.is_open());
    assert_eq!(tour.routes(), &vec![vec![0, 1, 2, 0]]);
}
