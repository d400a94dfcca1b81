//! The colony's bookkeeping between iterations: the best solution found so
//! far, the ranking of the ants' solutions, the edges that receive
//! pheromone, and the count of iterations without improvement.
use vstd::prelude::*;
use crate::cost::{fits_i32, hi, lo};
use crate::ranking::{k_smallest, smallest_keys};
use crate::solution::same_routes;

verus! {

/// Pheromone is deposited along the best solution and along the
/// `SIGMA - 1` best solutions of each iteration.
pub const SIGMA: usize = 3;

/// The colony stops after this many iterations without improvement, and
/// shifts its parameters after half as many.
pub const NO_IMPROVEMENT_THRESHOLD: usize = 100;

/// A solution with its rating.
pub struct RatedSolution {
    pub routes: Vec<Vec<usize>>,
    pub rating: i32,
}

/// The ratings of a sequence of rated solutions.
pub open spec fn ratings_of(solutions: Seq<RatedSolution>) -> Seq<i32> {
    solutions.map_values(|s: RatedSolution| s.rating)
}

/// A copy of a rated solution.
pub fn copy_rated(solution: &RatedSolution) -> (copy: RatedSolution)
    ensures
        copy.rating == solution.rating,
        same_routes(copy.routes@, solution.routes@),
{
    RatedSolution { routes: crate::solution::clone_routes(&solution.routes), rating: solution.rating }
}

/// Keeps the better of the best solution so far and `candidate`: the
/// candidate replaces the best when there is none or when it is rated
/// strictly lower.
pub fn update_best(best: &mut Option<RatedSolution>, candidate: &RatedSolution)
    ensures
        match *old(best) {
            None => *final(best) matches Some(b) && b.rating == candidate.rating && same_routes(
                b.routes@,
                candidate.routes@,
            ),
            Some(ob) => if candidate.rating < ob.rating {
                *final(best) matches Some(b) && b.rating == candidate.rating && same_routes(
                    b.routes@,
                    candidate.routes@,
                )
            } else {
                *final(best) == *old(best)
            },
        },
{
    let replace = match best {
        Some(b) => candidate.rating < b.rating,
        None => true,
    };
    if replace {
        *best = Some(copy_rated(candidate));
    }
}

/// The ratings of the solutions, in order.
pub fn ratings(solutions: &Vec<RatedSolution>) -> (values: Vec<i32>)
    ensures
        values@ == ratings_of(solutions@),
{
    let mut values: Vec<i32> = Vec::new();
    let mut t: usize = 0;
    while t < solutions.len()
        invariant
            0 <= t <= solutions@.len(),
            values@ == ratings_of(solutions@.take(t as int)),
        decreases solutions@.len() - t,
    {
        values.push(solutions[t].rating);
        proof {
            assert(ratings_of(solutions@.take(t + 1)) =~= ratings_of(solutions@.take(t as int)).push(
                solutions@[t as int].rating,
            ));
        }
        t = t + 1;
    }
    proof {
        assert(solutions@.take(t as int) =~= solutions@);
    }
    values
}

/// Ranks an iteration's solutions and updates the best solution: the
/// solutions are ordered by rating (ties in their given order), the first
/// replaces the best solution when it is rated strictly lower, and the
/// first `min(SIGMA - 1, len)` positions of the order are returned, best
/// first, for the pheromone deposit.
pub fn update_best_solution(
    solutions: &Vec<RatedSolution>,
    best: &mut Option<RatedSolution>,
) -> (top: Vec<usize>)
    requires
        solutions@.len() > 0,
    ensures
        smallest_keys(
            ratings_of(solutions@),
            solutions@.len() as int,
            if SIGMA - 1 <= solutions@.len() { SIGMA - 1 } else { solutions@.len() as int },
            top@,
        ),
        top@.len() == (if SIGMA - 1 <= solutions@.len() { SIGMA - 1 } else { solutions@.len() as int }),
        ({
            let first = solutions@[top@[0] as int];
            match *old(best) {
                None => *final(best) matches Some(b) && b.rating == first.rating && same_routes(
                    b.routes@,
                    first.routes@,
                ),
                Some(ob) => if first.rating < ob.rating {
                    *final(best) matches Some(b) && b.rating == first.rating && same_routes(
                        b.routes@,
                        first.routes@,
                    )
                } else {
                    *final(best) == *old(best)
                },
            }
        }),
{
    let values = ratings(solutions);
    let count = if SIGMA - 1 <= solutions.len() { SIGMA - 1 } else { solutions.len() };
    let top = k_smallest(&values, solutions.len(), count);
    proof {
        assert(top@.len() == count) by {
            if top@.len() < count {
                let j0: int = 0;
                let j1: int = 1;
                assert(crate::ranking::eligible(values@, solutions@.len() as int, j0));
                assert(top@.contains(j0 as usize));
                if count == 2 {
                    assert(crate::ranking::eligible(values@, solutions@.len() as int, j1));
                    assert(top@.contains(j1 as usize));
                    let q0 = choose|q: int| 0 <= q < top@.len() && top@[q] == 0usize;
                    let q1 = choose|q: int| 0 <= q < top@.len() && top@[q] == 1usize;
                    assert(q0 == 0 && q1 == 0);
                }
            }
        }
    }
    update_best(best, &solutions[top[0]]);
    top
}

/// The sum of the ratings.
pub open spec fn rating_sum(values: Seq<i32>) -> int
    decreases values.len(),
{
    if values.len() == 0 {
        0
    } else {
        rating_sum(values.drop_last()) + values.last() as int
    }
}

/// The sum of the solutions' ratings (the colony divides it by their number
/// to get the average rating).
pub fn ratings_total(solutions: &Vec<RatedSolution>) -> (total: i32)
    requires
        forall|t: int|
            0 <= t <= solutions@.len() ==> fits_i32(
                #[trigger] rating_sum(ratings_of(solutions@).take(t)),
            ),
    ensures
        total == rating_sum(ratings_of(solutions@)),
{
    let ghost rs = ratings_of(solutions@);
    let mut total: i32 = 0;
    let mut t: usize = 0;
    proof {
        assert(rs.take(0) =~= Seq::<i32>::empty());
    }
    while t < solutions.len()
        invariant
            rs == ratings_of(solutions@),
            rs.len() == solutions@.len(),
            0 <= t <= solutions@.len(),
            forall|t: int| 0 <= t <= solutions@.len() ==> fits_i32(#[trigger] rating_sum(rs.take(t))),
            total == rating_sum(rs.take(t as int)),
        decreases solutions@.len() - t,
    {
        proof {
            assert(rs.take(t + 1).drop_last() =~= rs.take(t as int));
            assert(rs.take(t + 1).last() == solutions@[t as int].rating);
            assert(fits_i32(rating_sum(rs.take(t + 1))));
        }
        total = total + solutions[t].rating;
        t = t + 1;
    }
    proof {
        assert(rs.take(t as int) =~= rs);
    }
    total
}

/// The undirected edges of a route, each as `(smaller, larger)` node, in
/// the order the route travels them.
pub fn route_edges(route: &Vec<usize>) -> (edges: Vec<(usize, usize)>)
    ensures
        edges@.len() == if route@.len() >= 1 { route@.len() - 1 } else { 0 },
        forall|k: int|
            0 <= k < edges@.len() ==> #[trigger] edges@[k] == (
                lo(route@[k], route@[k + 1]),
                hi(route@[k], route@[k + 1]),
            ),
{
    let mut edges: Vec<(usize, usize)> = Vec::new();
    if route.len() >= 2 {
        let mut k: usize = 0;
        while k < route.len() - 1
            invariant
                route@.len() >= 2,
                0 <= k < route@.len(),
                edges@.len() == k,
                forall|q: int|
                    0 <= q < k ==> #[trigger] edges@[q] == (
                        lo(route@[q], route@[q + 1]),
                        hi(route@[q], route@[q + 1]),
                    ),
            decreases route@.len() - k,
        {
            let u = route[k];
            let v = route[k + 1];
            let min_uv = if u <= v { u } else { v };
            let max_uv = if u <= v { v } else { u };
            edges.push((min_uv, max_uv));
            k = k + 1;
        }
    }
    edges
}

/// The seed of ant `ant_index`: the challenge seed cut to 32 bits plus the
/// ant's index cut to 32 bits, or `None` when that sum leaves `u32`.
pub fn ant_seed(seed: u64, ant_index: usize) -> (ant: Option<u32>)
    ensures
        ant == (if (seed as u32) + (ant_index as u32) <= u32::MAX {
            Some(((seed as u32) + (ant_index as u32)) as u32)
        } else {
            None
        }),
{
    let base = seed as u32;
    let offset = ant_index as u32;
    base.checked_add(offset)
}

/// How long the best cost has not improved.
pub struct Progress {
    pub previous_best_cost: i32,
    pub iterations_without_improvement: usize,
}

impl Progress {
    /// Progress from the initial solution's cost.
    pub fn new(initial_cost: i32) -> (progress: Progress)
        ensures
            progress.previous_best_cost == initial_cost,
            progress.iterations_without_improvement == 0,
    {
        Progress { previous_best_cost: initial_cost, iterations_without_improvement: 0 }
    }

    /// The colony has gone more than half the threshold without improvement
    /// (and so favours pheromone over distance and evaporates less).
    pub fn stalling(&self) -> (stalling: bool)
        ensures
            stalling == (self.iterations_without_improvement > NO_IMPROVEMENT_THRESHOLD / 2),
    {
        self.iterations_without_improvement > NO_IMPROVEMENT_THRESHOLD / 2
    }

    /// Records an iteration's best cost: an improvement resets the count,
    /// anything else adds one. Tells whether the colony should stop.
    pub fn record(&mut self, best_cost: i32) -> (stop: bool)
        requires
            old(self).iterations_without_improvement < usize::MAX,
        ensures
            best_cost < old(self).previous_best_cost ==> final(self).previous_best_cost == best_cost
                && final(self).iterations_without_improvement == 0,
            !(best_cost < old(self).previous_best_cost) ==> final(self).previous_best_cost == old(
                self,
            ).previous_best_cost && final(self).iterations_without_improvement == old(
                self,
            ).iterations_without_improvement + 1,
            stop == (final(self).iterations_without_improvement >= NO_IMPROVEMENT_THRESHOLD),
    {
        if best_cost < self.previous_best_cost {
            self.previous_best_cost = best_cost;
            self.iterations_without_improvement = 0;
        } else {
            self.iterations_without_improvement = self.iterations_without_improvement + 1;
        }
        self.iterations_without_improvement >= NO_IMPROVEMENT_THRESHOLD
    }
}

} // verus!
