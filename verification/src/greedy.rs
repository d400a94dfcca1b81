//! The nearest-neighbour construction of an initial solution: each route
//! leaves the depot and repeatedly moves to the nearest unserved customer
//! that still fits in the vehicle (ties to the lowest number), and returns
//! to the depot when none fits; routes are built until every customer is
//! served.
use vstd::prelude::*;
use crate::cost::load;
use crate::savings::covers;
use crate::ranking::{k_smallest, key_lt, ordered_prefix, smallest_keys};
use crate::solution::{
    customers, interior, lemma_customers_same, nonempty_routes, route_shape, same_routes,
    serves_each_once, solution_shape, within_capacity,
};

verus! {

/// What the nearest-neighbour construction reads: at least one node, a
/// demand for every node, and a matrix with a row and a column for every
/// node.
pub open spec fn nn_input(n: int, demands: Seq<i32>, dm: Seq<Vec<i32>>) -> bool {
    &&& n >= 1
    &&& demands.len() >= n
    &&& covers(dm, n)
}

/// Tells whether the construction can read the instance (`nn_input`).
pub fn nn_input_holds(num_nodes: usize, demands: &Vec<i32>, distance_matrix: &Vec<Vec<i32>>) -> (ok: bool)
    ensures
        ok == nn_input(num_nodes as int, demands@, distance_matrix@),
{
    if num_nodes < 1 || demands.len() < num_nodes || distance_matrix.len() < num_nodes {
        return false;
    }
    let mut i: usize = 0;
    while i < num_nodes
        invariant
            0 <= i <= num_nodes,
            distance_matrix@.len() >= num_nodes,
            forall|q: int| 0 <= q < i ==> (#[trigger] distance_matrix@[q])@.len() >= num_nodes,
        decreases num_nodes - i,
    {
        if distance_matrix[i].len() < num_nodes {
            return false;
        }
        i = i + 1;
    }
    true
}

/// Customer `x` can follow the partial route `partial` (which starts at the
/// depot), after the routes `done`: it is unserved, fits in what is left of
/// the capacity, and its distance from the route's last node is below
/// `i32::MAX`.
pub open spec fn can_visit(
    n: int,
    capacity: i32,
    demands: Seq<i32>,
    dm: Seq<Vec<i32>>,
    done: Seq<Vec<usize>>,
    partial: Seq<usize>,
    x: int,
) -> bool {
    &&& 1 <= x < n
    &&& !customers(done).contains(x as usize)
    &&& !partial.subrange(1, partial.len() as int).contains(x as usize)
    &&& demands[x] <= capacity - load(demands, partial.subrange(1, partial.len() as int))
    &&& dm[partial.last() as int]@[x] < i32::MAX
}

/// `x` is the nearest customer that can follow `partial` (ties to the lowest
/// number).
pub open spec fn nearest_next(
    n: int,
    capacity: i32,
    demands: Seq<i32>,
    dm: Seq<Vec<i32>>,
    done: Seq<Vec<usize>>,
    partial: Seq<usize>,
    x: int,
) -> bool {
    &&& can_visit(n, capacity, demands, dm, done, partial, x)
    &&& forall|y: int|
        #[trigger] can_visit(n, capacity, demands, dm, done, partial, y) && y != x ==> key_lt(
            dm[partial.last() as int]@,
            x,
            y,
        )
}

/// `route`, built after the routes `done`, leaves the depot, always moves to
/// the nearest customer that can follow, and returns to the depot exactly
/// when none can.
pub open spec fn nearest_neighbor_route(
    n: int,
    capacity: i32,
    demands: Seq<i32>,
    dm: Seq<Vec<i32>>,
    done: Seq<Vec<usize>>,
    route: Seq<usize>,
) -> bool {
    &&& route.len() >= 3
    &&& route[0] == 0
    &&& route[route.len() - 1] == 0
    &&& forall|p: int|
        1 <= p < route.len() - 1 ==> nearest_next(
            n,
            capacity,
            demands,
            dm,
            done,
            route.take(p),
            #[trigger] route[p] as int,
        )
    &&& forall|y: int| !#[trigger] can_visit(n, capacity, demands, dm, done, route.take(route.len() - 1), y)
}

/// The solution the nearest-neighbour construction builds: every route is
/// a nearest-neighbour route after the routes before it, and every customer
/// is served.
pub open spec fn nearest_neighbor_solution(
    n: int,
    capacity: i32,
    demands: Seq<i32>,
    dm: Seq<Vec<i32>>,
    sol: Seq<Vec<usize>>,
) -> bool {
    &&& nn_routes(n, capacity, demands, dm, sol)
    &&& forall|x: usize| 1 <= x < n ==> #[trigger] customers(sol).contains(x)
}

/// Every route of `sol` is a nearest-neighbour route after the routes
/// before it.
pub open spec fn nn_routes(
    n: int,
    capacity: i32,
    demands: Seq<i32>,
    dm: Seq<Vec<i32>>,
    sol: Seq<Vec<usize>>,
) -> bool {
    forall|r: int|
        0 <= r < sol.len() ==> nearest_neighbor_route(
            n,
            capacity,
            demands,
            dm,
            sol.take(r),
            #[trigger] sol[r]@,
        )
}

/// The construction ends: it reaches a solution, rather than meeting, at
/// the start of a route, unserved customers none of which can be served
/// from the depot (and then opening empty routes for ever).
pub open spec fn nn_terminates(n: int, capacity: i32, demands: Seq<i32>, dm: Seq<Vec<i32>>) -> bool {
    exists|sol: Seq<Vec<usize>>| #[trigger] nearest_neighbor_solution(n, capacity, demands, dm, sol)
}

/// Customer `x` is unvisited, fits in `remaining`, and is at a distance
/// below `i32::MAX` from `last`.
pub open spec fn open_for(
    n: int,
    demands: Seq<i32>,
    dm: Seq<Vec<i32>>,
    visited: Seq<bool>,
    last: int,
    remaining: int,
    x: int,
) -> bool {
    &&& 1 <= x < n
    &&& !visited[x]
    &&& demands[x] <= remaining
    &&& dm[last]@[x] < i32::MAX
}

/// The number of unvisited nodes.
pub open spec fn unvisited_count(visited: Seq<bool>) -> int
    decreases visited.len(),
{
    if visited.len() == 0 {
        0
    } else {
        unvisited_count(visited.drop_last()) + if visited.last() {
            0int
        } else {
            1int
        }
    }
}

/// Visiting an unvisited node lowers the count by one.
pub proof fn lemma_visit_count(visited: Seq<bool>, x: int)
    requires
        0 <= x < visited.len(),
        !visited[x],
    ensures
        unvisited_count(visited.update(x, true)) == unvisited_count(visited) - 1,
    decreases visited.len(),
{
    let u = visited.update(x, true);
    if x == visited.len() - 1 {
        assert(u.drop_last() =~= visited.drop_last());
    } else {
        lemma_visit_count(visited.drop_last(), x);
        assert(u.drop_last() =~= visited.drop_last().update(x, true));
    }
}

/// The count is never negative.
pub proof fn lemma_count_nonneg(visited: Seq<bool>)
    ensures
        unvisited_count(visited) >= 0,
    decreases visited.len(),
{
    if visited.len() > 0 {
        lemma_count_nonneg(visited.drop_last());
    }
}

/// Tells whether some node is unvisited.
fn any_unvisited(visited: &Vec<bool>) -> (any: bool)
    ensures
        any == exists|x: int| 0 <= x < visited@.len() && !#[trigger] visited@[x],
{
    let mut x: usize = 0;
    while x < visited.len()
        invariant
            0 <= x <= visited@.len(),
            forall|y: int| 0 <= y < x ==> #[trigger] visited@[y],
        decreases visited@.len() - x,
    {
        if !visited[x] {
            return true;
        }
        x = x + 1;
    }
    false
}

/// The nearest open customer over all customers `1..n` (ties to the lowest
/// number), scanning in increasing order and keeping strict improvements.
fn scan_all(
    num_nodes: usize,
    last: usize,
    remaining: i128,
    visited: &Vec<bool>,
    demands: &Vec<i32>,
    distance_matrix: &Vec<Vec<i32>>,
) -> (nearest: Option<usize>)
    requires
        visited@.len() == num_nodes,
        demands@.len() >= num_nodes,
        covers(distance_matrix@, num_nodes as int),
        last < num_nodes,
    ensures
        match nearest {
            Some(x) => {
                &&& open_for(num_nodes as int, demands@, distance_matrix@, visited@, last as int, remaining as int, x as int)
                &&& forall|y: int|
                    #[trigger] open_for(num_nodes as int, demands@, distance_matrix@, visited@, last as int, remaining as int, y)
                        && y != x ==> key_lt(distance_matrix@[last as int]@, x as int, y)
            },
            None => forall|y: int|
                !#[trigger] open_for(num_nodes as int, demands@, distance_matrix@, visited@, last as int, remaining as int, y),
        },
{
    let ghost n = num_nodes as int;
    let ghost ds = demands@;
    let ghost dm = distance_matrix@;
    let ghost row = distance_matrix@[last as int]@;
    let mut nearest_neighbor: Option<usize> = None;
    let mut nearest_distance: i32 = i32::MAX;
    let mut i: usize = 1;
    while i < num_nodes
        invariant
            visited@.len() == num_nodes,
            demands@.len() >= num_nodes,
            covers(dm, n),
            dm == distance_matrix@,
            ds == demands@,
            n == num_nodes,
            row == dm[last as int]@,
            last < num_nodes,
            1 <= i <= num_nodes || num_nodes == 0,
            match nearest_neighbor {
                Some(x) => {
                    &&& x < i
                    &&& nearest_distance == row[x as int]
                    &&& open_for(n, ds, dm, visited@, last as int, remaining as int, x as int)
                    &&& forall|y: int|
                        y < i && #[trigger] open_for(n, ds, dm, visited@, last as int, remaining as int, y)
                            && y != x ==> key_lt(row, x as int, y)
                },
                None => {
                    &&& nearest_distance == i32::MAX
                    &&& forall|y: int|
                        y < i ==> !#[trigger] open_for(n, ds, dm, visited@, last as int, remaining as int, y)
                },
            },
        decreases num_nodes - i,
    {
        if !visited[i] && demands[i] as i128 <= remaining {
            let distance = distance_matrix[last][i];
            if distance < nearest_distance {
                nearest_distance = distance;
                nearest_neighbor = Some(i);
            }
        }
        i = i + 1;
    }
    nearest_neighbor
}

/// The first open customer of the candidate list `candidates` of `last`, in
/// list order, taken only at a distance below `i32::MAX`.
fn scan_candidates(
    num_nodes: usize,
    last: usize,
    remaining: i128,
    visited: &Vec<bool>,
    candidates: &Vec<usize>,
    demands: &Vec<i32>,
    distance_matrix: &Vec<Vec<i32>>,
) -> (nearest: Option<usize>)
    requires
        visited@.len() == num_nodes,
        demands@.len() >= num_nodes,
        covers(distance_matrix@, num_nodes as int),
        last < num_nodes,
        visited@[last as int],
        num_nodes >= 1 ==> visited@[0],
        ordered_prefix(distance_matrix@[last as int]@.take(num_nodes as int), last as int, candidates@),
    ensures
        match nearest {
            Some(x) => {
                &&& open_for(num_nodes as int, demands@, distance_matrix@, visited@, last as int, remaining as int, x as int)
                &&& forall|y: int|
                    #[trigger] open_for(num_nodes as int, demands@, distance_matrix@, visited@, last as int, remaining as int, y)
                        && y != x ==> key_lt(distance_matrix@[last as int]@, x as int, y)
            },
            None => forall|q: int|
                0 <= q < candidates@.len() ==> !open_for(
                    num_nodes as int,
                    demands@,
                    distance_matrix@,
                    visited@,
                    last as int,
                    remaining as int,
                    #[trigger] candidates@[q] as int,
                ),
        },
{
    let ghost n = num_nodes as int;
    let ghost ds = demands@;
    let ghost dm = distance_matrix@;
    let ghost row = distance_matrix@[last as int]@.take(num_nodes as int);
    let ghost cs = candidates@;
    let mut nearest_neighbor: Option<usize> = None;
    let mut nearest_distance: i32 = i32::MAX;
    let mut t: usize = 0;
    let ghost mut pos: int = 0;
    while t < candidates.len()
        invariant
            visited@.len() == num_nodes,
            demands@.len() >= num_nodes,
            covers(dm, n),
            dm == distance_matrix@,
            ds == demands@,
            n == num_nodes,
            row == dm[last as int]@.take(n),
            cs == candidates@,
            last < num_nodes,
            row.len() == n,
            visited@[0],
            ordered_prefix(row, last as int, cs),
            0 <= t <= cs.len(),
            match nearest_neighbor {
                Some(x) => {
                    &&& nearest_distance == row[x as int]
                    &&& open_for(n, ds, dm, visited@, last as int, remaining as int, x as int)
                    &&& 0 <= pos < t
                    &&& cs[pos] == x
                    &&& forall|q2: int| 0 <= q2 < pos ==> !open_for(n, ds, dm, visited@, last as int, remaining as int, #[trigger] cs[q2] as int)
                },
                None => {
                    &&& nearest_distance == i32::MAX
                    &&& forall|q: int|
                        0 <= q < t ==> !open_for(n, ds, dm, visited@, last as int, remaining as int, #[trigger] cs[q] as int)
                },
            },
        decreases cs.len() - t,
    {
        let neighbor = candidates[t];
        proof {
            assert(crate::ranking::eligible(row, last as int, cs[t as int] as int));
        }
        if !visited[neighbor] && demands[neighbor] as i128 <= remaining {
            let distance = distance_matrix[last][neighbor];
            if distance < nearest_distance {
                proof {
                    if let Some(x) = nearest_neighbor {
                        assert(key_lt(row, cs[pos] as int, cs[t as int] as int));
                        assert(false);
                    }
                    pos = t as int;
                }
                nearest_distance = distance;
                nearest_neighbor = Some(neighbor);
            }
        }
        t = t + 1;
    }
    proof {
        if let Some(x) = nearest_neighbor {
            let q = pos;
            assert forall|y: int|
                #[trigger] open_for(n, ds, dm, visited@, last as int, remaining as int, y) && y != x
                    implies key_lt(row, x as int, y) by {
                assert(y != last);
                if key_lt(row, y, x as int) {
                    assert(crate::ranking::eligible(row, last as int, y));
                    assert(key_lt(row, y, cs[q] as int));
                    assert(cs.contains(y as usize));
                    let q3 = choose|q3: int| 0 <= q3 < cs.len() && cs[q3] == y as usize;
                    if q3 < q {
                        assert(!open_for(n, ds, dm, visited@, last as int, remaining as int, cs[q3] as int));
                    } else if q3 > q {
                        assert(key_lt(row, cs[q] as int, cs[q3] as int));
                    }
                    assert(false);
                }
            }
        }
    }
    nearest_neighbor
}


/// The nearest open customer: first through the candidate list of `last`,
/// then, if the list offers none, over all customers.
fn pick_next(
    num_nodes: usize,
    last: usize,
    remaining: i128,
    visited: &Vec<bool>,
    candidates: &Vec<usize>,
    demands: &Vec<i32>,
    distance_matrix: &Vec<Vec<i32>>,
) -> (nearest: Option<usize>)
    requires
        visited@.len() == num_nodes,
        demands@.len() >= num_nodes,
        covers(distance_matrix@, num_nodes as int),
        last < num_nodes,
        visited@[last as int],
        visited@[0],
        ordered_prefix(distance_matrix@[last as int]@.take(num_nodes as int), last as int, candidates@),
    ensures
        match nearest {
            Some(x) => {
                &&& open_for(num_nodes as int, demands@, distance_matrix@, visited@, last as int, remaining as int, x as int)
                &&& forall|y: int|
                    #[trigger] open_for(num_nodes as int, demands@, distance_matrix@, visited@, last as int, remaining as int, y)
                        && y != x ==> key_lt(distance_matrix@[last as int]@, x as int, y)
            },
            None => forall|y: int|
                !#[trigger] open_for(num_nodes as int, demands@, distance_matrix@, visited@, last as int, remaining as int, y),
        },
{
    let from_candidates = scan_candidates(
        num_nodes,
        last,
        remaining,
        visited,
        candidates,
        demands,
        distance_matrix,
    );
    if from_candidates.is_none() {
        scan_all(num_nodes, last, remaining, visited, demands, distance_matrix)
    } else {
        from_candidates
    }
}

/// Builds routes by the nearest-neighbour rule, consulting the candidate
/// list of each node before scanning all customers.
#[verifier::spinoff_prover]
fn build_nearest_neighbor(
    num_nodes: usize,
    vehicle_capacity: i32,
    demands: &Vec<i32>,
    distance_matrix: &Vec<Vec<i32>>,
    candidate_list: &Vec<Vec<usize>>,
) -> (built: Option<Vec<Vec<usize>>>)
    requires
        nn_input(num_nodes as int, demands@, distance_matrix@),
        candidate_list@.len() == num_nodes,
        forall|i: int|
            0 <= i < num_nodes ==> ordered_prefix(
                distance_matrix@[i]@.take(num_nodes as int),
                i,
                #[trigger] candidate_list@[i]@,
            ),
    ensures
        match built {
            Some(solution) => {
                &&& nearest_neighbor_solution(
                    num_nodes as int,
                    vehicle_capacity,
                    demands@,
                    distance_matrix@,
                    solution@,
                )
                &&& customers(solution@).no_duplicates()
                &&& forall|q: int|
                    0 <= q < customers(solution@).len() ==> 1 <= #[trigger] customers(solution@)[q]
                        < num_nodes
                &&& forall|r: int|
                    0 <= r < solution@.len() ==> load(demands@, interior(#[trigger] solution@[r]@))
                        <= vehicle_capacity
            },
            None => !nn_terminates(num_nodes as int, vehicle_capacity, demands@, distance_matrix@),
        },
{
    let ghost n = num_nodes as int;
    let ghost ds = demands@;
    let ghost dm = distance_matrix@;
    let ghost cap = vehicle_capacity;
    let mut solution: Vec<Vec<usize>> = Vec::new();
    let mut visited: Vec<bool> = Vec::new();
    let mut z: usize = 0;
    while z < num_nodes
        invariant
            0 <= z <= num_nodes,
            visited@.len() == z,
            forall|x: int| 0 <= x < z ==> !#[trigger] visited@[x],
        decreases num_nodes - z,
    {
        visited.push(false);
        z = z + 1;
    }
    visited.set(0, true);
    proof {
        assert(customers(solution@) =~= Seq::<usize>::empty());
    }
    while any_unvisited(&visited)
        invariant
            n == num_nodes,
            ds == demands@,
            dm == distance_matrix@,
            cap == vehicle_capacity,
            nn_input(n, ds, dm),
            candidate_list@.len() == num_nodes,
            forall|i: int| 0 <= i < n ==> ordered_prefix(dm[i]@.take(n), i, #[trigger] candidate_list@[i]@),
            visited@.len() == n,
            visited@[0],
            forall|x: usize| 1 <= x < n ==> (#[trigger] visited@[x as int] <==> customers(solution@).contains(x)),
            customers(solution@).no_duplicates(),
            forall|q: int| 0 <= q < customers(solution@).len() ==> 1 <= #[trigger] customers(solution@)[q] < n,
            forall|r: int|
                0 <= r < solution@.len() ==> nearest_neighbor_route(
                    n,
                    cap,
                    ds,
                    dm,
                    solution@.take(r),
                    #[trigger] solution@[r]@,
                ),
            forall|r: int|
                0 <= r < solution@.len() ==> load(ds, interior(#[trigger] solution@[r]@)) <= cap,
        decreases unvisited_count(visited@),
    {
        let ghost done = solution@;
        let ghost count0 = unvisited_count(visited@);
        let ghost w: int = choose|x: int| 0 <= x < visited@.len() && !#[trigger] visited@[x];
        let mut route: Vec<usize> = Vec::new();
        route.push(0);
        let mut remaining_capacity: i128 = vehicle_capacity as i128;
        let mut extending = true;
        proof {
            assert(w != 0);
            assert(route@.subrange(1, 1) =~= Seq::<usize>::empty());
            assert(customers(done) + route@.subrange(1, 1) =~= customers(done));
            lemma_count_nonneg(visited@);
        }
        while extending
            invariant
                n == num_nodes,
                ds == demands@,
                dm == distance_matrix@,
                cap == vehicle_capacity,
                nn_input(n, ds, dm),
                candidate_list@.len() == num_nodes,
                forall|i: int| 0 <= i < n ==> ordered_prefix(dm[i]@.take(n), i, #[trigger] candidate_list@[i]@),
                solution@ == done,
                visited@.len() == n,
                visited@[0],
                route@.len() >= 1,
                route@[0] == 0,
                forall|q: int| 0 <= q < route@.len() ==> #[trigger] route@[q] < n,
                forall|x: usize|
                    1 <= x < n ==> (#[trigger] visited@[x as int] <==> (customers(done).contains(x)
                        || route@.subrange(1, route@.len() as int).contains(x))),
                (customers(done) + route@.subrange(1, route@.len() as int)).no_duplicates(),
                forall|q: int| 0 <= q < customers(done).len() ==> 1 <= #[trigger] customers(done)[q] < n,
                forall|q: int| 1 <= q < route@.len() ==> 1 <= #[trigger] route@[q] < n,
                remaining_capacity == cap - load(ds, route@.subrange(1, route@.len() as int)),
                route@.len() > 1 ==> 0 <= remaining_capacity,
                remaining_capacity <= route@.len() * 0x8000_0000,
                route@.len() == 1 ==> 1 <= w < n && !visited@[w],
                forall|p: int|
                    1 <= p < route@.len() ==> nearest_next(
                        n,
                        cap,
                        ds,
                        dm,
                        done,
                        route@.take(p),
                        #[trigger] route@[p] as int,
                    ),
                !extending ==> forall|y: int| !#[trigger] can_visit(n, cap, ds, dm, done, route@, y),
                unvisited_count(visited@) == count0 - (route@.len() - 1),
                unvisited_count(visited@) >= 0,
            decreases 2 * unvisited_count(visited@) + (if extending { 1int } else { 0int }),
        {
            let last_node = route[route.len() - 1];
            proof {
                if route@.len() > 1 {
                    assert(1 <= route@[route@.len() - 1]);
                    assert(visited@[last_node as int]) by {
                        assert(route@.subrange(1, route@.len() as int)[route@.len() - 2] == last_node);
                    }
                }
            }
            let nearest_neighbor = pick_next(
                num_nodes,
                last_node,
                remaining_capacity,
                &visited,
                &candidate_list[last_node],
                demands,
                distance_matrix,
            );
            proof {
                assert forall|y: int|
                    #[trigger] can_visit(n, cap, ds, dm, done, route@, y) <==> open_for(
                        n,
                        ds,
                        dm,
                        visited@,
                        last_node as int,
                        remaining_capacity as int,
                        y,
                    ) by {
                    if 1 <= y < n {
                        assert(visited@[y] <==> (customers(done).contains(y as usize)
                            || route@.subrange(1, route@.len() as int).contains(y as usize)));
                    }
                }
            }
            match nearest_neighbor {
                Some(neighbor) => {
                    let ghost before = route@;
                    let ghost vbefore = visited@;
                    route.push(neighbor);
                    visited.set(neighbor, true);
                    proof {
                        assert(route.len() == route@.len());
                    }
                    remaining_capacity = remaining_capacity - demands[neighbor] as i128;
                    proof {
                        assert(can_visit(n, cap, ds, dm, done, before, neighbor as int));
                        assert(visited@ == vbefore.update(neighbor as int, true));
                        lemma_visit_count(vbefore, neighbor as int);
                        lemma_count_nonneg(visited@);
                        assert(route@.subrange(1, route@.len() as int) =~= before.subrange(
                            1,
                            before.len() as int,
                        ).push(neighbor));
                        assert(route@.subrange(1, route@.len() as int).drop_last() =~= before.subrange(
                            1,
                            before.len() as int,
                        ));
                        assert(customers(done) + route@.subrange(1, route@.len() as int) =~= (
                        customers(done) + before.subrange(1, before.len() as int)).push(neighbor));
                        assert(!(customers(done) + before.subrange(1, before.len() as int)).contains(neighbor));
                        assert forall|p: int|
                            1 <= p < route@.len() implies nearest_next(
                            n,
                            cap,
                            ds,
                            dm,
                            done,
                            route@.take(p),
                            #[trigger] route@[p] as int,
                        ) by {
                            if p < before.len() {
                                assert(route@.take(p) =~= before.take(p));
                                assert(route@[p] == before[p]);
                            } else {
                                assert(route@.take(p) =~= before);
                            }
                        }
                        assert forall|x: usize|
                            1 <= x < n implies (#[trigger] visited@[x as int] <==> (customers(done).contains(x)
                            || route@.subrange(1, route@.len() as int).contains(x))) by {
                            if x == neighbor {
                                assert(route@.subrange(1, route@.len() as int)[route@.len() - 2] == x);
                            } else {
                                assert(vbefore[x as int] <==> (customers(done).contains(x)
                                    || before.subrange(1, before.len() as int).contains(x)));
                                if before.subrange(1, before.len() as int).contains(x) {
                                    let q = choose|q: int| 0 <= q < before.len() - 1 && before.subrange(1, before.len() as int)[q] == x;
                                    assert(route@.subrange(1, route@.len() as int)[q] == x);
                                }
                                if route@.subrange(1, route@.len() as int).contains(x) {
                                    let q = choose|q: int| 0 <= q < route@.len() - 1 && route@.subrange(1, route@.len() as int)[q] == x;
                                    assert(q < before.len() - 1);
                                    assert(before.subrange(1, before.len() as int)[q] == x);
                                }
                            }
                        }
                    }
                },
                None => {
                    extending = false;
                },
            }
        }
        if route.len() == 1 {
            proof {
                assert(route@ =~= seq![0usize]);
                assert(!customers(done).contains(w as usize));
                if nn_terminates(n, cap, ds, dm) {
                    let sol = choose|sol: Seq<Vec<usize>>| #[trigger] nearest_neighbor_solution(n, cap, ds, dm, sol);
                    lemma_first_pick(n, cap, ds, dm, done, sol, w as usize);
                    let x = choose|x: int| can_visit(n, cap, ds, dm, done, seq![0usize], x);
                    assert(can_visit(n, cap, ds, dm, done, route@, x));
                }
            }
            return None;
        }
        let ghost open_route = route@;
        route.push(0);
        let ghost full = route@;
        proof {
            assert(full.len() >= 3);
            assert(full.take(full.len() - 1) =~= open_route);
            assert(interior(full) =~= open_route.subrange(1, open_route.len() as int));
            assert forall|p: int|
                1 <= p < full.len() - 1 implies nearest_next(
                n,
                cap,
                ds,
                dm,
                done,
                full.take(p),
                #[trigger] full[p] as int,
            ) by {
                assert(full.take(p) =~= open_route.take(p));
                assert(full[p] == open_route[p]);
            }
            assert(nearest_neighbor_route(n, cap, ds, dm, done, full));
        }
        solution.push(route);
        proof {
            let sol = solution@;
            assert(sol.drop_last() =~= done);
            assert(customers(sol) == customers(done) + interior(full));
            assert forall|r: int|
                0 <= r < sol.len() implies nearest_neighbor_route(
                n,
                cap,
                ds,
                dm,
                sol.take(r),
                #[trigger] sol[r]@,
            ) by {
                if r < done.len() {
                    assert(sol.take(r) =~= done.take(r));
                    assert(sol[r] == done[r]);
                } else {
                    assert(sol.take(r) =~= done);
                }
            }
            assert forall|r: int|
                0 <= r < sol.len() implies load(ds, interior(#[trigger] sol[r]@)) <= cap by {
                if r < done.len() {
                    assert(sol[r] == done[r]);
                }
            }
            assert forall|q: int| 0 <= q < customers(sol).len() implies 1 <= #[trigger] customers(sol)[q] < n by {
                if q >= customers(done).len() {
                    assert(customers(sol)[q] == open_route[q - customers(done).len() + 1]);
                }
            }
            assert forall|x: usize| 1 <= x < n implies (#[trigger] visited@[x as int] <==> customers(sol).contains(x)) by {
                assert(visited@[x as int] <==> (customers(done).contains(x)
                    || open_route.subrange(1, open_route.len() as int).contains(x)));
                if customers(done).contains(x) {
                    let q = choose|q: int| 0 <= q < customers(done).len() && customers(done)[q] == x;
                    assert(customers(sol)[q] == x);
                }
                if open_route.subrange(1, open_route.len() as int).contains(x) {
                    let q = choose|q: int| 0 <= q < open_route.len() - 1 && open_route.subrange(1, open_route.len() as int)[q] == x;
                    assert(customers(sol)[customers(done).len() + q] == x);
                }
                if customers(sol).contains(x) {
                    let q = choose|q: int| 0 <= q < customers(sol).len() && customers(sol)[q] == x;
                    if q < customers(done).len() {
                        assert(customers(done)[q] == x);
                    } else {
                        assert(open_route.subrange(1, open_route.len() as int)[q - customers(done).len()] == x);
                    }
                }
            }
        }
    }
    proof {
        assert forall|x: usize| 1 <= x < n implies #[trigger] customers(solution@).contains(x) by {
            assert(visited@[x as int]);
        }
    }
    Some(solution)
}


/// Routes built by the nearest-neighbour rule are shaped, non-empty and
/// within capacity, and serve every customer once.
proof fn lemma_nearest_neighbor_valid(
    n: int,
    capacity: i32,
    demands: Seq<i32>,
    dm: Seq<Vec<i32>>,
    sol: Seq<Vec<usize>>,
)
    requires
        1 <= n <= usize::MAX,
        nearest_neighbor_solution(n, capacity, demands, dm, sol),
        customers(sol).no_duplicates(),
        forall|q: int| 0 <= q < customers(sol).len() ==> 1 <= #[trigger] customers(sol)[q] < n,
        forall|r: int| 0 <= r < sol.len() ==> load(demands, interior(#[trigger] sol[r]@)) <= capacity,
    ensures
        serves_each_once(sol, n),
        solution_shape(sol, n),
        nonempty_routes(sol),
        within_capacity(sol, demands, capacity),
{
    crate::solution::lemma_serves_each_once(sol, n);
    assert forall|r: int| 0 <= r < sol.len() implies route_shape(#[trigger] sol[r]@, n) by {
        let route = sol[r]@;
        assert(nearest_neighbor_route(n, capacity, demands, dm, sol.take(r), route));
        assert forall|k: int| 1 <= k < route.len() - 1 implies 1 <= #[trigger] route[k] < n by {
            assert(nearest_next(n, capacity, demands, dm, sol.take(r), route.take(k), route[k] as int));
        }
    }
    assert forall|r: int| 0 <= r < sol.len() implies #[trigger] sol[r]@.len() >= 3 by {
        assert(nearest_neighbor_route(n, capacity, demands, dm, sol.take(r), sol[r]@));
    }
}

/// The nearest-neighbour construction: every route leaves the depot, moves
/// to the nearest unserved customer that fits (ties to the lowest number)
/// until none fits, and returns to the depot; routes are added until every
/// customer is served.
pub fn nearest_neighbor_heuristic(
    num_nodes: usize,
    vehicle_capacity: i32,
    demands: &Vec<i32>,
    distance_matrix: &Vec<Vec<i32>>,
) -> (solution: Vec<Vec<usize>>)
    requires
        nn_input(num_nodes as int, demands@, distance_matrix@),
        nn_terminates(num_nodes as int, vehicle_capacity, demands@, distance_matrix@),
    ensures
        nearest_neighbor_solution(
            num_nodes as int,
            vehicle_capacity,
            demands@,
            distance_matrix@,
            solution@,
        ),
        serves_each_once(solution@, num_nodes as int),
        solution_shape(solution@, num_nodes as int),
        nonempty_routes(solution@),
        within_capacity(solution@, demands@, vehicle_capacity),
{
    let mut no_candidates: Vec<Vec<usize>> = Vec::new();
    let mut i: usize = 0;
    while i < num_nodes
        invariant
            0 <= i <= num_nodes,
            no_candidates@.len() == i,
            forall|q: int| 0 <= q < i ==> (#[trigger] no_candidates@[q])@.len() == 0,
        decreases num_nodes - i,
    {
        no_candidates.push(Vec::new());
        i = i + 1;
    }
    let built = build_nearest_neighbor(
        num_nodes,
        vehicle_capacity,
        demands,
        distance_matrix,
        &no_candidates,
    );
    let solution = match built {
        Some(solution) => solution,
        None => Vec::new(),
    };
    proof {
        lemma_nearest_neighbor_valid(
            num_nodes as int,
            vehicle_capacity,
            demands@,
            distance_matrix@,
            solution@,
        );
    }
    solution
}

/// The first `len` entries of a row.
fn row_prefix(row: &Vec<i32>, len: usize) -> (prefix: Vec<i32>)
    requires
        len <= row@.len(),
    ensures
        prefix@ == row@.take(len as int),
{
    let mut prefix: Vec<i32> = Vec::new();
    let mut j: usize = 0;
    while j < len
        invariant
            0 <= j <= len <= row@.len(),
            prefix@ == row@.take(j as int),
        decreases len - j,
    {
        prefix.push(row[j]);
        proof {
            assert(row@.take(j + 1) =~= row@.take(j as int).push(row@[j as int]));
        }
        j = j + 1;
    }
    prefix
}

/// The candidate list of every node: its `num_nodes / 3` nearest other
/// nodes, nearest first, ties to the lowest number.
pub fn candidate_lists(num_nodes: usize, distance_matrix: &Vec<Vec<i32>>) -> (lists: Vec<Vec<usize>>)
    requires
        covers(distance_matrix@, num_nodes as int),
    ensures
        lists@.len() == num_nodes,
        forall|i: int|
            0 <= i < num_nodes ==> smallest_keys(
                distance_matrix@[i]@.take(num_nodes as int),
                i,
                num_nodes as int / 3,
                #[trigger] lists@[i]@,
            ),
{
    let num_candidates: usize = num_nodes / 3;
    let mut lists: Vec<Vec<usize>> = Vec::new();
    let mut i: usize = 0;
    while i < num_nodes
        invariant
            0 <= i <= num_nodes,
            covers(distance_matrix@, num_nodes as int),
            num_candidates == num_nodes / 3,
            lists@.len() == i,
            forall|q: int|
                0 <= q < i ==> smallest_keys(
                    distance_matrix@[q]@.take(num_nodes as int),
                    q,
                    num_candidates as int,
                    #[trigger] lists@[q]@,
                ),
        decreases num_nodes - i,
    {
        let row = row_prefix(&distance_matrix[i], num_nodes);
        let row_candidates = k_smallest(&row, i, num_candidates);
        lists.push(row_candidates);
        i = i + 1;
    }
    lists
}

/// The nearest-neighbour construction with candidate lists, or `None` when
/// it would never end: `None` exactly when, at the start of a route, no
/// unserved customer can be served from the depot.
pub fn try_nearest_neighbor_heuristic_with_candidates(
    num_nodes: usize,
    vehicle_capacity: i32,
    demands: &Vec<i32>,
    distance_matrix: &Vec<Vec<i32>>,
) -> (built: Option<Vec<Vec<usize>>>)
    requires
        nn_input(num_nodes as int, demands@, distance_matrix@),
    ensures
        built is Some <==> nn_terminates(num_nodes as int, vehicle_capacity, demands@, distance_matrix@),
        built matches Some(solution) ==> {
            &&& nearest_neighbor_solution(
                num_nodes as int,
                vehicle_capacity,
                demands@,
                distance_matrix@,
                solution@,
            )
            &&& serves_each_once(solution@, num_nodes as int)
            &&& solution_shape(solution@, num_nodes as int)
            &&& nonempty_routes(solution@)
            &&& within_capacity(solution@, demands@, vehicle_capacity)
        },
{
    let candidate_list = candidate_lists(num_nodes, distance_matrix);
    let built = build_nearest_neighbor(
        num_nodes,
        vehicle_capacity,
        demands,
        distance_matrix,
        &candidate_list,
    );
    proof {
        if built is Some {
            lemma_nearest_neighbor_valid(
                num_nodes as int,
                vehicle_capacity,
                demands@,
                distance_matrix@,
                built->0@,
            );
        }
    }
    built
}

/// The nearest-neighbour construction that first consults each node's
/// candidate list (its `num_nodes / 3` nearest nodes) and scans all customers
/// only when the list offers none. It builds the same solution as
/// `nearest_neighbor_heuristic`.
pub fn nearest_neighbor_heuristic_with_candidates(
    num_nodes: usize,
    vehicle_capacity: i32,
    demands: &Vec<i32>,
    distance_matrix: &Vec<Vec<i32>>,
) -> (solution: Vec<Vec<usize>>)
    requires
        nn_input(num_nodes as int, demands@, distance_matrix@),
        nn_terminates(num_nodes as int, vehicle_capacity, demands@, distance_matrix@),
    ensures
        nearest_neighbor_solution(
            num_nodes as int,
            vehicle_capacity,
            demands@,
            distance_matrix@,
            solution@,
        ),
        serves_each_once(solution@, num_nodes as int),
        solution_shape(solution@, num_nodes as int),
        nonempty_routes(solution@),
        within_capacity(solution@, demands@, vehicle_capacity),
{
    let solution = match try_nearest_neighbor_heuristic_with_candidates(
        num_nodes,
        vehicle_capacity,
        demands,
        distance_matrix,
    ) {
        Some(solution) => solution,
        None => Vec::new(),
    };
    solution
}


/// Two nearest-neighbour routes built after routes serving the same
/// customers agree on their first `p` nodes, as long as neither has closed.
proof fn lemma_route_prefix(
    n: int,
    capacity: i32,
    demands: Seq<i32>,
    dm: Seq<Vec<i32>>,
    done1: Seq<Vec<usize>>,
    done2: Seq<Vec<usize>>,
    route1: Seq<usize>,
    route2: Seq<usize>,
    p: int,
)
    requires
        customers(done1) == customers(done2),
        nearest_neighbor_route(n, capacity, demands, dm, done1, route1),
        nearest_neighbor_route(n, capacity, demands, dm, done2, route2),
        1 <= p <= route1.len() - 1,
        p <= route2.len() - 1,
    ensures
        route1.take(p) == route2.take(p),
    decreases p,
{
    if p == 1 {
        assert(route1.take(1) =~= route2.take(1));
    } else {
        lemma_route_prefix(n, capacity, demands, dm, done1, done2, route1, route2, p - 1);
        let q = p - 1;
        let x = route1[q] as int;
        let y = route2[q] as int;
        assert(nearest_next(n, capacity, demands, dm, done1, route1.take(q), x));
        assert(nearest_next(n, capacity, demands, dm, done2, route2.take(q), y));
        assert(can_visit(n, capacity, demands, dm, done1, route1.take(q), y));
        assert(can_visit(n, capacity, demands, dm, done2, route2.take(q), x));
        if x != y {
            assert(key_lt(dm[route1.take(q).last() as int]@, x, y));
            assert(key_lt(dm[route2.take(q).last() as int]@, y, x));
        }
        assert(route1.take(p) =~= route1.take(q).push(route1[q]));
        assert(route2.take(p) =~= route2.take(q).push(route2[q]));
    }
}

/// Two nearest-neighbour routes built after routes serving the same
/// customers are equal.
pub proof fn lemma_nearest_neighbor_route_unique(
    n: int,
    capacity: i32,
    demands: Seq<i32>,
    dm: Seq<Vec<i32>>,
    done1: Seq<Vec<usize>>,
    done2: Seq<Vec<usize>>,
    route1: Seq<usize>,
    route2: Seq<usize>,
)
    requires
        customers(done1) == customers(done2),
        nearest_neighbor_route(n, capacity, demands, dm, done1, route1),
        nearest_neighbor_route(n, capacity, demands, dm, done2, route2),
    ensures
        route1 == route2,
{
    let l1 = route1.len() as int;
    let l2 = route2.len() as int;
    let m = if l1 <= l2 { l1 - 1 } else { l2 - 1 };
    lemma_route_prefix(n, capacity, demands, dm, done1, done2, route1, route2, m);
    if l1 < l2 {
        let y = route2[m] as int;
        assert(nearest_next(n, capacity, demands, dm, done2, route2.take(m), y));
        assert(!can_visit(n, capacity, demands, dm, done1, route1.take(l1 - 1), y));
    }
    if l2 < l1 {
        let x = route1[m] as int;
        assert(nearest_next(n, capacity, demands, dm, done1, route1.take(m), x));
        assert(!can_visit(n, capacity, demands, dm, done2, route2.take(l2 - 1), x));
    }
    assert(l1 == l2);
    assert forall|k: int| 0 <= k < l1 implies route1[k] == route2[k] by {
        if k < l1 - 1 {
            assert(route1.take(m)[k] == route2.take(m)[k]);
        }
    }
    assert(route1 =~= route2);
}

/// Two lists of nearest-neighbour routes agree on their first `r` routes.
proof fn lemma_solution_prefix(
    n: int,
    capacity: i32,
    demands: Seq<i32>,
    dm: Seq<Vec<i32>>,
    sol1: Seq<Vec<usize>>,
    sol2: Seq<Vec<usize>>,
    r: int,
)
    requires
        nn_routes(n, capacity, demands, dm, sol1),
        nn_routes(n, capacity, demands, dm, sol2),
        0 <= r <= sol1.len(),
        r <= sol2.len(),
    ensures
        same_routes(sol1.take(r), sol2.take(r)),
    decreases r,
{
    if r > 0 {
        let q = r - 1;
        lemma_solution_prefix(n, capacity, demands, dm, sol1, sol2, q);
        lemma_customers_same(sol1.take(q), sol2.take(q));
        assert(nearest_neighbor_route(n, capacity, demands, dm, sol1.take(q), sol1[q]@));
        assert(nearest_neighbor_route(n, capacity, demands, dm, sol2.take(q), sol2[q]@));
        lemma_nearest_neighbor_route_unique(
            n,
            capacity,
            demands,
            dm,
            sol1.take(q),
            sol2.take(q),
            sol1[q]@,
            sol2[q]@,
        );
        assert forall|k: int| 0 <= k < r implies #[trigger] sol1.take(r)[k]@ == sol2.take(r)[k]@ by {
            if k < q {
                assert(sol1.take(q)[k]@ == sol2.take(q)[k]@);
            }
        }
    }
}

/// The nearest-neighbour solution of an instance is unique: any two
/// solutions that satisfy `nearest_neighbor_solution` hold the same routes.
/// In particular the construction with candidate lists builds exactly the
/// solution of the plain construction.
pub proof fn lemma_nearest_neighbor_unique(
    n: int,
    capacity: i32,
    demands: Seq<i32>,
    dm: Seq<Vec<i32>>,
    sol1: Seq<Vec<usize>>,
    sol2: Seq<Vec<usize>>,
)
    requires
        nearest_neighbor_solution(n, capacity, demands, dm, sol1),
        nearest_neighbor_solution(n, capacity, demands, dm, sol2),
    ensures
        same_routes(sol1, sol2),
{
    let r = if sol1.len() <= sol2.len() { sol1.len() as int } else { sol2.len() as int };
    lemma_solution_prefix(n, capacity, demands, dm, sol1, sol2, r);
    lemma_customers_same(sol1.take(r), sol2.take(r));
    if r < sol1.len() {
        assert(sol2.take(r) =~= sol2);
        let route = sol1[r]@;
        assert(nearest_neighbor_route(n, capacity, demands, dm, sol1.take(r), route));
        let x = route[1];
        assert(nearest_next(n, capacity, demands, dm, sol1.take(r), route.take(1), x as int));
        assert(customers(sol2).contains(x));
    }
    if r < sol2.len() {
        assert(sol1.take(r) =~= sol1);
        let route = sol2[r]@;
        assert(nearest_neighbor_route(n, capacity, demands, dm, sol2.take(r), route));
        let x = route[1];
        assert(nearest_next(n, capacity, demands, dm, sol2.take(r), route.take(1), x as int));
        assert(customers(sol1).contains(x));
    }
    assert(sol1.take(r) =~= sol1);
    assert(sol2.take(r) =~= sol2);
}

/// A customer of the first `t` routes is a customer of the solution.
proof fn lemma_customers_take_contains(sol: Seq<Vec<usize>>, t: int, x: usize)
    requires
        0 <= t <= sol.len(),
        customers(sol.take(t)).contains(x),
    ensures
        customers(sol).contains(x),
    decreases sol.len(),
{
    if t == sol.len() {
        assert(sol.take(t) =~= sol);
    } else {
        let p = sol.drop_last();
        assert(p.take(t) =~= sol.take(t));
        lemma_customers_take_contains(p, t, x);
        let q = choose|q: int| 0 <= q < customers(p).len() && customers(p)[q] == x;
        assert(customers(sol) == customers(p) + interior(sol.last()@));
        assert(customers(sol)[q] == x);
    }
}

/// When the construction ends, every route it starts while a customer is
/// unserved can take a first customer from the depot.
proof fn lemma_first_pick(
    n: int,
    capacity: i32,
    demands: Seq<i32>,
    dm: Seq<Vec<i32>>,
    done: Seq<Vec<usize>>,
    sol: Seq<Vec<usize>>,
    w: usize,
)
    requires
        nn_routes(n, capacity, demands, dm, done),
        nearest_neighbor_solution(n, capacity, demands, dm, sol),
        1 <= w < n,
        !customers(done).contains(w),
    ensures
        exists|x: int| can_visit(n, capacity, demands, dm, done, seq![0usize], x),
{
    let r = if done.len() <= sol.len() { done.len() as int } else { sol.len() as int };
    lemma_solution_prefix(n, capacity, demands, dm, done, sol, r);
    lemma_customers_same(done.take(r), sol.take(r));
    if sol.len() <= done.len() {
        assert(sol.take(r) =~= sol);
        assert(customers(sol).contains(w));
        lemma_customers_take_contains(done, r, w);
        assert(false);
    } else {
        assert(done.take(r) =~= done);
        let route = sol[r]@;
        assert(nearest_neighbor_route(n, capacity, demands, dm, sol.take(r), route));
        let x = route[1] as int;
        assert(nearest_next(n, capacity, demands, dm, sol.take(r), route.take(1), x));
        assert(route.take(1) =~= seq![0usize]);
        assert(can_visit(n, capacity, demands, dm, done, seq![0usize], x));
    }
}

} // verus!
