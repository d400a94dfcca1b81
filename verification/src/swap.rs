//! Swap local search: exchange a customer of one route with a customer of a
//! later route whenever both routes stay within capacity and the four edges
//! around the two customers get shorter, pass after pass, until a pass
//! changes nothing.
use vstd::prelude::*;
use crate::cost::{
    edges_in_range, entry, lemma_path_cost_floor, load, nodes_below, path_cost, total_path_cost,
};
use crate::three_opt::lex_before;
use crate::solution::{
    customers, ends_nonnegative, interior, lemma_load_split, lemma_route_of_shape, route_shape,
    same_routes, serves_each_once, solution_shape, within_capacity,
};

verus! {

/// The directed distance of a concatenation of two non-empty routes.
pub proof fn lemma_path_cost_concat(dm: Seq<Vec<i32>>, a: Seq<usize>, b: Seq<usize>)
    requires
        a.len() >= 1,
        b.len() >= 1,
    ensures
        path_cost(dm, a + b) == path_cost(dm, a) + entry(dm, a.last() as int, b[0] as int)
            + path_cost(dm, b),
    decreases b.len(),
{
    if b.len() == 1 {
        assert((a + b).drop_last() =~= a);
        assert(path_cost(dm, b) == 0);
    } else {
        lemma_path_cost_concat(dm, a, b.drop_last());
        assert((a + b).drop_last() =~= a + b.drop_last());
        assert(b.drop_last()[0] == b[0]);
    }
}

/// Replacing the node at an inner position `k` by `y` changes the directed
/// distance by the difference of the two edges around position `k`.
pub proof fn lemma_path_cost_update(dm: Seq<Vec<i32>>, route: Seq<usize>, k: int, y: usize)
    requires
        1 <= k < route.len() - 1,
    ensures
        path_cost(dm, route.update(k, y)) - path_cost(dm, route) == entry(
            dm,
            route[k - 1] as int,
            y as int,
        ) + entry(dm, y as int, route[k + 1] as int) - entry(dm, route[k - 1] as int, route[k] as int)
            - entry(dm, route[k] as int, route[k + 1] as int),
{
    let a = route.take(k);
    let b = route.skip(k + 1);
    let x = route[k];
    assert(route =~= a + seq![x] + b);
    assert(route.update(k, y) =~= a + seq![y] + b);
    lemma_path_cost_concat(dm, a, seq![x]);
    lemma_path_cost_concat(dm, a + seq![x], b);
    lemma_path_cost_concat(dm, a, seq![y]);
    lemma_path_cost_concat(dm, a + seq![y], b);
    assert(path_cost(dm, seq![x]) == 0);
    assert(path_cost(dm, seq![y]) == 0);
    assert((a + seq![x]).last() == x);
    assert((a + seq![y]).last() == y);
    assert(a.last() == route[k - 1]);
    assert(b[0] == route[k + 1]);
}

/// Updating one route of a solution changes the total distance by the
/// change of that route.
pub proof fn lemma_total_update(dm: Seq<Vec<i32>>, sol: Seq<Vec<usize>>, i: int, v: Vec<usize>)
    requires
        0 <= i < sol.len(),
    ensures
        total_path_cost(dm, sol.update(i, v)) == total_path_cost(dm, sol) - path_cost(dm, sol[i]@)
            + path_cost(dm, v@),
    decreases sol.len(),
{
    let u = sol.update(i, v);
    if i == sol.len() - 1 {
        assert(u.drop_last() =~= sol.drop_last());
    } else {
        lemma_total_update(dm, sol.drop_last(), i, v);
        assert(u.drop_last() =~= sol.drop_last().update(i, v));
    }
}

/// The total node count of a solution.
pub open spec fn total_len(sol: Seq<Vec<usize>>) -> int
    decreases sol.len(),
{
    if sol.len() == 0 {
        0
    } else {
        total_len(sol.drop_last()) + sol.last()@.len()
    }
}

/// The total distance is at least `-(total_len * 2^31)`.
pub proof fn lemma_total_lower_bound(dm: Seq<Vec<i32>>, sol: Seq<Vec<usize>>)
    requires
        forall|r: int| 0 <= r < sol.len() ==> edges_in_range(dm, #[trigger] sol[r]@),
    ensures
        total_path_cost(dm, sol) >= -(total_len(sol) * 0x8000_0000),
        total_len(sol) >= 0,
    decreases sol.len(),
{
    if sol.len() > 0 {
        let p = sol.drop_last();
        assert forall|r: int| 0 <= r < p.len() implies edges_in_range(dm, #[trigger] p[r]@) by {
            assert(p[r] == sol[r]);
        }
        lemma_total_lower_bound(dm, p);
        let route = sol.last()@;
        assert(edges_in_range(dm, sol[sol.len() - 1]@));
        lemma_path_cost_floor(dm, route);
    }
}

/// The solution has the node `x` at some position.
pub open spec fn node_of(sol: Seq<Vec<usize>>, x: usize) -> bool {
    exists|r: int, k: int| 0 <= r < sol.len() && 0 <= k < sol[r]@.len() && #[trigger] sol[r]@[k] == x
}

/// Every node of the solution indexes the demands and the matrix's rows,
/// and every two nodes `x`, `y` of the solution have an entry `dm[x][y]`.
pub open spec fn solution_in_range(dm: Seq<Vec<i32>>, demands: Seq<i32>, sol: Seq<Vec<usize>>) -> bool {
    forall|x: usize, y: usize|
        #[trigger] node_of(sol, x) && #[trigger] node_of(sol, y) ==> x < demands.len() && x < dm.len()
            && y < dm[x as int]@.len()
}

/// The node at a position of a solution is one of its nodes.
proof fn lemma_node_at(sol: Seq<Vec<usize>>, r: int, k: int)
    requires
        0 <= r < sol.len(),
        0 <= k < sol[r]@.len(),
    ensures
        node_of(sol, sol[r]@[k]),
{
}

/// In a solution in range, every route has its edges and nodes in range.
proof fn lemma_solution_route_in_range(
    dm: Seq<Vec<i32>>,
    demands: Seq<i32>,
    sol: Seq<Vec<usize>>,
    r: int,
)
    requires
        solution_in_range(dm, demands, sol),
        0 <= r < sol.len(),
    ensures
        edges_in_range(dm, sol[r]@),
        nodes_below(sol[r]@, demands.len() as int),
{
    let route = sol[r]@;
    assert forall|k: int| 0 <= k < route.len() - 1 implies #[trigger] route[k] < dm.len() && route[k
        + 1] < dm[route[k] as int]@.len() by {
        lemma_node_at(sol, r, k);
        lemma_node_at(sol, r, k + 1);
    }
    assert forall|k: int| 0 <= k < route.len() implies #[trigger] route[k] < demands.len() by {
        lemma_node_at(sol, r, k);
    }
}

/// A trade keeps a solution in range.
proof fn lemma_traded_in_range(
    dm: Seq<Vec<i32>>,
    demands: Seq<i32>,
    sol: Seq<Vec<usize>>,
    q: (int, int, int, int),
    after: Seq<Vec<usize>>,
)
    requires
        solution_in_range(dm, demands, sol),
        swap_in_range(sol, q.0, q.1, q.2, q.3),
        traded(sol, q, after),
    ensures
        solution_in_range(dm, demands, after),
{
    assert forall|x: usize| #[trigger] node_of(after, x) implies node_of(sol, x) by {
        let (r, k) = choose|r: int, k: int|
            0 <= r < after.len() && 0 <= k < after[r]@.len() && #[trigger] after[r]@[k] == x;
        if r == q.0 {
            if k == q.2 {
                lemma_node_at(sol, q.1, q.3);
            } else {
                lemma_node_at(sol, r, k);
            }
        } else if r == q.1 {
            if k == q.3 {
                lemma_node_at(sol, q.0, q.2);
            } else {
                lemma_node_at(sol, r, k);
            }
        } else {
            assert(after[r]@ == sol[r]@);
            lemma_node_at(sol, r, k);
        }
    }
}

/// Two solutions with routes of the same lengths have the same total length.
pub proof fn lemma_total_len_same(a: Seq<Vec<usize>>, b: Seq<Vec<usize>>)
    requires
        a.len() == b.len(),
        forall|r: int| 0 <= r < a.len() ==> #[trigger] a[r]@.len() == b[r]@.len(),
    ensures
        total_len(a) == total_len(b),
    decreases a.len(),
{
    if a.len() > 0 {
        let pa = a.drop_last();
        let pb = b.drop_last();
        assert forall|r: int| 0 <= r < pa.len() implies #[trigger] pa[r]@.len() == pb[r]@.len() by {
            assert(pa[r] == a[r] && pb[r] == b[r]);
        }
        lemma_total_len_same(pa, pb);
        assert(a[a.len() - 1]@.len() == b[a.len() - 1]@.len());
    }
}

/// The change of the four edges around `sol[i][k]` and `sol[j][l]` when the
/// two customers trade places: `(new, current)`.
pub open spec fn swap_costs(dm: Seq<Vec<i32>>, sol: Seq<Vec<usize>>, i: int, j: int, k: int, l: int) -> (
    int,
    int,
) {
    let ri = sol[i]@;
    let rj = sol[j]@;
    let current = entry(dm, ri[k - 1] as int, ri[k] as int) + entry(dm, ri[k] as int, ri[k + 1] as int)
        + entry(dm, rj[l - 1] as int, rj[l] as int) + entry(dm, rj[l] as int, rj[l + 1] as int);
    let new = entry(dm, ri[k - 1] as int, rj[l] as int) + entry(dm, rj[l] as int, ri[k + 1] as int)
        + entry(dm, rj[l - 1] as int, ri[k] as int) + entry(dm, ri[k] as int, rj[l + 1] as int);
    (new, current)
}

/// Positions `k` of route `i` and `l` of a later route `j` are inner
/// positions of the solution.
pub open spec fn swap_in_range(sol: Seq<Vec<usize>>, i: int, j: int, k: int, l: int) -> bool {
    &&& 0 <= i < j < sol.len()
    &&& 1 <= k < sol[i]@.len() - 1
    &&& 1 <= l < sol[j]@.len() - 1
}

/// Trading `sol[i][k]` and `sol[j][l]` keeps both routes within capacity and
/// shortens the four edges around them.
pub open spec fn swap_improves(
    dm: Seq<Vec<i32>>,
    demands: Seq<i32>,
    capacity: i32,
    sol: Seq<Vec<usize>>,
    i: int,
    j: int,
    k: int,
    l: int,
) -> bool {
    &&& swap_in_range(sol, i, j, k, l)
    &&& load(demands, sol[i]@.update(k, sol[j]@[l])) <= capacity
    &&& load(demands, sol[j]@.update(l, sol[i]@[k])) <= capacity
    &&& swap_costs(dm, sol, i, j, k, l).0 < swap_costs(dm, sol, i, j, k, l).1
}

/// No trade of two customers improves the solution.
pub open spec fn swap_optimal(
    dm: Seq<Vec<i32>>,
    demands: Seq<i32>,
    capacity: i32,
    sol: Seq<Vec<usize>>,
) -> bool {
    forall|i: int, j: int, k: int, l: int|
        !#[trigger] swap_improves(dm, demands, capacity, sol, i, j, k, l)
}

/// Trading `ri[k]` with `rj[l]` puts one of the two routes over capacity
/// or does not shorten the four edges around the two customers:
/// `dm[ri[k-1]][rj[l]] + dm[rj[l]][ri[k+1]] + dm[rj[l-1]][ri[k]] + dm[ri[k]][rj[l+1]]`
/// is at least
/// `dm[ri[k-1]][ri[k]] + dm[ri[k]][ri[k+1]] + dm[rj[l-1]][rj[l]] + dm[rj[l]][rj[l+1]]`.
pub open spec fn trade_rejected(
    dm: Seq<Vec<i32>>,
    demands: Seq<i32>,
    capacity: i32,
    ri: Seq<usize>,
    rj: Seq<usize>,
    k: int,
    l: int,
) -> bool {
    ||| load(demands, ri.update(k, rj[l])) > capacity
    ||| load(demands, rj.update(l, ri[k])) > capacity
    ||| dm[ri[k - 1] as int]@[rj[l] as int] + dm[rj[l] as int]@[ri[k + 1] as int]
        + dm[rj[l - 1] as int]@[ri[k] as int] + dm[ri[k] as int]@[rj[l + 1] as int]
        >= dm[ri[k - 1] as int]@[ri[k] as int] + dm[ri[k] as int]@[ri[k + 1] as int]
        + dm[rj[l - 1] as int]@[rj[l] as int] + dm[rj[l] as int]@[rj[l + 1] as int]
}

/// Trades over every pair of routes: in a swap-optimal solution, for every
/// two routes `i < j` (any two, not only neighbours) and inner positions
/// `1 <= k < len_i - 1`, `1 <= l < len_j - 1`, the trade of `sol[i][k]` and
/// `sol[j][l]` is rejected.
pub proof fn lemma_swap_optimal_every_pair(
    dm: Seq<Vec<i32>>,
    demands: Seq<i32>,
    capacity: i32,
    sol: Seq<Vec<usize>>,
)
    requires
        swap_optimal(dm, demands, capacity, sol),
    ensures
        forall|i: int, j: int, k: int, l: int|
            0 <= i < j < sol.len() && 1 <= k < sol[i]@.len() - 1 && 1 <= l < sol[j]@.len() - 1
                ==> #[trigger] trade_rejected(dm, demands, capacity, sol[i]@, sol[j]@, k, l),
{
    assert forall|i: int, j: int, k: int, l: int|
        0 <= i < j < sol.len() && 1 <= k < sol[i]@.len() - 1 && 1 <= l < sol[j]@.len() - 1 implies
        #[trigger] trade_rejected(dm, demands, capacity, sol[i]@, sol[j]@, k, l) by {
        lemma_swap_not_improving(dm, demands, capacity, sol, i, j, k, l);
    }
}

/// One trade of a swap-optimal solution, spelled out.
proof fn lemma_swap_not_improving(
    dm: Seq<Vec<i32>>,
    demands: Seq<i32>,
    capacity: i32,
    sol: Seq<Vec<usize>>,
    i: int,
    j: int,
    k: int,
    l: int,
)
    requires
        swap_optimal(dm, demands, capacity, sol),
        swap_in_range(sol, i, j, k, l),
    ensures
        load(demands, sol[i]@.update(k, sol[j]@[l])) > capacity || load(
            demands,
            sol[j]@.update(l, sol[i]@[k]),
        ) > capacity || swap_costs(dm, sol, i, j, k, l).0 >= swap_costs(dm, sol, i, j, k, l).1,
{
    assert(!swap_improves(dm, demands, capacity, sol, i, j, k, l));
}


/// The demand of `route` with the node at `swap_index` replaced by
/// `new_customer`.
fn compute_route_demand_with_swap(
    route: &Vec<usize>,
    demands: &Vec<i32>,
    swap_index: usize,
    new_customer: usize,
) -> (total: i128)
    requires
        swap_index < route@.len(),
        nodes_below(route@.update(swap_index as int, new_customer), demands@.len() as int),
    ensures
        total == load(demands@, route@.update(swap_index as int, new_customer)),
{
    let ghost u = route@.update(swap_index as int, new_customer);
    let mut total_demand: i128 = 0;
    let mut t: usize = 0;
    proof {
        assert(u.take(0).len() == 0);
    }
    while t < route.len()
        invariant
            u == route@.update(swap_index as int, new_customer),
            swap_index < route@.len(),
            0 <= t <= route@.len(),
            nodes_below(u, demands@.len() as int),
            total_demand == load(demands@, u.take(t as int)),
            -(t * 0x8000_0000) <= total_demand <= t * 0x8000_0000,
        decreases route@.len() - t,
    {
        let node = if t == swap_index { new_customer } else { route[t] };
        proof {
            assert(node == u[t as int]);
            assert(u.take(t + 1).drop_last() =~= u.take(t as int));
            assert(u[t as int] < demands@.len());
        }
        total_demand = total_demand + demands[node] as i128;
        t = t + 1;
    }
    proof {
        assert(u.take(route@.len() as int) =~= u);
    }
    total_demand
}


/// Changing an inner node of a route of a solution changes its customers by
/// that node.
pub proof fn lemma_customers_update(sol: Seq<Vec<usize>>, i: int, k: int, y: usize, v: Vec<usize>)
    requires
        0 <= i < sol.len(),
        1 <= k < sol[i]@.len() - 1,
        v@ == sol[i]@.update(k, y),
    ensures
        customers(sol.update(i, v)).to_multiset() == customers(sol).to_multiset().insert(y).remove(
            sol[i]@[k],
        ),
        customers(sol.update(i, v)).len() == customers(sol).len(),
    decreases sol.len(),
{
    broadcast use vstd::seq_lib::lemma_multiset_commutative;
    broadcast use vstd::seq_lib::group_to_multiset_ensures;
    broadcast use vstd::multiset::group_multiset_axioms;

    let u = sol.update(i, v);
    let x = sol[i]@[k];
    if i == sol.len() - 1 {
        assert(u.drop_last() =~= sol.drop_last());
        let b = interior(sol[i]@);
        assert(interior(v@) =~= b.update(k - 1, y));
        assert(b[k - 1] == x);
        let a = customers(sol.drop_last());
        assert(customers(u) == a + b.update(k - 1, y));
        assert(customers(sol) == a + b);
        assert(b.to_multiset().count(x) > 0) by {
            assert(b.contains(x));
        }
        assert(customers(u).to_multiset() =~= customers(sol).to_multiset().insert(y).remove(x));
    } else {
        lemma_customers_update(sol.drop_last(), i, k, y, v);
        assert(u.drop_last() =~= sol.drop_last().update(i, v));
        assert(u.last() == sol.last());
        let a = customers(sol.drop_last());
        let a2 = customers(u.drop_last());
        let b = interior(sol.last()@);
        assert(customers(u) == a2 + b);
        assert(customers(sol) == a + b);
        assert(sol.drop_last()[i] == sol[i]);
        assert(a.to_multiset().count(x) > 0) by {
            let p = sol.drop_last();
            assert(a2.to_multiset() == a.to_multiset().insert(y).remove(x));
            lemma_customer_of_route(p, i, k);
        }
        assert(customers(u).to_multiset() =~= customers(sol).to_multiset().insert(y).remove(x));
    }
}

/// An inner node of a route is one of the solution's customers.
pub proof fn lemma_customer_of_route(sol: Seq<Vec<usize>>, i: int, k: int)
    requires
        0 <= i < sol.len(),
        1 <= k < sol[i]@.len() - 1,
    ensures
        customers(sol).to_multiset().count(sol[i]@[k]) > 0,
    decreases sol.len(),
{
    broadcast use vstd::seq_lib::lemma_multiset_commutative;
    broadcast use vstd::seq_lib::group_to_multiset_ensures;
    broadcast use vstd::multiset::group_multiset_axioms;

    let x = sol[i]@[k];
    if i == sol.len() - 1 {
        let b = interior(sol[i]@);
        assert(b[k - 1] == x);
        assert(b.contains(x));
        assert(customers(sol) == customers(sol.drop_last()) + b);
    } else {
        lemma_customer_of_route(sol.drop_last(), i, k);
        assert(sol.drop_last()[i] == sol[i]);
        assert(customers(sol) == customers(sol.drop_last()) + interior(sol.last()@));
    }
}

/// Sets `solution[r][p]` to `x`.
fn set_node(solution: &mut Vec<Vec<usize>>, r: usize, p: usize, x: usize)
    requires
        r < old(solution)@.len(),
        p < old(solution)@[r as int]@.len(),
    ensures
        final(solution)@.len() == old(solution)@.len(),
        final(solution)@[r as int]@ == old(solution)@[r as int]@.update(p as int, x),
        forall|q: int| 0 <= q < old(solution)@.len() && q != r ==> #[trigger] final(solution)@[q] == old(solution)@[q],
{
    solution[r][p] = x;
}


/// What the swap search keeps between the solution it started from and the
/// current one.
pub open spec fn swap_kept(
    demands: Seq<i32>,
    capacity: i32,
    dm: Seq<Vec<i32>>,
    start: Seq<Vec<usize>>,
    sol: Seq<Vec<usize>>,
) -> bool {
    &&& solution_in_range(dm, demands, sol)
    &&& forall|r: int|
        0 <= r < sol.len() ==> (#[trigger] sol[r])@.len() >= 1 && sol[r]@[0] == start[r]@[0]
            && sol[r]@[sol[r]@.len() - 1] == start[r]@[start[r]@.len() - 1]
    &&& forall|m: int| #[trigger] solution_shape(start, m) ==> solution_shape(sol, m)
    &&& sol.len() == start.len()
    &&& forall|r: int| 0 <= r < sol.len() ==> #[trigger] sol[r]@.len() == start[r]@.len()
    &&& customers(sol).to_multiset() == customers(start).to_multiset()
    &&& total_path_cost(dm, sol) <= total_path_cost(dm, start)
    &&& forall|r: int|
        0 <= r < sol.len() ==> #[trigger] sol[r]@ == start[r]@ || load(demands, sol[r]@) <= capacity
}

/// Trades `solution[i][k]` and `solution[j][l]` when that improves the
/// solution; tells whether it did.
#[verifier::spinoff_prover]
#[verifier::rlimit(30)]
fn try_one_swap(
    solution: &mut Vec<Vec<usize>>,
    i: usize,
    j: usize,
    k: usize,
    l: usize,
    distance_matrix: &Vec<Vec<i32>>,
    demands: &Vec<i32>,
    vehicle_capacity: i32,
) -> (swapped: bool)
    requires
        solution_in_range(distance_matrix@, demands@, old(solution)@),
        swap_in_range(old(solution)@, i as int, j as int, k as int, l as int),
    ensures
        swapped == swap_improves(
            distance_matrix@,
            demands@,
            vehicle_capacity,
            old(solution)@,
            i as int,
            j as int,
            k as int,
            l as int,
        ),
        !swapped ==> final(solution)@ == old(solution)@,
        swapped ==> {
            &&& solution_in_range(distance_matrix@, demands@, final(solution)@)
            &&& forall|m: int|
                #[trigger] solution_shape(old(solution)@, m) ==> solution_shape(final(solution)@, m)
            &&& final(solution)@.len() == old(solution)@.len()
            &&& forall|r: int|
                0 <= r < final(solution)@.len() ==> #[trigger] final(solution)@[r]@.len() == old(
                    solution,
                )@[r]@.len()
            &&& customers(final(solution)@).to_multiset() == customers(old(solution)@).to_multiset()
            &&& total_path_cost(distance_matrix@, final(solution)@) < total_path_cost(
                distance_matrix@,
                old(solution)@,
            )
            &&& forall|r: int|
                0 <= r < final(solution)@.len() ==> #[trigger] final(solution)@[r]@ == old(
                    solution,
                )@[r]@ || load(demands@, final(solution)@[r]@) <= vehicle_capacity
            &&& traded(old(solution)@, (i as int, j as int, k as int, l as int), final(solution)@)
        },
{
    let ghost dm = distance_matrix@;
    let ghost ds = demands@;
    let ghost n = demands@.len() as int;
    let ghost sol0 = solution@;
    proof {
        lemma_solution_route_in_range(dm, ds, sol0, i as int);
        lemma_solution_route_in_range(dm, ds, sol0, j as int);
    }
    let customer_i = solution[i][k];
    let customer_j = solution[j][l];
    proof {
        let ui = sol0[i as int]@.update(k as int, customer_j);
        let uj = sol0[j as int]@.update(l as int, customer_i);
        assert(nodes_below(ui, n));
        assert(nodes_below(uj, n));
    }
    let new_demand_i = compute_route_demand_with_swap(&solution[i], demands, k, customer_j);
    let new_demand_j = compute_route_demand_with_swap(&solution[j], demands, l, customer_i);
    if new_demand_i <= vehicle_capacity as i128 && new_demand_j <= vehicle_capacity as i128 {
        let len_i = solution[i].len();
        let len_j = solution[j].len();
        let a = solution[i][k - 1];
        let b = solution[i][k + 1];
        let c = solution[j][l - 1];
        let e = solution[j][l + 1];
        proof {
            lemma_node_at(sol0, i as int, k - 1);
            lemma_node_at(sol0, i as int, k as int);
            lemma_node_at(sol0, i as int, k + 1);
            lemma_node_at(sol0, j as int, l - 1);
            lemma_node_at(sol0, j as int, l as int);
            lemma_node_at(sol0, j as int, l + 1);
        }
        let current_cost = distance_matrix[a][customer_i] as i128 + distance_matrix[customer_i][b] as i128
            + distance_matrix[c][customer_j] as i128 + distance_matrix[customer_j][e] as i128;
        let new_cost = distance_matrix[a][customer_j] as i128 + distance_matrix[customer_j][b] as i128
            + distance_matrix[c][customer_i] as i128 + distance_matrix[customer_i][e] as i128;
        if new_cost < current_cost {
            set_node(solution, i, k, customer_j);
            let ghost sol1 = solution@;
            set_node(solution, j, l, customer_i);
            proof {
                let sol2 = solution@;
                assert(sol1 =~= sol0.update(i as int, sol1[i as int]));
                assert(sol2 =~= sol1.update(j as int, sol2[j as int]));
                assert(sol1[j as int] == sol0[j as int]);
                lemma_customers_update(sol0, i as int, k as int, customer_j, sol1[i as int]);
                lemma_customers_update(sol1, j as int, l as int, customer_i, sol2[j as int]);
                lemma_customer_of_route(sol0, i as int, k as int);
                lemma_customer_of_route(sol1, j as int, l as int);
                assert(customers(sol2).to_multiset() =~= customers(sol0).to_multiset());
                lemma_path_cost_update(dm, sol0[i as int]@, k as int, customer_j);
                lemma_path_cost_update(dm, sol1[j as int]@, l as int, customer_i);
                lemma_total_update(dm, sol0, i as int, sol1[i as int]);
                lemma_total_update(dm, sol1, j as int, sol2[j as int]);
                assert forall|m: int| #[trigger] solution_shape(sol0, m) implies solution_shape(sol2, m) by {
                    lemma_route_of_shape(sol0, m, i as int);
                    lemma_route_of_shape(sol0, m, j as int);
                    assert(1 <= customer_i && 1 <= customer_j);
                    assert forall|r: int| 0 <= r < sol2.len() implies route_shape(#[trigger] sol2[r]@, m) by {
                        if r == i {
                            assert(sol2[r]@ == sol0[r]@.update(k as int, customer_j));
                            assert(route_shape(sol0[r]@, m));
                        } else if r == j {
                            assert(sol2[r]@ == sol0[r]@.update(l as int, customer_i));
                            assert(route_shape(sol0[r]@, m));
                        } else {
                            assert(sol2[r] == sol0[r]);
                        }
                    }
                }
                assert(sol2[i as int]@ == sol0[i as int]@.update(k as int, customer_j));
                assert(sol2[j as int]@ == sol0[j as int]@.update(l as int, customer_i));
                assert forall|r: int| 0 <= r < sol2.len() implies #[trigger] sol2[r]@.len() == sol0[r]@.len() by {
                    if r != i && r != j {
                        assert(sol2[r] == sol0[r]);
                    }
                }
                assert forall|r: int| 0 <= r < sol2.len() implies #[trigger] sol2[r]@ == sol0[r]@ || load(ds, sol2[r]@)
                    <= vehicle_capacity by {
                    if r != i && r != j {
                        assert(sol2[r] == sol0[r]);
                    }
                }
            }
            proof {
                let sol2 = solution@;
                assert forall|r: int| 0 <= r < sol0.len() && r != i && r != j implies #[trigger] sol2[r]@
                    == sol0[r]@ by {
                    assert(sol2[r] == sol0[r]);
                }
                lemma_traded_in_range(
                    dm,
                    ds,
                    sol0,
                    (i as int, j as int, k as int, l as int),
                    sol2,
                );
            }
            return true;
        }
    }
    false
}


/// The position a pass starts from: before every trade position.
pub open spec fn pass_start_pos() -> (int, int, int, int) {
    (-1, 0, 0, 0)
}

/// No improving trade lies strictly between positions `p` and `q`.
pub open spec fn swap_clear(
    dm: Seq<Vec<i32>>,
    demands: Seq<i32>,
    capacity: i32,
    sol: Seq<Vec<usize>>,
    p: (int, int, int, int),
    q: (int, int, int, int),
) -> bool {
    forall|a: int, b: int, c: int, d: int|
        #[trigger] swap_improves(dm, demands, capacity, sol, a, b, c, d) && lex_before(p, (a, b, c, d))
            ==> !lex_before((a, b, c, d), q)
}

/// No improving trade comes after position `p`.
pub open spec fn swap_none_after(
    dm: Seq<Vec<i32>>,
    demands: Seq<i32>,
    capacity: i32,
    sol: Seq<Vec<usize>>,
    p: (int, int, int, int),
) -> bool {
    forall|a: int, b: int, c: int, d: int|
        #[trigger] swap_improves(dm, demands, capacity, sol, a, b, c, d) ==> !lex_before(p, (a, b, c, d))
}

/// `q` is the first improving trade after position `p`.
pub open spec fn first_swap_after(
    dm: Seq<Vec<i32>>,
    demands: Seq<i32>,
    capacity: i32,
    sol: Seq<Vec<usize>>,
    p: (int, int, int, int),
    q: (int, int, int, int),
) -> bool {
    &&& swap_improves(dm, demands, capacity, sol, q.0, q.1, q.2, q.3)
    &&& lex_before(p, q)
    &&& swap_clear(dm, demands, capacity, sol, p, q)
}

/// `after` is `sol` with the customers at `q = (i, j, k, l)`, that is
/// `sol[i][k]` and `sol[j][l]`, traded.
pub open spec fn traded(sol: Seq<Vec<usize>>, q: (int, int, int, int), after: Seq<Vec<usize>>) -> bool {
    &&& after.len() == sol.len()
    &&& after[q.0]@ == sol[q.0]@.update(q.2, sol[q.1]@[q.3])
    &&& after[q.1]@ == sol[q.1]@.update(q.3, sol[q.0]@[q.2])
    &&& forall|r: int| 0 <= r < sol.len() && r != q.0 && r != q.1 ==> #[trigger] after[r]@ == sol[r]@
}

/// One trade of the search, made after the trade at `prev`: the first
/// improving trade after `prev` in the current pass or, when the pass has
/// none left, the first improving trade of the next pass.
pub open spec fn swap_step(
    dm: Seq<Vec<i32>>,
    demands: Seq<i32>,
    capacity: i32,
    sol: Seq<Vec<usize>>,
    prev: (int, int, int, int),
    q: (int, int, int, int),
    after: Seq<Vec<usize>>,
) -> bool {
    &&& traded(sol, q, after)
    &&& {
        ||| first_swap_after(dm, demands, capacity, sol, prev, q)
        ||| swap_none_after(dm, demands, capacity, sol, prev) && first_swap_after(
            dm,
            demands,
            capacity,
            sol,
            pass_start_pos(),
            q,
        )
    }
}

/// The position of the trade before trade `t` (the pass start for the
/// first trade).
pub open spec fn previous_trade(ps: Seq<(int, int, int, int)>, t: int) -> (int, int, int, int) {
    if t == 0 {
        pass_start_pos()
    } else {
        ps[t - 1]
    }
}

/// The search passes through the solutions `sols`, trading at the
/// positions `ps`.
pub open spec fn swap_trace(
    dm: Seq<Vec<i32>>,
    demands: Seq<i32>,
    capacity: i32,
    sols: Seq<Seq<Vec<usize>>>,
    ps: Seq<(int, int, int, int)>,
) -> bool {
    &&& sols.len() == ps.len() + 1
    &&& forall|t: int|
        0 <= t < ps.len() ==> swap_step(
            dm,
            demands,
            capacity,
            #[trigger] sols[t],
            previous_trade(ps, t),
            ps[t],
            sols[t + 1],
        )
}

/// `result` is what the swap search reaches from `start`: the trades of its
/// passes lead there, and no trade improves it.
pub open spec fn swap_result(
    dm: Seq<Vec<i32>>,
    demands: Seq<i32>,
    capacity: i32,
    start: Seq<Vec<usize>>,
    result: Seq<Vec<usize>>,
) -> bool {
    &&& exists|sols: Seq<Seq<Vec<usize>>>, ps: Seq<(int, int, int, int)>|
        #[trigger] swap_trace(dm, demands, capacity, sols, ps) && sols[0] == start && sols.last()
            == result
    &&& swap_optimal(dm, demands, capacity, result)
}

/// Solutions with the same routes admit the same improving trades.
proof fn lemma_same_routes_improves(
    dm: Seq<Vec<i32>>,
    demands: Seq<i32>,
    capacity: i32,
    a: Seq<Vec<usize>>,
    b: Seq<Vec<usize>>,
)
    requires
        same_routes(a, b),
    ensures
        forall|i: int, j: int, k: int, l: int|
            #[trigger] swap_improves(dm, demands, capacity, a, i, j, k, l) == swap_improves(
                dm,
                demands,
                capacity,
                b,
                i,
                j,
                k,
                l,
            ),
{
    assert forall|i: int, j: int, k: int, l: int|
        #[trigger] swap_improves(dm, demands, capacity, a, i, j, k, l) == swap_improves(
            dm,
            demands,
            capacity,
            b,
            i,
            j,
            k,
            l,
        ) by {
        if 0 <= i < a.len() && 0 <= j < a.len() {
            assert(a[i]@ == b[i]@);
            assert(a[j]@ == b[j]@);
        }
    }
}

/// From solutions with the same routes, the first improving trade after a
/// position is the same.
proof fn lemma_first_swap_unique(
    dm: Seq<Vec<i32>>,
    demands: Seq<i32>,
    capacity: i32,
    a: Seq<Vec<usize>>,
    b: Seq<Vec<usize>>,
    p: (int, int, int, int),
    q1: (int, int, int, int),
    q2: (int, int, int, int),
)
    requires
        same_routes(a, b),
        first_swap_after(dm, demands, capacity, a, p, q1),
        first_swap_after(dm, demands, capacity, b, p, q2),
    ensures
        q1 == q2,
{
    lemma_same_routes_improves(dm, demands, capacity, a, b);
    crate::three_opt::lemma_lex_total(q1, q2);
    assert(swap_improves(dm, demands, capacity, b, q1.0, q1.1, q1.2, q1.3));
    assert(swap_improves(dm, demands, capacity, a, q2.0, q2.1, q2.2, q2.3));
}

/// Two traces from solutions with the same routes agree as far as both go.
proof fn lemma_swap_traces_agree(
    dm: Seq<Vec<i32>>,
    demands: Seq<i32>,
    capacity: i32,
    s1: Seq<Seq<Vec<usize>>>,
    p1: Seq<(int, int, int, int)>,
    s2: Seq<Seq<Vec<usize>>>,
    p2: Seq<(int, int, int, int)>,
    t: int,
)
    requires
        swap_trace(dm, demands, capacity, s1, p1),
        swap_trace(dm, demands, capacity, s2, p2),
        same_routes(s1[0], s2[0]),
        0 <= t < s1.len(),
        t < s2.len(),
    ensures
        same_routes(s1[t], s2[t]),
        forall|u: int| 0 <= u < t ==> p1[u] == p2[u],
    decreases t,
{
    if t > 0 {
        lemma_swap_traces_agree(dm, demands, capacity, s1, p1, s2, p2, t - 1);
        let a = s1[t - 1];
        let b = s2[t - 1];
        let prev = previous_trade(p1, t - 1);
        assert(prev == previous_trade(p2, t - 1));
        let q1 = p1[t - 1];
        let q2 = p2[t - 1];
        assert(swap_step(dm, demands, capacity, a, prev, q1, s1[t]));
        assert(swap_step(dm, demands, capacity, b, prev, q2, s2[t]));
        lemma_same_routes_improves(dm, demands, capacity, a, b);
        if first_swap_after(dm, demands, capacity, a, prev, q1) {
            assert(swap_improves(dm, demands, capacity, b, q1.0, q1.1, q1.2, q1.3));
            assert(!swap_none_after(dm, demands, capacity, b, prev));
            lemma_first_swap_unique(dm, demands, capacity, a, b, prev, q1, q2);
        } else {
            assert(swap_none_after(dm, demands, capacity, a, prev));
            if first_swap_after(dm, demands, capacity, b, prev, q2) {
                assert(swap_improves(dm, demands, capacity, a, q2.0, q2.1, q2.2, q2.3));
                assert(false);
            }
            lemma_first_swap_unique(dm, demands, capacity, a, b, pass_start_pos(), q1, q2);
        }
        let x = s1[t];
        let y = s2[t];
        assert(q1.0 != q1.1);
        assert forall|r: int| 0 <= r < x.len() implies #[trigger] x[r]@ == y[r]@ by {
            assert(a[r]@ == b[r]@);
            assert(a[q1.0]@ == b[q1.0]@);
            assert(a[q1.1]@ == b[q1.1]@);
        }
    }
}

/// The swap search has one result: from solutions with the same routes it
/// reaches solutions with the same routes.
pub proof fn lemma_swap_result_unique(
    dm: Seq<Vec<i32>>,
    demands: Seq<i32>,
    capacity: i32,
    start1: Seq<Vec<usize>>,
    start2: Seq<Vec<usize>>,
    result1: Seq<Vec<usize>>,
    result2: Seq<Vec<usize>>,
)
    requires
        same_routes(start1, start2),
        swap_result(dm, demands, capacity, start1, result1),
        swap_result(dm, demands, capacity, start2, result2),
    ensures
        same_routes(result1, result2),
{
    let (s1, p1) = choose|sols: Seq<Seq<Vec<usize>>>, ps: Seq<(int, int, int, int)>|
        #[trigger] swap_trace(dm, demands, capacity, sols, ps) && sols[0] == start1 && sols.last()
            == result1;
    let (s2, p2) = choose|sols: Seq<Seq<Vec<usize>>>, ps: Seq<(int, int, int, int)>|
        #[trigger] swap_trace(dm, demands, capacity, sols, ps) && sols[0] == start2 && sols.last()
            == result2;
    let l1 = p1.len() as int;
    let l2 = p2.len() as int;
    if l1 < l2 {
        lemma_swap_traces_agree(dm, demands, capacity, s1, p1, s2, p2, l1);
        lemma_same_routes_improves(dm, demands, capacity, s1[l1], s2[l1]);
        let q = p2[l1];
        assert(swap_step(dm, demands, capacity, s2[l1], previous_trade(p2, l1), q, s2[l1 + 1]));
        assert(swap_improves(dm, demands, capacity, s2[l1], q.0, q.1, q.2, q.3));
        assert(swap_improves(dm, demands, capacity, s1[l1], q.0, q.1, q.2, q.3));
    } else if l2 < l1 {
        lemma_swap_traces_agree(dm, demands, capacity, s1, p1, s2, p2, l2);
        lemma_same_routes_improves(dm, demands, capacity, s1[l2], s2[l2]);
        let q = p1[l2];
        assert(swap_step(dm, demands, capacity, s1[l2], previous_trade(p1, l2), q, s1[l2 + 1]));
        assert(swap_improves(dm, demands, capacity, s1[l2], q.0, q.1, q.2, q.3));
        assert(swap_improves(dm, demands, capacity, s2[l2], q.0, q.1, q.2, q.3));
    } else {
        lemma_swap_traces_agree(dm, demands, capacity, s1, p1, s2, p2, l1);
    }
}

/// The swap search is idempotent: searching again from its result gives a
/// solution with the same routes.
pub proof fn lemma_swap_idempotent(
    dm: Seq<Vec<i32>>,
    demands: Seq<i32>,
    capacity: i32,
    start: Seq<Vec<usize>>,
    result: Seq<Vec<usize>>,
    again: Seq<Vec<usize>>,
)
    requires
        swap_result(dm, demands, capacity, start, result),
        swap_result(dm, demands, capacity, result, again),
    ensures
        same_routes(again, result),
{
    let sols = seq![result];
    let ps = Seq::<(int, int, int, int)>::empty();
    assert(swap_trace(dm, demands, capacity, sols, ps));
    assert(swap_result(dm, demands, capacity, result, result));
    lemma_swap_result_unique(dm, demands, capacity, result, result, again, result);
}

/// The position of the last trade of the current pass, which started at
/// trace step `np0`, or the pass start when the pass has traded nothing.
spec fn pass_last(ps: Seq<(int, int, int, int)>, np0: int) -> (int, int, int, int) {
    if ps.len() > np0 {
        ps.last()
    } else {
        pass_start_pos()
    }
}

/// A pass of the swap search at scan position `cur`: the trace from `start`
/// ends at `sol`, the pass started at step `np0` from `pass_start` (after a
/// pass that found nothing more after its last trade), and no improving
/// trade lies between the pass's last trade and `cur`.
#[verifier::opaque]
spec fn scanning(
    dm: Seq<Vec<i32>>,
    demands: Seq<i32>,
    capacity: i32,
    start: Seq<Vec<usize>>,
    sols: Seq<Seq<Vec<usize>>>,
    ps: Seq<(int, int, int, int)>,
    np0: int,
    pass_start: Seq<Vec<usize>>,
    sol: Seq<Vec<usize>>,
    cur: (int, int, int, int),
) -> bool {
    &&& swap_trace(dm, demands, capacity, sols, ps)
    &&& sols[0] == start
    &&& sols.last() == sol
    &&& 0 <= np0 <= ps.len()
    &&& sols[np0] == pass_start
    &&& np0 > 0 ==> swap_none_after(dm, demands, capacity, pass_start, ps[np0 - 1])
    &&& swap_clear(dm, demands, capacity, sol, pass_last(ps, np0), cur)
    &&& lex_before(pass_last(ps, np0), cur)
}

/// Trading at `q` after a scan that reached `q` extends the trace by a step.
proof fn lemma_scan_trade(
    dm: Seq<Vec<i32>>,
    demands: Seq<i32>,
    capacity: i32,
    start: Seq<Vec<usize>>,
    sols: Seq<Seq<Vec<usize>>>,
    ps: Seq<(int, int, int, int)>,
    np0: int,
    pass_start: Seq<Vec<usize>>,
    sol: Seq<Vec<usize>>,
    q: (int, int, int, int),
    after: Seq<Vec<usize>>,
)
    requires
        scanning(dm, demands, capacity, start, sols, ps, np0, pass_start, sol, q),
        swap_improves(dm, demands, capacity, sol, q.0, q.1, q.2, q.3),
        traded(sol, q, after),
        q.2 >= 0,
        q.3 + 1 >= 0,
    ensures
        scanning(
            dm,
            demands,
            capacity,
            start,
            sols.push(after),
            ps.push(q),
            np0,
            pass_start,
            after,
            (q.0, q.1, q.2, q.3 + 1),
        ),
{
    reveal(scanning);
    let t = ps.len() as int;
    let prev = previous_trade(ps, t);
    assert(first_swap_after(dm, demands, capacity, sol, pass_last(ps, np0), q));
    if t == np0 && np0 > 0 {
        assert(sol == pass_start);
        assert(prev == ps[np0 - 1]);
    }
    assert(swap_step(dm, demands, capacity, sol, prev, q, after));
    let sols2 = sols.push(after);
    let ps2 = ps.push(q);
    assert forall|u: int| 0 <= u < ps2.len() implies swap_step(
        dm,
        demands,
        capacity,
        #[trigger] sols2[u],
        previous_trade(ps2, u),
        ps2[u],
        sols2[u + 1],
    ) by {
        if u < t {
            assert(sols2[u] == sols[u]);
            assert(sols2[u + 1] == sols[u + 1]);
            assert(previous_trade(ps2, u) == previous_trade(ps, u));
        } else {
            assert(sols2[u] == sol);
        }
    }
    assert(pass_last(ps2, np0) == q);
    assert(sols2[np0] == sols[np0]);
}

/// A pass starts after the previous one found nothing more after its last
/// trade.
proof fn lemma_scan_begin(
    dm: Seq<Vec<i32>>,
    demands: Seq<i32>,
    capacity: i32,
    start: Seq<Vec<usize>>,
    sols: Seq<Seq<Vec<usize>>>,
    ps: Seq<(int, int, int, int)>,
    sol: Seq<Vec<usize>>,
)
    requires
        swap_trace(dm, demands, capacity, sols, ps),
        sols[0] == start,
        sols.last() == sol,
        ps.len() > 0 ==> swap_none_after(dm, demands, capacity, sol, ps.last()),
    ensures
        scanning(dm, demands, capacity, start, sols, ps, ps.len() as int, sol, sol, (0, 0, 0, 0)),
{
    reveal(scanning);
    let np0 = ps.len() as int;
    assert(sols[np0] == sol);
    assert(pass_last(ps, np0) == pass_start_pos());
}

/// Scanning past a position whose trade does not improve the solution.
proof fn lemma_scan_pass(
    dm: Seq<Vec<i32>>,
    demands: Seq<i32>,
    capacity: i32,
    start: Seq<Vec<usize>>,
    sols: Seq<Seq<Vec<usize>>>,
    ps: Seq<(int, int, int, int)>,
    np0: int,
    pass_start: Seq<Vec<usize>>,
    sol: Seq<Vec<usize>>,
    q: (int, int, int, int),
)
    requires
        scanning(dm, demands, capacity, start, sols, ps, np0, pass_start, sol, q),
        !swap_improves(dm, demands, capacity, sol, q.0, q.1, q.2, q.3),
    ensures
        scanning(dm, demands, capacity, start, sols, ps, np0, pass_start, sol, (q.0, q.1, q.2, q.3 + 1)),
{
    reveal(scanning);
    let p = pass_last(ps, np0);
    assert forall|a: int, b: int, c: int, d: int|
        #[trigger] swap_improves(dm, demands, capacity, sol, a, b, c, d) && lex_before(p, (a, b, c, d))
            implies !lex_before((a, b, c, d), (q.0, q.1, q.2, q.3 + 1)) by {
        assert(!lex_before((a, b, c, d), q));
    }
}

/// Scanning from `cur` on to `next` past positions that are no trades.
proof fn lemma_scan_skip(
    dm: Seq<Vec<i32>>,
    demands: Seq<i32>,
    capacity: i32,
    start: Seq<Vec<usize>>,
    sols: Seq<Seq<Vec<usize>>>,
    ps: Seq<(int, int, int, int)>,
    np0: int,
    pass_start: Seq<Vec<usize>>,
    sol: Seq<Vec<usize>>,
    cur: (int, int, int, int),
    next: (int, int, int, int),
)
    requires
        scanning(dm, demands, capacity, start, sols, ps, np0, pass_start, sol, cur),
        lex_before(cur, next),
        forall|a: int, b: int, c: int, d: int|
            #[trigger] swap_in_range(sol, a, b, c, d) && lex_before((a, b, c, d), next) ==> lex_before(
                (a, b, c, d),
                cur,
            ),
    ensures
        scanning(dm, demands, capacity, start, sols, ps, np0, pass_start, sol, next),
{
    reveal(scanning);
    let p = pass_last(ps, np0);
    assert forall|a: int, b: int, c: int, d: int|
        #[trigger] swap_improves(dm, demands, capacity, sol, a, b, c, d) && lex_before(p, (a, b, c, d))
            implies !lex_before((a, b, c, d), next) by {
        assert(swap_in_range(sol, a, b, c, d));
    }
}

/// At the end of a pass, nothing improves after the pass's last trade.
proof fn lemma_scan_end(
    dm: Seq<Vec<i32>>,
    demands: Seq<i32>,
    capacity: i32,
    start: Seq<Vec<usize>>,
    sols: Seq<Seq<Vec<usize>>>,
    ps: Seq<(int, int, int, int)>,
    np0: int,
    pass_start: Seq<Vec<usize>>,
    sol: Seq<Vec<usize>>,
)
    requires
        scanning(dm, demands, capacity, start, sols, ps, np0, pass_start, sol, (sol.len() as int, 0, 0, 0)),
    ensures
        swap_trace(dm, demands, capacity, sols, ps),
        sols[0] == start,
        sols.last() == sol,
        swap_none_after(dm, demands, capacity, sol, pass_last(ps, np0)),
        ps.len() == np0 ==> swap_optimal(dm, demands, capacity, sol),
{
    reveal(scanning);
    let p = pass_last(ps, np0);
    assert forall|a: int, b: int, c: int, d: int|
        #[trigger] swap_improves(dm, demands, capacity, sol, a, b, c, d) implies !lex_before(p, (a, b, c, d)) by {
        assert(lex_before((a, b, c, d), (sol.len() as int, 0, 0, 0)));
    }
    if ps.len() == np0 {
        assert forall|a: int, b: int, c: int, d: int|
            !#[trigger] swap_improves(dm, demands, capacity, sol, a, b, c, d) by {
            if swap_improves(dm, demands, capacity, sol, a, b, c, d) {
                assert(!lex_before(pass_start_pos(), (a, b, c, d)));
            }
        }
    }
}

/// Trades customers between routes while that improves the solution, pass
/// after pass over all pairs of positions in order, until a pass trades
/// nothing: the solution becomes its swap result. Always returns `false`,
/// like the loop it ends.
pub fn try_swap(
    solution: &mut Vec<Vec<usize>>,
    distance_matrix: &Vec<Vec<i32>>,
    demands: &Vec<i32>,
    vehicle_capacity: i32,
) -> (improved: bool)
    requires
        solution_in_range(distance_matrix@, demands@, old(solution)@),
        forall|r: int| 0 <= r < old(solution)@.len() ==> (#[trigger] old(solution)@[r])@.len() >= 1,
    ensures
        !improved,
        swap_result(distance_matrix@, demands@, vehicle_capacity, old(solution)@, final(solution)@),
        swap_kept(
            demands@,
            vehicle_capacity,
            distance_matrix@,
            old(solution)@,
            final(solution)@,
        ),
        swap_optimal(distance_matrix@, demands@, vehicle_capacity, final(solution)@),
        forall|m: int|
            #[trigger] serves_each_once(old(solution)@, m) ==> serves_each_once(final(solution)@, m),
        final(solution)@ != old(solution)@ ==> total_path_cost(distance_matrix@, final(solution)@)
            < total_path_cost(distance_matrix@, old(solution)@),
        within_capacity(old(solution)@, demands@, vehicle_capacity) && ends_nonnegative(
            demands@,
            old(solution)@,
        ) ==> within_capacity(final(solution)@, demands@, vehicle_capacity),
        forall|i: int, j: int, k: int, l: int|
            0 <= i < j < final(solution)@.len() && 1 <= k < final(solution)@[i]@.len() - 1 && 1 <= l
                < final(solution)@[j]@.len() - 1 ==> #[trigger] trade_rejected(
                distance_matrix@,
                demands@,
                vehicle_capacity,
                final(solution)@[i]@,
                final(solution)@[j]@,
                k,
                l,
            ),
{
    let ghost dm = distance_matrix@;
    let ghost ds = demands@;
    let ghost n = demands@.len() as int;
    let ghost start = solution@;
    let ghost lim: int = 0x8000_0000;
    proof {
        assert forall|r: int| 0 <= r < start.len() implies edges_in_range(dm, #[trigger] start[r]@) by {
            lemma_solution_route_in_range(dm, ds, start, r);
        }
        lemma_total_lower_bound(dm, start);
        assert(customers(start).to_multiset() == customers(start).to_multiset());
    }
    let ghost floor = -(total_len(start) * lim);
    let ghost mut sols: Seq<Seq<Vec<usize>>> = seq![start];
    let ghost mut ps: Seq<(int, int, int, int)> = Seq::empty();
    let mut improved = true;
    while improved
        invariant
            dm == distance_matrix@,
            ds == demands@,
            n == demands@.len(),
            lim == 0x8000_0000,
            ps.len() == 0 ==> solution@ == start,
            ps.len() > 0 ==> total_path_cost(dm, solution@) < total_path_cost(dm, start),
            floor == -(total_len(start) * lim),
            swap_kept(ds, vehicle_capacity, dm, start, solution@),
            total_path_cost(dm, solution@) >= floor,
            swap_trace(dm, ds, vehicle_capacity, sols, ps),
            sols[0] == start,
            sols.last() == solution@,
            improved && ps.len() > 0 ==> swap_none_after(dm, ds, vehicle_capacity, solution@, ps.last()),
            !improved ==> swap_optimal(dm, ds, vehicle_capacity, solution@),
        decreases (if improved { total_path_cost(dm, solution@) - floor + 1 } else { 0 }),
    {
        improved = false;
        let ghost pass_start = solution@;
        let ghost np0 = ps.len() as int;
        let count = solution.len();
        let mut i: usize = 0;
        proof {
            lemma_scan_begin(dm, ds, vehicle_capacity, start, sols, ps, pass_start);
        }
        while i < count
            invariant
                dm == distance_matrix@,
                ds == demands@,
                n == demands@.len(),
                lim == 0x8000_0000,
                ps.len() == 0 ==> solution@ == start,
                ps.len() > 0 ==> total_path_cost(dm, solution@) < total_path_cost(dm, start),
                floor == -(total_len(start) * lim),
                swap_kept(ds, vehicle_capacity, dm, start, solution@),
                total_path_cost(dm, solution@) >= floor,
                count == solution@.len(),
                0 <= i <= count,
                !improved ==> solution@ == pass_start,
                improved ==> total_path_cost(dm, solution@) < total_path_cost(dm, pass_start),
                improved == (ps.len() > np0),
                np0 <= ps.len(),
                scanning(dm, ds, vehicle_capacity, start, sols, ps, np0, pass_start, solution@, (i as int, 0, 0, 0)),
            decreases count - i,
        {
            let mut j: usize = i + 1;
            proof {
                lemma_scan_skip(
                    dm,
                    ds,
                    vehicle_capacity,
                    start,
                    sols,
                    ps,
                    np0,
                    pass_start,
                    solution@,
                    (i as int, 0, 0, 0),
                    (i as int, j as int, 0, 0),
                );
            }
            while j < count
                invariant
                    dm == distance_matrix@,
                    ds == demands@,
                    n == demands@.len(),
                    lim == 0x8000_0000,
                    ps.len() == 0 ==> solution@ == start,
                    ps.len() > 0 ==> total_path_cost(dm, solution@) < total_path_cost(dm, start),
                    floor == -(total_len(start) * lim),
                    swap_kept(ds, vehicle_capacity, dm, start, solution@),
                    total_path_cost(dm, solution@) >= floor,
                    count == solution@.len(),
                    0 <= i < count,
                    i < j <= count,
                    !improved ==> solution@ == pass_start,
                    improved ==> total_path_cost(dm, solution@) < total_path_cost(dm, pass_start),
                    improved == (ps.len() > np0),
                    np0 <= ps.len(),
                    scanning(
                        dm,
                        ds,
                        vehicle_capacity,
                        start,
                        sols,
                        ps,
                        np0,
                        pass_start,
                        solution@,
                        (i as int, j as int, 0, 0),
                    ),
                decreases count - j,
            {
                let len_i = solution[i].len();
                let mut k: usize = 1;
                proof {
                    assert(solution@[i as int]@.len() >= 1);
                    lemma_scan_skip(
                        dm,
                        ds,
                        vehicle_capacity,
                        start,
                        sols,
                        ps,
                        np0,
                        pass_start,
                        solution@,
                        (i as int, j as int, 0, 0),
                        (i as int, j as int, 1, 0),
                    );
                }
                while k < len_i - 1
                    invariant
                        dm == distance_matrix@,
                        ds == demands@,
                        n == demands@.len(),
                        lim == 0x8000_0000,
                        ps.len() == 0 ==> solution@ == start,
                        ps.len() > 0 ==> total_path_cost(dm, solution@) < total_path_cost(dm, start),
                        floor == -(total_len(start) * lim),
                        swap_kept(ds, vehicle_capacity, dm, start, solution@),
                        total_path_cost(dm, solution@) >= floor,
                        count == solution@.len(),
                        0 <= i < j < count,
                        len_i == solution@[i as int]@.len(),
                        len_i >= 1,
                        1 <= k <= len_i,
                        !improved ==> solution@ == pass_start,
                        improved ==> total_path_cost(dm, solution@) < total_path_cost(dm, pass_start),
                        improved == (ps.len() > np0),
                        np0 <= ps.len(),
                        scanning(
                            dm,
                            ds,
                            vehicle_capacity,
                            start,
                            sols,
                            ps,
                            np0,
                            pass_start,
                            solution@,
                            (i as int, j as int, k as int, 0),
                        ),
                    decreases len_i - k,
                {
                    let len_j = solution[j].len();
                    let mut l: usize = 1;
                    proof {
                        assert(solution@[j as int]@.len() >= 1);
                        lemma_scan_skip(
                            dm,
                            ds,
                            vehicle_capacity,
                            start,
                            sols,
                            ps,
                            np0,
                            pass_start,
                            solution@,
                            (i as int, j as int, k as int, 0),
                            (i as int, j as int, k as int, 1),
                        );
                    }
                    while l < len_j - 1
                        invariant
                            dm == distance_matrix@,
                            ds == demands@,
                            n == demands@.len(),
                            lim == 0x8000_0000,
                            ps.len() == 0 ==> solution@ == start,
                            ps.len() > 0 ==> total_path_cost(dm, solution@) < total_path_cost(dm, start),
                            floor == -(total_len(start) * lim),
                            swap_kept(ds, vehicle_capacity, dm, start, solution@),
                            total_path_cost(dm, solution@) >= floor,
                            count == solution@.len(),
                            0 <= i < j < count,
                            len_i == solution@[i as int]@.len(),
                            len_j == solution@[j as int]@.len(),
                            len_j >= 1,
                            1 <= k < len_i - 1,
                            1 <= l <= len_j,
                            !improved ==> solution@ == pass_start,
                            improved ==> total_path_cost(dm, solution@) < total_path_cost(dm, pass_start),
                            improved == (ps.len() > np0),
                            np0 <= ps.len(),
                            scanning(
                                dm,
                                ds,
                                vehicle_capacity,
                                start,
                                sols,
                                ps,
                                np0,
                                pass_start,
                                solution@,
                                (i as int, j as int, k as int, l as int),
                            ),
                        decreases len_j - l,
                    {
                        let ghost before = solution@;
                        let swapped = try_one_swap(
                            solution,
                            i,
                            j,
                            k,
                            l,
                            distance_matrix,
                            demands,
                            vehicle_capacity,
                        );
                        proof {
                            let q = (i as int, j as int, k as int, l as int);
                            if swapped {
                                let after = solution@;
                                assert forall|r: int| 0 <= r < after.len() implies #[trigger] after[r]@.len()
                                    == start[r]@.len() by {
                                    assert(after[r]@.len() == before[r]@.len());
                                }
                                assert forall|r: int| 0 <= r < after.len() implies #[trigger] after[r]@
                                    == start[r]@ || load(ds, after[r]@) <= vehicle_capacity by {
                                    if !(after[r]@ == before[r]@) {
                                    } else {
                                        assert(before[r]@ == start[r]@ || load(ds, before[r]@)
                                            <= vehicle_capacity);
                                    }
                                }
                                assert forall|r: int| 0 <= r < after.len() implies edges_in_range(dm, #[trigger] after[r]@) by {
                                    lemma_solution_route_in_range(dm, ds, after, r);
                                }
                                lemma_total_lower_bound(dm, after);
                                assert forall|r: int| 0 <= r < after.len() implies (#[trigger] after[r])@.len() >= 1
                                    && after[r]@[0] == start[r]@[0] && after[r]@[after[r]@.len() - 1]
                                    == start[r]@[start[r]@.len() - 1] by {
                                    assert(before[r]@.len() >= 1 && before[r]@[0] == start[r]@[0]);
                                    assert(before[r]@[before[r]@.len() - 1] == start[r]@[start[r]@.len() - 1]);
                                    if r != i && r != j {
                                        assert(after[r]@ == before[r]@);
                                    }
                                }
                                lemma_total_len_same(after, start);
                                lemma_scan_trade(
                                    dm,
                                    ds,
                                    vehicle_capacity,
                                    start,
                                    sols,
                                    ps,
                                    np0,
                                    pass_start,
                                    before,
                                    q,
                                    after,
                                );
                                sols = sols.push(after);
                                ps = ps.push(q);
                            } else {
                                lemma_scan_pass(
                                    dm,
                                    ds,
                                    vehicle_capacity,
                                    start,
                                    sols,
                                    ps,
                                    np0,
                                    pass_start,
                                    before,
                                    q,
                                );
                            }
                        }
                        if swapped {
                            improved = true;
                        }
                        l = l + 1;
                    }
                    proof {
                        lemma_scan_skip(
                            dm,
                            ds,
                            vehicle_capacity,
                            start,
                            sols,
                            ps,
                            np0,
                            pass_start,
                            solution@,
                            (i as int, j as int, k as int, l as int),
                            (i as int, j as int, k + 1, 0),
                        );
                    }
                    k = k + 1;
                }
                proof {
                    lemma_scan_skip(
                        dm,
                        ds,
                        vehicle_capacity,
                        start,
                        sols,
                        ps,
                        np0,
                        pass_start,
                        solution@,
                        (i as int, j as int, k as int, 0),
                        (i as int, j + 1, 0, 0),
                    );
                }
                j = j + 1;
            }
            proof {
                lemma_scan_skip(
                    dm,
                    ds,
                    vehicle_capacity,
                    start,
                    sols,
                    ps,
                    np0,
                    pass_start,
                    solution@,
                    (i as int, j as int, 0, 0),
                    (i + 1, 0, 0, 0),
                );
            }
            i = i + 1;
        }
        proof {
            lemma_scan_end(dm, ds, vehicle_capacity, start, sols, ps, np0, pass_start, solution@);
        }
    }
    proof {
        if within_capacity(start, ds, vehicle_capacity) && ends_nonnegative(ds, start) {
            assert forall|r: int| 0 <= r < solution@.len() implies load(ds, interior(#[trigger] solution@[r]@))
                <= vehicle_capacity by {
                assert(solution@[r]@ == start[r]@ || load(ds, solution@[r]@) <= vehicle_capacity);
                assert(load(ds, interior(start[r]@)) <= vehicle_capacity);
                let route = solution@[r]@;
                assert(solution@[r]@.len() == start[r]@.len());
                assert(start[r]@.len() >= 1);
                if route != start[r]@ {
                    if route.len() >= 2 {
                        lemma_load_split(ds, route);
                    } else {
                        assert(interior(route) =~= interior(start[r]@));
                    }
                }
            }
        }
        assert forall|m: int| #[trigger] serves_each_once(start, m) implies serves_each_once(solution@, m) by {}
        if solution@ != start {
            assert(ps.len() > 0);
        }
        assert(swap_trace(dm, ds, vehicle_capacity, sols, ps) && sols[0] == start && sols.last()
            == solution@);
        lemma_swap_optimal_every_pair(dm, ds, vehicle_capacity, solution@);
    }
    improved
}

} // verus!
