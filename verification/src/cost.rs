//! Route and solution costs: the directed distance of a route, the demand
//! it carries, and the rating of a whole solution.
use vstd::prelude::*;

verus! {

/// The entry `dm[i][j]` of a distance matrix.
pub open spec fn entry(dm: Seq<Vec<i32>>, i: int, j: int) -> int {
    dm[i]@[j] as int
}

/// The sum of `dm[route[k]][route[k + 1]]` over the consecutive pairs of `route`.
pub open spec fn path_cost(dm: Seq<Vec<i32>>, route: Seq<usize>) -> int
    decreases route.len(),
{
    if route.len() < 2 {
        0
    } else {
        path_cost(dm, route.drop_last()) + entry(
            dm,
            route[route.len() - 2] as int,
            route[route.len() - 1] as int,
        )
    }
}

/// Every lookup `dm[route[k]][route[k + 1]]` is inside the matrix.
pub open spec fn edges_in_range(dm: Seq<Vec<i32>>, route: Seq<usize>) -> bool {
    forall|k: int|
        0 <= k < route.len() - 1 ==> #[trigger] route[k] < dm.len() && route[k + 1] < dm[route[k]
            as int]@.len()
}

/// An `i32` value.
pub open spec fn fits_i32(x: int) -> bool {
    i32::MIN <= x <= i32::MAX
}

/// Every partial sum of the route's distance is an `i32`.
pub open spec fn path_cost_fits(dm: Seq<Vec<i32>>, route: Seq<usize>) -> bool {
    forall|k: int| 0 <= k <= route.len() ==> fits_i32(#[trigger] path_cost(dm, route.take(k)))
}

/// The directed distance of a route: the sum of `distance_matrix[a][b]` over
/// its consecutive nodes `a, b`.
pub fn calculate_route_distance(route: &Vec<usize>, distance_matrix: &Vec<Vec<i32>>) -> (total: i32)
    requires
        edges_in_range(distance_matrix@, route@),
        path_cost_fits(distance_matrix@, route@),
    ensures
        total == path_cost(distance_matrix@, route@),
{
    let len = route.len();
    if len < 2 {
        proof {
            assert(route@.len() < 2);
        }
        return 0;
    }
    let mut total: i32 = 0;
    let mut k: usize = 0;
    proof {
        assert(route@.take(1).len() == 1);
        assert(path_cost(distance_matrix@, route@.take(1)) == 0);
    }
    while k + 1 < len
        invariant
            len == route@.len(),
            len >= 2,
            0 <= k < len,
            edges_in_range(distance_matrix@, route@),
            path_cost_fits(distance_matrix@, route@),
            total == path_cost(distance_matrix@, route@.take(k + 1)),
        decreases len - k,
    {
        let a = route[k];
        let b = route[k + 1];
        proof {
            assert(route@[k as int] < distance_matrix@.len());
            let t = route@.take(k + 2);
            assert(t.drop_last() =~= route@.take(k + 1));
            assert(t[t.len() - 2] == a && t[t.len() - 1] == b);
            assert(fits_i32(path_cost(distance_matrix@, route@.take(k + 2))));
        }
        total = total + distance_matrix[a][b];
        k = k + 1;
    }
    proof {
        assert(route@.take(len as int) =~= route@);
    }
    total
}


/// The sum of `demands[x]` over the nodes `x` of `route`.
pub open spec fn load(demands: Seq<i32>, route: Seq<usize>) -> int
    decreases route.len(),
{
    if route.len() == 0 {
        0
    } else {
        load(demands, route.drop_last()) + demands[route.last() as int] as int
    }
}

/// Every node of `route` indexes `demands`.
pub open spec fn nodes_below(route: Seq<usize>, n: int) -> bool {
    forall|k: int| 0 <= k < route.len() ==> #[trigger] route[k] < n
}

/// Every partial sum of the route's demand is an `i32`.
pub open spec fn load_fits(demands: Seq<i32>, route: Seq<usize>) -> bool {
    forall|k: int| 0 <= k <= route.len() ==> fits_i32(#[trigger] load(demands, route.take(k)))
}

/// The total demand of the nodes of a route (the depot counted each time it
/// occurs).
pub fn compute_route_demand(route: &Vec<usize>, demands: &Vec<i32>) -> (total: i32)
    requires
        nodes_below(route@, demands@.len() as int),
        load_fits(demands@, route@),
    ensures
        total == load(demands@, route@),
{
    let len = route.len();
    let mut total: i32 = 0;
    let mut k: usize = 0;
    proof {
        assert(route@.take(0).len() == 0);
    }
    while k < len
        invariant
            len == route@.len(),
            0 <= k <= len,
            nodes_below(route@, demands@.len() as int),
            load_fits(demands@, route@),
            total == load(demands@, route@.take(k as int)),
        decreases len - k,
    {
        let x = route[k];
        proof {
            let t = route@.take(k + 1);
            assert(t.drop_last() =~= route@.take(k as int));
            assert(t.last() == x);
            assert(fits_i32(load(demands@, route@.take(k + 1))));
        }
        total = total + demands[x];
        k = k + 1;
    }
    proof {
        assert(route@.take(len as int) =~= route@);
    }
    total
}

/// Every node of the route indexes the demands and the matrix's rows, and
/// every two nodes `x`, `y` of the route have an entry `dm[x][y]`.
pub open spec fn route_in_range(dm: Seq<Vec<i32>>, demands: Seq<i32>, route: Seq<usize>) -> bool {
    forall|a: int, b: int|
        #![trigger route[a], route[b]]
        0 <= a < route.len() && 0 <= b < route.len() ==> route[a] < demands.len() && route[a]
            < dm.len() && route[b] < dm[route[a] as int]@.len()
}

/// A route in range has its edges and nodes in range.
pub proof fn lemma_in_range_edges(dm: Seq<Vec<i32>>, demands: Seq<i32>, route: Seq<usize>)
    requires
        route_in_range(dm, demands, route),
    ensures
        edges_in_range(dm, route),
        nodes_below(route, demands.len() as int),
{
    assert forall|k: int| 0 <= k < route.len() - 1 implies #[trigger] route[k] < dm.len()
        && route[k + 1] < dm[route[k] as int]@.len() by {
        assert(route[k + 1] == route[k + 1]);
    }
    assert forall|k: int| 0 <= k < route.len() implies #[trigger] route[k] < demands.len() by {
        assert(route[k] == route[k]);
    }
}

/// A rearrangement of a route in range is in range.
pub proof fn lemma_in_range_perm(
    dm: Seq<Vec<i32>>,
    demands: Seq<i32>,
    route: Seq<usize>,
    other: Seq<usize>,
)
    requires
        route_in_range(dm, demands, route),
        other.to_multiset() == route.to_multiset(),
    ensures
        route_in_range(dm, demands, other),
{
    broadcast use vstd::seq_lib::group_to_multiset_ensures;

    assert forall|a: int, b: int| 0 <= a < other.len() && 0 <= b < other.len() implies #[trigger] other[a]
        < demands.len() && other[a] < dm.len() && #[trigger] other[b] < dm[other[a] as int]@.len() by {
        assert(other.to_multiset().count(other[a]) > 0);
        assert(other.to_multiset().count(other[b]) > 0);
        assert(route.contains(other[a]));
        assert(route.contains(other[b]));
        let p = choose|p: int| 0 <= p < route.len() && route[p] == other[a];
        let q = choose|q: int| 0 <= q < route.len() && route[q] == other[b];
        assert(route[p] < dm.len() && route[q] < dm[route[p] as int]@.len());
    }
}

/// The directed distance of a route is at least `-(len * 2^31)`.
pub proof fn lemma_path_cost_floor(dm: Seq<Vec<i32>>, route: Seq<usize>)
    requires
        edges_in_range(dm, route),
    ensures
        path_cost(dm, route) >= -(route.len() * 0x8000_0000),
    decreases route.len(),
{
    if route.len() >= 2 {
        let p = route.drop_last();
        assert forall|k: int| 0 <= k < p.len() - 1 implies #[trigger] p[k] < dm.len() && p[k + 1]
            < dm[p[k] as int]@.len() by {
            assert(p[k] == route[k] && p[k + 1] == route[k + 1]);
            assert(route[k] < dm.len());
        }
        lemma_path_cost_floor(dm, p);
    }
}

/// The directed distance of a route, summed in `i128`, where no sum of
/// `i32` entries over a route can overflow.
pub(crate) fn route_cost_wide(route: &Vec<usize>, distance_matrix: &Vec<Vec<i32>>) -> (total: i128)
    requires
        edges_in_range(distance_matrix@, route@),
    ensures
        total == path_cost(distance_matrix@, route@),
{
    let len = route.len();
    if len < 2 {
        return 0;
    }
    let mut total: i128 = 0;
    let mut k: usize = 0;
    proof {
        assert(route@.take(1).len() == 1);
        assert(path_cost(distance_matrix@, route@.take(1)) == 0);
    }
    while k + 1 < len
        invariant
            len == route@.len(),
            len >= 2,
            0 <= k < len,
            edges_in_range(distance_matrix@, route@),
            total == path_cost(distance_matrix@, route@.take(k + 1)),
            -(k * 0x8000_0000) <= total <= k * 0x8000_0000,
        decreases len - k,
    {
        let a = route[k];
        let b = route[k + 1];
        proof {
            assert(route@[k as int] < distance_matrix@.len());
            let t = route@.take(k + 2);
            assert(t.drop_last() =~= route@.take(k + 1));
            assert(t[t.len() - 2] == a && t[t.len() - 1] == b);
        }
        total = total + distance_matrix[a][b] as i128;
        k = k + 1;
    }
    proof {
        assert(route@.take(len as int) =~= route@);
    }
    total
}

/// The demand of a route, summed in `i128`, where no sum of `i32` demands
/// over a route can overflow.
pub(crate) fn route_load_wide(route: &Vec<usize>, demands: &Vec<i32>) -> (total: i128)
    requires
        nodes_below(route@, demands@.len() as int),
    ensures
        total == load(demands@, route@),
{
    let len = route.len();
    let mut total: i128 = 0;
    let mut k: usize = 0;
    proof {
        assert(route@.take(0).len() == 0);
    }
    while k < len
        invariant
            len == route@.len(),
            0 <= k <= len,
            nodes_below(route@, demands@.len() as int),
            total == load(demands@, route@.take(k as int)),
            -(k * 0x8000_0000) <= total <= k * 0x8000_0000,
        decreases len - k,
    {
        let x = route[k];
        proof {
            let t = route@.take(k + 1);
            assert(t.drop_last() =~= route@.take(k as int));
            assert(t.last() == x);
        }
        total = total + demands[x] as i128;
        k = k + 1;
    }
    proof {
        assert(route@.take(len as int) =~= route@);
    }
    total
}

/// The smaller of two nodes.
pub open spec fn lo(a: usize, b: usize) -> usize {
    if a <= b {
        a
    } else {
        b
    }
}

/// The larger of two nodes.
pub open spec fn hi(a: usize, b: usize) -> usize {
    if a <= b {
        b
    } else {
        a
    }
}

/// The route's distance read from the upper triangle of the matrix: the sum of
/// `dm[min(a, b)][max(a, b)]` over consecutive nodes `a, b`.
pub open spec fn sym_path_cost(dm: Seq<Vec<i32>>, route: Seq<usize>) -> int
    decreases route.len(),
{
    if route.len() < 2 {
        0
    } else {
        let a = route[route.len() - 2];
        let b = route[route.len() - 1];
        sym_path_cost(dm, route.drop_last()) + entry(dm, lo(a, b) as int, hi(a, b) as int)
    }
}

/// The route's last node, or the depot for an empty route.
pub open spec fn last_or_depot(route: Seq<usize>) -> usize {
    if route.len() == 0 {
        0
    } else {
        route.last()
    }
}

/// The rating of one route: its upper-triangle distance plus the entry
/// `dm[0][last]` that links its last node back to the depot.
pub open spec fn route_rating(dm: Seq<Vec<i32>>, route: Seq<usize>) -> int {
    sym_path_cost(dm, route) + entry(dm, 0, last_or_depot(route) as int)
}

/// The rating of a solution: the sum of the ratings of its routes.
pub open spec fn rating(dm: Seq<Vec<i32>>, sol: Seq<Vec<usize>>) -> int
    decreases sol.len(),
{
    if sol.len() == 0 {
        0
    } else {
        rating(dm, sol.drop_last()) + route_rating(dm, sol.last()@)
    }
}

/// Every upper-triangle lookup of the route is inside the matrix.
pub open spec fn sym_edges_in_range(dm: Seq<Vec<i32>>, route: Seq<usize>) -> bool {
    forall|k: int|
        0 <= k < route.len() - 1 ==> lo(#[trigger] route[k], route[k + 1]) < dm.len() && hi(
            route[k],
            route[k + 1],
        ) < dm[lo(route[k], route[k + 1]) as int]@.len()
}

/// Every lookup that rating the solution makes is inside the matrix.
pub open spec fn rating_in_range(dm: Seq<Vec<i32>>, sol: Seq<Vec<usize>>) -> bool {
    &&& sol.len() > 0 ==> dm.len() > 0
    &&& forall|r: int|
        0 <= r < sol.len() ==> sym_edges_in_range(dm, #[trigger] sol[r]@) && last_or_depot(
            sol[r]@,
        ) < dm[0]@.len()
}

/// Every partial sum formed while rating the solution is an `i32`.
pub open spec fn rating_fits(dm: Seq<Vec<i32>>, sol: Seq<Vec<usize>>) -> bool {
    &&& forall|r: int, k: int|
        0 <= r < sol.len() && 0 <= k <= sol[r]@.len() ==> fits_i32(
            #[trigger] sym_path_cost(dm, sol[r]@.take(k)),
        )
    &&& forall|r: int| 0 <= r < sol.len() ==> fits_i32(#[trigger] route_rating(dm, sol[r]@))
    &&& forall|t: int| 0 <= t <= sol.len() ==> fits_i32(#[trigger] rating(dm, sol.take(t)))
}

/// The rating of a solution (the cost an ant colony minimises): for every
/// route, the upper-triangle distance of its consecutive nodes plus the entry
/// between the depot and its last node.
pub fn rate_solution(solution: &Vec<Vec<usize>>, distance_matrix: &Vec<Vec<i32>>) -> (total: i32)
    requires
        rating_in_range(distance_matrix@, solution@),
        rating_fits(distance_matrix@, solution@),
    ensures
        total == rating(distance_matrix@, solution@),
{
    let ghost dm = distance_matrix@;
    let n_routes = solution.len();
    let mut total: i32 = 0;
    let mut r: usize = 0;
    proof {
        assert(solution@.take(0).len() == 0);
    }
    while r < n_routes
        invariant
            n_routes == solution@.len(),
            0 <= r <= n_routes,
            dm == distance_matrix@,
            rating_in_range(dm, solution@),
            rating_fits(dm, solution@),
            total == rating(dm, solution@.take(r as int)),
        decreases n_routes - r,
    {
        let route = &solution[r];
        let len = route.len();
        let mut inner: i32 = 0;
        if len >= 2 {
            let mut k: usize = 0;
            proof {
                assert(route@.take(1).len() == 1);
                assert(sym_path_cost(dm, route@.take(1)) == 0);
            }
            while k + 1 < len
                invariant
                    len == route@.len(),
                    len >= 2,
                    0 <= k < len,
                    route == solution@[r as int],
                    0 <= r < n_routes,
                    n_routes == solution@.len(),
                    dm == distance_matrix@,
                    rating_in_range(dm, solution@),
                    rating_fits(dm, solution@),
                    inner == sym_path_cost(dm, route@.take(k + 1)),
                decreases len - k,
            {
                let a = route[k];
                let b = route[k + 1];
                let i = if a <= b { a } else { b };
                let j = if a <= b { b } else { a };
                proof {
                    assert(sym_edges_in_range(dm, solution@[r as int]@));
                    assert(lo(route@[k as int], route@[k + 1]) < dm.len());
                    let t = route@.take(k + 2);
                    assert(t.drop_last() =~= route@.take(k + 1));
                    assert(t[t.len() - 2] == a && t[t.len() - 1] == b);
                    assert(fits_i32(sym_path_cost(dm, solution@[r as int]@.take(k + 2))));
                }
                inner = inner + distance_matrix[i][j];
                k = k + 1;
            }
            proof {
                assert(route@.take(k + 1) =~= route@);
            }
        }
        let last: usize = if len == 0 { 0 } else { route[len - 1] };
        proof {
            assert(last == last_or_depot(route@));
            assert(fits_i32(route_rating(dm, solution@[r as int]@)));
            let t = solution@.take(r + 1);
            assert(t.drop_last() =~= solution@.take(r as int));
            assert(fits_i32(rating(dm, solution@.take(r + 1))));
        }
        let route_total = inner + distance_matrix[0][last];
        total = total + route_total;
        r = r + 1;
    }
    proof {
        assert(solution@.take(n_routes as int) =~= solution@);
    }
    total
}

/// Rating the route looks up only entries inside the matrix and forms only
/// sums inside `i32`.
pub open spec fn route_rating_ok(dm: Seq<Vec<i32>>, route: Seq<usize>) -> bool {
    &&& sym_edges_in_range(dm, route)
    &&& last_or_depot(route) < dm[0]@.len()
    &&& forall|k: int| 0 <= k <= route.len() ==> fits_i32(#[trigger] sym_path_cost(dm, route.take(k)))
    &&& fits_i32(route_rating(dm, route))
}

/// The rating of one route, or `None` when rating it would look up an entry
/// outside the matrix or form a sum outside `i32`.
#[verifier::spinoff_prover]
#[verifier::rlimit(40)]
fn try_route_rating(route: &Vec<usize>, distance_matrix: &Vec<Vec<i32>>) -> (rated: Option<i64>)
    requires
        distance_matrix@.len() > 0,
    ensures
        rated is Some <==> route_rating_ok(distance_matrix@, route@),
        rated matches Some(x) ==> x == route_rating(distance_matrix@, route@),
{
    let ghost dm = distance_matrix@;
    let ghost rt = route@;
    let len = route.len();
    let mut inner: i64 = 0;
    let mut k: usize = 0;
    proof {
        assert(rt.take(0).len() == 0);
        assert(sym_path_cost(dm, rt.take(0)) == 0);
        if len >= 1 {
            assert(rt.take(1).len() == 1);
            assert(sym_path_cost(dm, rt.take(1)) == 0);
        }
    }
    while k + 1 < len
        invariant
            len == rt.len(),
            rt == route@,
            dm == distance_matrix@,
            k < len || k == 0,
            forall|kk: int|
                0 <= kk < k ==> lo(#[trigger] rt[kk], rt[kk + 1]) < dm.len() && hi(rt[kk], rt[kk + 1])
                    < dm[lo(rt[kk], rt[kk + 1]) as int]@.len(),
            forall|kk: int|
                0 <= kk <= k + 1 && kk <= len ==> fits_i32(#[trigger] sym_path_cost(dm, rt.take(kk))),
            k + 1 <= len ==> inner == sym_path_cost(dm, rt.take(k + 1)),
            len <= 1 ==> inner == 0,
        decreases len - k,
    {
        let a = route[k];
        let b = route[k + 1];
        let i = if a <= b { a } else { b };
        let j = if a <= b { b } else { a };
        if i >= distance_matrix.len() || j >= distance_matrix[i].len() {
            proof {
                assert(!sym_edges_in_range(dm, rt)) by {
                    assert(rt[k as int] == a && rt[k + 1] == b);
                }
            }
            return None;
        }
        let x = distance_matrix[i][j] as i64;
        let next = inner + x;
        proof {
            let t = rt.take(k + 2);
            assert(t.drop_last() =~= rt.take(k + 1));
            assert(t[t.len() - 2] == a && t[t.len() - 1] == b);
        }
        if next < i32::MIN as i64 || next > i32::MAX as i64 {
            proof {
                assert(!fits_i32(sym_path_cost(dm, rt.take(k + 2))));
            }
            return None;
        }
        inner = next;
        k = k + 1;
    }
    proof {
        if len >= 1 {
            assert(rt.take(len as int) =~= rt);
        } else {
            assert(rt.take(0) =~= rt);
        }
        assert forall|kk: int| 0 <= kk <= len implies fits_i32(#[trigger] sym_path_cost(dm, rt.take(kk))) by {
            if kk <= 1 {
                assert(rt.take(kk).len() < 2);
            }
        }
        assert(sym_edges_in_range(dm, rt));
    }
    let last: usize = if len == 0 { 0 } else { route[len - 1] };
    if last >= distance_matrix[0].len() {
        return None;
    }
    let route_total = inner + distance_matrix[0][last] as i64;
    if route_total < i32::MIN as i64 || route_total > i32::MAX as i64 {
        return None;
    }
    Some(route_total)
}

/// The rating of a solution when rating it looks up only entries inside the
/// matrix and forms only sums inside `i32`; `None` exactly when a lookup
/// would leave the matrix or a sum would leave `i32`.
pub fn try_rate_solution(solution: &Vec<Vec<usize>>, distance_matrix: &Vec<Vec<i32>>) -> (rated: Option<i32>)
    ensures
        rated is Some <==> rating_in_range(distance_matrix@, solution@) && rating_fits(
            distance_matrix@,
            solution@,
        ),
        rated matches Some(x) ==> x == rating(distance_matrix@, solution@),
{
    let ghost dm = distance_matrix@;
    let ghost sol = solution@;
    let n_routes = solution.len();
    if n_routes > 0 && distance_matrix.len() == 0 {
        return None;
    }
    let mut total: i64 = 0;
    let mut r: usize = 0;
    proof {
        assert(sol.take(0).len() == 0);
    }
    while r < n_routes
        invariant
            n_routes == sol.len(),
            dm == distance_matrix@,
            sol == solution@,
            0 <= r <= n_routes,
            n_routes > 0 ==> dm.len() > 0,
            forall|q: int| 0 <= q < r ==> route_rating_ok(dm, #[trigger] sol[q]@),
            forall|t: int| 0 <= t <= r ==> fits_i32(#[trigger] rating(dm, sol.take(t))),
            total == rating(dm, sol.take(r as int)),
        decreases n_routes - r,
    {
        let rated = try_route_rating(&solution[r], distance_matrix);
        let route_total = match rated {
            Some(x) => x,
            None => {
                proof {
                    if rating_in_range(dm, sol) && rating_fits(dm, sol) {
                        assert(sym_edges_in_range(dm, sol[r as int]@));
                        assert(fits_i32(route_rating(dm, sol[r as int]@)));
                        assert(route_rating_ok(dm, sol[r as int]@));
                    }
                }
                return None;
            },
        };
        let next_total = total + route_total;
        proof {
            let t = sol.take(r + 1);
            assert(t.drop_last() =~= sol.take(r as int));
            assert(t.last() == sol[r as int]);
        }
        if next_total < i32::MIN as i64 || next_total > i32::MAX as i64 {
            proof {
                assert(!fits_i32(rating(dm, sol.take(r + 1))));
            }
            return None;
        }
        total = next_total;
        r = r + 1;
    }
    proof {
        assert(sol.take(n_routes as int) =~= sol);
        assert forall|q: int| 0 <= q < sol.len() implies sym_edges_in_range(dm, #[trigger] sol[q]@)
            && last_or_depot(sol[q]@) < dm[0]@.len() by {
            assert(route_rating_ok(dm, sol[q]@));
        }
        assert forall|q: int, k: int| 0 <= q < sol.len() && 0 <= k <= sol[q]@.len() implies fits_i32(
            #[trigger] sym_path_cost(dm, sol[q]@.take(k)),
        ) by {
            assert(route_rating_ok(dm, sol[q]@));
        }
        assert forall|q: int| 0 <= q < sol.len() implies fits_i32(#[trigger] route_rating(dm, sol[q]@)) by {
            assert(route_rating_ok(dm, sol[q]@));
        }
    }
    Some(total as i32)
}

/// The sum of the directed distances of the routes of a solution.
pub open spec fn total_path_cost(dm: Seq<Vec<i32>>, sol: Seq<Vec<usize>>) -> int
    decreases sol.len(),
{
    if sol.len() == 0 {
        0
    } else {
        total_path_cost(dm, sol.drop_last()) + path_cost(dm, sol.last()@)
    }
}

/// Every partial sum formed while adding up the routes' distances is an `i32`.
pub open spec fn total_path_cost_fits(dm: Seq<Vec<i32>>, sol: Seq<Vec<usize>>) -> bool {
    &&& forall|r: int| 0 <= r < sol.len() ==> path_cost_fits(dm, #[trigger] sol[r]@)
    &&& forall|t: int| 0 <= t <= sol.len() ==> fits_i32(#[trigger] total_path_cost(dm, sol.take(t)))
}

/// The sum of the directed distances of the routes of a solution.
pub fn solution_distance(solution: &Vec<Vec<usize>>, distance_matrix: &Vec<Vec<i32>>) -> (total: i32)
    requires
        forall|r: int|
            0 <= r < solution@.len() ==> edges_in_range(distance_matrix@, #[trigger] solution@[r]@),
        total_path_cost_fits(distance_matrix@, solution@),
    ensures
        total == total_path_cost(distance_matrix@, solution@),
{
    let n_routes = solution.len();
    let mut total: i32 = 0;
    let mut r: usize = 0;
    proof {
        assert(solution@.take(0).len() == 0);
    }
    while r < n_routes
        invariant
            n_routes == solution@.len(),
            0 <= r <= n_routes,
            forall|r: int|
                0 <= r < solution@.len() ==> edges_in_range(
                    distance_matrix@,
                    #[trigger] solution@[r]@,
                ),
            total_path_cost_fits(distance_matrix@, solution@),
            total == total_path_cost(distance_matrix@, solution@.take(r as int)),
        decreases n_routes - r,
    {
        let d = calculate_route_distance(&solution[r], distance_matrix);
        proof {
            let t = solution@.take(r + 1);
            assert(t.drop_last() =~= solution@.take(r as int));
            assert(fits_i32(total_path_cost(distance_matrix@, solution@.take(r + 1))));
        }
        total = total + d;
        r = r + 1;
    }
    proof {
        assert(solution@.take(n_routes as int) =~= solution@);
    }
    total
}

/// The rating of two lists of routes one after the other is the sum of
/// their ratings.
pub proof fn lemma_rating_concat(dm: Seq<Vec<i32>>, a: Seq<Vec<usize>>, b: Seq<Vec<usize>>)
    ensures
        rating(dm, a + b) == rating(dm, a) + rating(dm, b),
    decreases b.len(),
{
    if b.len() == 0 {
        assert(a + b =~= a);
    } else {
        lemma_rating_concat(dm, a, b.drop_last());
        assert((a + b).drop_last() =~= a + b.drop_last());
        assert((a + b).last() == b.last());
    }
}

/// The directed distance of a route, or `None` when a lookup would leave
/// the matrix or a partial sum would leave `i32`.
#[verifier::spinoff_prover]
#[verifier::rlimit(40)]
fn try_route_distance(route: &Vec<usize>, distance_matrix: &Vec<Vec<i32>>) -> (measured: Option<i64>)
    ensures
        measured is Some <==> edges_in_range(distance_matrix@, route@) && path_cost_fits(
            distance_matrix@,
            route@,
        ),
        measured matches Some(x) ==> x == path_cost(distance_matrix@, route@),
{
    let ghost dm = distance_matrix@;
    let ghost rt = route@;
    let len = route.len();
    let mut inner: i64 = 0;
    let mut k: usize = 0;
    proof {
        assert(rt.take(0).len() == 0);
        assert(path_cost(dm, rt.take(0)) == 0);
        if len >= 1 {
            assert(rt.take(1).len() == 1);
            assert(path_cost(dm, rt.take(1)) == 0);
        }
    }
    while k + 1 < len
        invariant
            len == rt.len(),
            rt == route@,
            dm == distance_matrix@,
            k < len || k == 0,
            forall|kk: int|
                0 <= kk < k ==> #[trigger] rt[kk] < dm.len() && rt[kk + 1] < dm[rt[kk] as int]@.len(),
            forall|kk: int|
                0 <= kk <= k + 1 && kk <= len ==> fits_i32(#[trigger] path_cost(dm, rt.take(kk))),
            k + 1 <= len ==> inner == path_cost(dm, rt.take(k + 1)),
            len <= 1 ==> inner == 0,
        decreases len - k,
    {
        let a = route[k];
        let b = route[k + 1];
        if a >= distance_matrix.len() || b >= distance_matrix[a].len() {
            proof {
                assert(!edges_in_range(dm, rt)) by {
                    assert(rt[k as int] == a && rt[k + 1] == b);
                }
            }
            return None;
        }
        let next = inner + distance_matrix[a][b] as i64;
        proof {
            let t = rt.take(k + 2);
            assert(t.drop_last() =~= rt.take(k + 1));
            assert(t[t.len() - 2] == a && t[t.len() - 1] == b);
        }
        if next < i32::MIN as i64 || next > i32::MAX as i64 {
            proof {
                assert(!fits_i32(path_cost(dm, rt.take(k + 2))));
            }
            return None;
        }
        inner = next;
        k = k + 1;
    }
    proof {
        if len >= 1 {
            assert(rt.take(len as int) =~= rt);
        } else {
            assert(rt.take(0) =~= rt);
        }
        assert forall|kk: int| 0 <= kk <= len implies fits_i32(#[trigger] path_cost(dm, rt.take(kk))) by {
            if kk <= 1 {
                assert(rt.take(kk).len() < 2);
            }
        }
    }
    Some(inner)
}

/// The sum of the directed distances of the routes, or `None` when a lookup
/// would leave the matrix or a partial sum would leave `i32`.
pub fn try_solution_distance(solution: &Vec<Vec<usize>>, distance_matrix: &Vec<Vec<i32>>) -> (measured: Option<i32>)
    ensures
        measured is Some <==> (forall|r: int|
            0 <= r < solution@.len() ==> edges_in_range(distance_matrix@, #[trigger] solution@[r]@))
            && total_path_cost_fits(distance_matrix@, solution@),
        measured matches Some(x) ==> x == total_path_cost(distance_matrix@, solution@),
{
    let ghost dm = distance_matrix@;
    let ghost sol = solution@;
    let n_routes = solution.len();
    let mut total: i64 = 0;
    let mut r: usize = 0;
    proof {
        assert(sol.take(0).len() == 0);
    }
    while r < n_routes
        invariant
            n_routes == sol.len(),
            dm == distance_matrix@,
            sol == solution@,
            0 <= r <= n_routes,
            forall|q: int|
                0 <= q < r ==> edges_in_range(dm, #[trigger] sol[q]@) && path_cost_fits(dm, sol[q]@),
            forall|t: int| 0 <= t <= r ==> fits_i32(#[trigger] total_path_cost(dm, sol.take(t))),
            total == total_path_cost(dm, sol.take(r as int)),
        decreases n_routes - r,
    {
        let measured = try_route_distance(&solution[r], distance_matrix);
        let d = match measured {
            Some(x) => x,
            None => {
                return None;
            },
        };
        proof {
            let rt = sol[r as int]@;
            assert(rt.take(rt.len() as int) =~= rt);
            assert(fits_i32(path_cost(dm, rt.take(rt.len() as int))));
        }
        let next_total = total + d;
        proof {
            let t = sol.take(r + 1);
            assert(t.drop_last() =~= sol.take(r as int));
            assert(t.last() == sol[r as int]);
        }
        if next_total < i32::MIN as i64 || next_total > i32::MAX as i64 {
            proof {
                assert(!fits_i32(total_path_cost(dm, sol.take(r + 1))));
            }
            return None;
        }
        total = next_total;
        r = r + 1;
    }
    proof {
        assert(sol.take(n_routes as int) =~= sol);
    }
    Some(total as i32)
}

/// The matrix is symmetric on the nodes below `n`.
pub open spec fn symmetric(dm: Seq<Vec<i32>>, n: int) -> bool {
    forall|a: int, b: int| 0 <= a < n && 0 <= b < n ==> #[trigger] dm[a]@[b] == dm[b]@[a]
}

/// On a symmetric matrix, the upper-triangle distance of a route is its
/// directed distance.
pub proof fn lemma_sym_path_cost_symmetric(dm: Seq<Vec<i32>>, route: Seq<usize>, n: int)
    requires
        symmetric(dm, n),
        nodes_below(route, n),
    ensures
        sym_path_cost(dm, route) == path_cost(dm, route),
    decreases route.len(),
{
    if route.len() >= 2 {
        let p = route.drop_last();
        assert(nodes_below(p, n)) by {
            assert forall|k: int| 0 <= k < p.len() implies #[trigger] p[k] < n by {
                assert(p[k] == route[k]);
            }
        }
        lemma_sym_path_cost_symmetric(dm, p, n);
        let a = route[route.len() - 2];
        let b = route[route.len() - 1];
        assert(a < n && b < n);
        assert(dm[a as int]@[b as int] == dm[b as int]@[a as int]);
    }
}

/// On a symmetric matrix with a zero depot entry `dm[0][0]`, the rating of a
/// solution whose routes end at the depot is its total directed distance.
pub proof fn lemma_rating_is_distance(dm: Seq<Vec<i32>>, sol: Seq<Vec<usize>>, n: int)
    requires
        symmetric(dm, n),
        n >= 1,
        dm[0]@[0] == 0,
        forall|r: int|
            0 <= r < sol.len() ==> nodes_below(#[trigger] sol[r]@, n) && (sol[r]@.len() == 0
                || sol[r]@[sol[r]@.len() - 1] == 0),
    ensures
        rating(dm, sol) == total_path_cost(dm, sol),
    decreases sol.len(),
{
    if sol.len() > 0 {
        let p = sol.drop_last();
        assert forall|r: int|
            0 <= r < p.len() implies nodes_below(#[trigger] p[r]@, n) && (p[r]@.len() == 0
            || p[r]@[p[r]@.len() - 1] == 0) by {
            assert(p[r] == sol[r]);
        }
        lemma_rating_is_distance(dm, p, n);
        let route = sol.last()@;
        assert(route == sol[sol.len() - 1]@);
        lemma_sym_path_cost_symmetric(dm, route, n);
        assert(last_or_depot(route) == 0);
    }
}

/// The load of a concatenation is the sum of the loads.
pub proof fn lemma_load_concat(demands: Seq<i32>, a: Seq<usize>, b: Seq<usize>)
    ensures
        load(demands, a + b) == load(demands, a) + load(demands, b),
    decreases b.len(),
{
    if b.len() == 0 {
        assert(a + b =~= a);
    } else {
        lemma_load_concat(demands, a, b.drop_last());
        assert((a + b).drop_last() =~= a + b.drop_last());
        assert((a + b).last() == b.last());
    }
}

/// Reversing a sequence keeps its load.
pub proof fn lemma_load_reverse(demands: Seq<i32>, s: Seq<usize>)
    ensures
        load(demands, s.reverse()) == load(demands, s),
    decreases s.len(),
{
    if s.len() > 0 {
        let p = s.drop_last();
        lemma_load_reverse(demands, p);
        assert(s.reverse() =~= seq![s.last()] + p.reverse());
        lemma_load_concat(demands, seq![s.last()], p.reverse());
        assert(seq![s.last()].drop_last() =~= Seq::<usize>::empty());
        assert(load(demands, Seq::<usize>::empty()) == 0);
        assert(seq![s.last()].last() == s.last());
        assert(load(demands, seq![s.last()]) == demands[s.last() as int] as int);
    }
}

} // verus!
