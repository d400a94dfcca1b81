//! Two-opt local search on one route: reverse a stretch of inner nodes
//! whenever that keeps the route within capacity and shortens it, pass after
//! pass, until a pass changes nothing.
use vstd::prelude::*;
use crate::cost::{
    lemma_in_range_edges, lemma_in_range_perm, lemma_load_concat, lemma_load_reverse,
    lemma_path_cost_floor, load, path_cost, route_cost_wide, route_in_range, route_load_wide,
};
use crate::solution::rearranged;

verus! {

/// The route with its nodes at positions `i..=j` in reverse order.
pub open spec fn reverse_segment(route: Seq<usize>, i: int, j: int) -> Seq<usize> {
    route.subrange(0, i) + route.subrange(i, j + 1).reverse() + route.subrange(
        j + 1,
        route.len() as int,
    )
}

/// Reversing positions `i..=j` (`1 <= i < j <= len - 2`) keeps the route
/// within capacity and shortens it.
pub open spec fn reversal_improves(
    dm: Seq<Vec<i32>>,
    demands: Seq<i32>,
    capacity: i32,
    route: Seq<usize>,
    i: int,
    j: int,
) -> bool {
    &&& 1 <= i < j <= route.len() - 2
    &&& load(demands, reverse_segment(route, i, j)) <= capacity
    &&& path_cost(dm, reverse_segment(route, i, j)) < path_cost(dm, route)
}

/// No reversal improves the route.
pub open spec fn two_opt_optimal(
    dm: Seq<Vec<i32>>,
    demands: Seq<i32>,
    capacity: i32,
    route: Seq<usize>,
) -> bool {
    forall|i: int, j: int| !#[trigger] reversal_improves(dm, demands, capacity, route, i, j)
}

/// Order of reversals `(i, j)`: by `i`, then by `j`.
pub open spec fn pair_before(a: (int, int), b: (int, int)) -> bool {
    a.0 < b.0 || (a.0 == b.0 && a.1 < b.1)
}

/// The position a pass starts from: before every reversal.
pub open spec fn reversal_pass_start() -> (int, int) {
    (0, 0)
}

/// No improving reversal lies strictly between `p` and `q`.
pub open spec fn reversal_clear(
    dm: Seq<Vec<i32>>,
    demands: Seq<i32>,
    capacity: i32,
    route: Seq<usize>,
    p: (int, int),
    q: (int, int),
) -> bool {
    forall|a: int, b: int|
        #[trigger] reversal_improves(dm, demands, capacity, route, a, b) && pair_before(p, (a, b))
            ==> !pair_before((a, b), q)
}

/// No improving reversal comes after `p`.
pub open spec fn reversal_none_after(
    dm: Seq<Vec<i32>>,
    demands: Seq<i32>,
    capacity: i32,
    route: Seq<usize>,
    p: (int, int),
) -> bool {
    forall|a: int, b: int|
        #[trigger] reversal_improves(dm, demands, capacity, route, a, b) ==> !pair_before(p, (a, b))
}

/// `q` is the first improving reversal after `p`.
pub open spec fn first_reversal_after(
    dm: Seq<Vec<i32>>,
    demands: Seq<i32>,
    capacity: i32,
    route: Seq<usize>,
    p: (int, int),
    q: (int, int),
) -> bool {
    &&& reversal_improves(dm, demands, capacity, route, q.0, q.1)
    &&& pair_before(p, q)
    &&& reversal_clear(dm, demands, capacity, route, p, q)
}

/// One reversal of the search, made after the reversal at `prev`: the first
/// improving one after `prev` in the current pass or, when the pass has
/// none left, the first improving one of the next pass.
pub open spec fn reversal_step(
    dm: Seq<Vec<i32>>,
    demands: Seq<i32>,
    capacity: i32,
    route: Seq<usize>,
    prev: (int, int),
    q: (int, int),
    after: Seq<usize>,
) -> bool {
    &&& after == reverse_segment(route, q.0, q.1)
    &&& {
        ||| first_reversal_after(dm, demands, capacity, route, prev, q)
        ||| reversal_none_after(dm, demands, capacity, route, prev) && first_reversal_after(
            dm,
            demands,
            capacity,
            route,
            reversal_pass_start(),
            q,
        )
    }
}

/// The position of the reversal before reversal `t` (the pass start for
/// the first one).
pub open spec fn previous_reversal(ps: Seq<(int, int)>, t: int) -> (int, int) {
    if t == 0 {
        reversal_pass_start()
    } else {
        ps[t - 1]
    }
}

/// The search passes through the routes `routes`, reversing at the
/// positions `ps`.
pub open spec fn reversal_trace(
    dm: Seq<Vec<i32>>,
    demands: Seq<i32>,
    capacity: i32,
    routes: Seq<Seq<usize>>,
    ps: Seq<(int, int)>,
) -> bool {
    &&& routes.len() == ps.len() + 1
    &&& forall|t: int|
        0 <= t < ps.len() ==> reversal_step(
            dm,
            demands,
            capacity,
            #[trigger] routes[t],
            previous_reversal(ps, t),
            ps[t],
            routes[t + 1],
        )
}

/// `result` is what two-opt reaches from `route`: the reversals of its
/// passes lead there, and no reversal improves it.
pub open spec fn two_opt_result(
    dm: Seq<Vec<i32>>,
    demands: Seq<i32>,
    capacity: i32,
    route: Seq<usize>,
    result: Seq<usize>,
) -> bool {
    &&& exists|routes: Seq<Seq<usize>>, ps: Seq<(int, int)>|
        #[trigger] reversal_trace(dm, demands, capacity, routes, ps) && routes[0] == route
            && routes.last() == result
    &&& two_opt_optimal(dm, demands, capacity, result)
}

/// Two traces from the same route agree as far as both go.
proof fn lemma_reversal_traces_agree(
    dm: Seq<Vec<i32>>,
    demands: Seq<i32>,
    capacity: i32,
    r1: Seq<Seq<usize>>,
    p1: Seq<(int, int)>,
    r2: Seq<Seq<usize>>,
    p2: Seq<(int, int)>,
    t: int,
)
    requires
        reversal_trace(dm, demands, capacity, r1, p1),
        reversal_trace(dm, demands, capacity, r2, p2),
        r1[0] == r2[0],
        0 <= t < r1.len(),
        t < r2.len(),
    ensures
        r1[t] == r2[t],
        forall|u: int| 0 <= u < t ==> p1[u] == p2[u],
    decreases t,
{
    if t > 0 {
        lemma_reversal_traces_agree(dm, demands, capacity, r1, p1, r2, p2, t - 1);
        let a = r1[t - 1];
        let prev = previous_reversal(p1, t - 1);
        assert(prev == previous_reversal(p2, t - 1));
        let q1 = p1[t - 1];
        let q2 = p2[t - 1];
        assert(reversal_step(dm, demands, capacity, a, prev, q1, r1[t]));
        assert(reversal_step(dm, demands, capacity, a, prev, q2, r2[t]));
        if first_reversal_after(dm, demands, capacity, a, prev, q1) {
            assert(!reversal_none_after(dm, demands, capacity, a, prev));
            assert(first_reversal_after(dm, demands, capacity, a, prev, q2));
            assert(reversal_improves(dm, demands, capacity, a, q1.0, q1.1));
            assert(reversal_improves(dm, demands, capacity, a, q2.0, q2.1));
        } else {
            assert(reversal_none_after(dm, demands, capacity, a, prev));
            if first_reversal_after(dm, demands, capacity, a, prev, q2) {
                assert(reversal_improves(dm, demands, capacity, a, q2.0, q2.1));
                assert(false);
            }
            assert(reversal_improves(dm, demands, capacity, a, q1.0, q1.1));
            assert(reversal_improves(dm, demands, capacity, a, q2.0, q2.1));
        }
        assert(q1 == q2);
    }
}

/// Two-opt has one result: the route that reversal passes reach from a
/// route and that no reversal improves is unique.
pub proof fn lemma_two_opt_result_unique(
    dm: Seq<Vec<i32>>,
    demands: Seq<i32>,
    capacity: i32,
    route: Seq<usize>,
    result1: Seq<usize>,
    result2: Seq<usize>,
)
    requires
        two_opt_result(dm, demands, capacity, route, result1),
        two_opt_result(dm, demands, capacity, route, result2),
    ensures
        result1 == result2,
{
    let (r1, p1) = choose|routes: Seq<Seq<usize>>, ps: Seq<(int, int)>|
        #[trigger] reversal_trace(dm, demands, capacity, routes, ps) && routes[0] == route
            && routes.last() == result1;
    let (r2, p2) = choose|routes: Seq<Seq<usize>>, ps: Seq<(int, int)>|
        #[trigger] reversal_trace(dm, demands, capacity, routes, ps) && routes[0] == route
            && routes.last() == result2;
    let l1 = p1.len() as int;
    let l2 = p2.len() as int;
    if l1 < l2 {
        lemma_reversal_traces_agree(dm, demands, capacity, r1, p1, r2, p2, l1);
        let q = p2[l1];
        assert(reversal_step(dm, demands, capacity, r2[l1], previous_reversal(p2, l1), q, r2[l1 + 1]));
        assert(reversal_improves(dm, demands, capacity, r2[l1], q.0, q.1));
    } else if l2 < l1 {
        lemma_reversal_traces_agree(dm, demands, capacity, r1, p1, r2, p2, l2);
        let q = p1[l2];
        assert(reversal_step(dm, demands, capacity, r1[l2], previous_reversal(p1, l2), q, r1[l2 + 1]));
        assert(reversal_improves(dm, demands, capacity, r1[l2], q.0, q.1));
    } else {
        lemma_reversal_traces_agree(dm, demands, capacity, r1, p1, r2, p2, l1);
    }
}

/// Two-opt is idempotent: two-opt on a two-opt result gives it back.
pub proof fn lemma_two_opt_idempotent(
    dm: Seq<Vec<i32>>,
    demands: Seq<i32>,
    capacity: i32,
    route: Seq<usize>,
    result: Seq<usize>,
    again: Seq<usize>,
)
    requires
        two_opt_result(dm, demands, capacity, route, result),
        two_opt_result(dm, demands, capacity, result, again),
    ensures
        again == result,
{
    let trace = seq![result];
    let ps = Seq::<(int, int)>::empty();
    assert(reversal_trace(dm, demands, capacity, trace, ps));
    assert(two_opt_result(dm, demands, capacity, result, result));
    lemma_two_opt_result_unique(dm, demands, capacity, result, again, result);
}

/// The position of the last reversal of the current pass, which started at
/// trace step `np0`, or the pass start when it has reversed nothing.
spec fn reversal_pass_last(ps: Seq<(int, int)>, np0: int) -> (int, int) {
    if ps.len() > np0 {
        ps.last()
    } else {
        reversal_pass_start()
    }
}

/// A pass of two-opt at scan position `cur`: the trace from `start` ends at
/// `route`, the pass started at step `np0` from `pass_start` (after a pass
/// that found nothing more after its last reversal), and no improving
/// reversal lies between the pass's last reversal and `cur`.
#[verifier::opaque]
spec fn reversal_scanning(
    dm: Seq<Vec<i32>>,
    demands: Seq<i32>,
    capacity: i32,
    start: Seq<usize>,
    routes: Seq<Seq<usize>>,
    ps: Seq<(int, int)>,
    np0: int,
    pass_start: Seq<usize>,
    route: Seq<usize>,
    cur: (int, int),
) -> bool {
    &&& reversal_trace(dm, demands, capacity, routes, ps)
    &&& routes[0] == start
    &&& routes.last() == route
    &&& 0 <= np0 <= ps.len()
    &&& routes[np0] == pass_start
    &&& np0 > 0 ==> reversal_none_after(dm, demands, capacity, pass_start, ps[np0 - 1])
    &&& reversal_clear(dm, demands, capacity, route, reversal_pass_last(ps, np0), cur)
    &&& pair_before(reversal_pass_last(ps, np0), cur)
}

/// A pass starts after the previous one found nothing more after its last
/// reversal.
proof fn lemma_reversal_scan_begin(
    dm: Seq<Vec<i32>>,
    demands: Seq<i32>,
    capacity: i32,
    start: Seq<usize>,
    routes: Seq<Seq<usize>>,
    ps: Seq<(int, int)>,
    route: Seq<usize>,
)
    requires
        reversal_trace(dm, demands, capacity, routes, ps),
        routes[0] == start,
        routes.last() == route,
        ps.len() > 0 ==> reversal_none_after(dm, demands, capacity, route, ps.last()),
    ensures
        reversal_scanning(dm, demands, capacity, start, routes, ps, ps.len() as int, route, route, (1, 0)),
{
    reveal(reversal_scanning);
    let np0 = ps.len() as int;
    assert(routes[np0] == route);
    assert(reversal_pass_last(ps, np0) == reversal_pass_start());
}

/// Scanning past a reversal that does not improve the route.
proof fn lemma_reversal_scan_pass(
    dm: Seq<Vec<i32>>,
    demands: Seq<i32>,
    capacity: i32,
    start: Seq<usize>,
    routes: Seq<Seq<usize>>,
    ps: Seq<(int, int)>,
    np0: int,
    pass_start: Seq<usize>,
    route: Seq<usize>,
    q: (int, int),
)
    requires
        reversal_scanning(dm, demands, capacity, start, routes, ps, np0, pass_start, route, q),
        !reversal_improves(dm, demands, capacity, route, q.0, q.1),
    ensures
        reversal_scanning(dm, demands, capacity, start, routes, ps, np0, pass_start, route, (q.0, q.1 + 1)),
{
    reveal(reversal_scanning);
    let p = reversal_pass_last(ps, np0);
    assert forall|a: int, b: int|
        #[trigger] reversal_improves(dm, demands, capacity, route, a, b) && pair_before(p, (a, b))
            implies !pair_before((a, b), (q.0, q.1 + 1)) by {
        assert(!pair_before((a, b), q));
    }
}

/// Reversing at `q` after a scan that reached `q` extends the trace.
proof fn lemma_reversal_scan_trade(
    dm: Seq<Vec<i32>>,
    demands: Seq<i32>,
    capacity: i32,
    start: Seq<usize>,
    routes: Seq<Seq<usize>>,
    ps: Seq<(int, int)>,
    np0: int,
    pass_start: Seq<usize>,
    route: Seq<usize>,
    q: (int, int),
)
    requires
        reversal_scanning(dm, demands, capacity, start, routes, ps, np0, pass_start, route, q),
        reversal_improves(dm, demands, capacity, route, q.0, q.1),
    ensures
        reversal_scanning(
            dm,
            demands,
            capacity,
            start,
            routes.push(reverse_segment(route, q.0, q.1)),
            ps.push(q),
            np0,
            pass_start,
            reverse_segment(route, q.0, q.1),
            (q.0, q.1 + 1),
        ),
{
    reveal(reversal_scanning);
    let after = reverse_segment(route, q.0, q.1);
    let t = ps.len() as int;
    let prev = previous_reversal(ps, t);
    assert(first_reversal_after(dm, demands, capacity, route, reversal_pass_last(ps, np0), q));
    if t == np0 && np0 > 0 {
        assert(route == pass_start);
        assert(prev == ps[np0 - 1]);
    }
    assert(reversal_step(dm, demands, capacity, route, prev, q, after));
    let routes2 = routes.push(after);
    let ps2 = ps.push(q);
    assert forall|u: int| 0 <= u < ps2.len() implies reversal_step(
        dm,
        demands,
        capacity,
        #[trigger] routes2[u],
        previous_reversal(ps2, u),
        ps2[u],
        routes2[u + 1],
    ) by {
        if u < t {
            assert(routes2[u] == routes[u]);
            assert(routes2[u + 1] == routes[u + 1]);
            assert(previous_reversal(ps2, u) == previous_reversal(ps, u));
        } else {
            assert(routes2[u] == route);
        }
    }
    assert(reversal_pass_last(ps2, np0) == q);
    assert(routes2[np0] == routes[np0]);
}

/// Scanning from `cur` on to `next` past positions that are no reversals.
proof fn lemma_reversal_scan_skip(
    dm: Seq<Vec<i32>>,
    demands: Seq<i32>,
    capacity: i32,
    start: Seq<usize>,
    routes: Seq<Seq<usize>>,
    ps: Seq<(int, int)>,
    np0: int,
    pass_start: Seq<usize>,
    route: Seq<usize>,
    cur: (int, int),
    next: (int, int),
)
    requires
        reversal_scanning(dm, demands, capacity, start, routes, ps, np0, pass_start, route, cur),
        pair_before(cur, next),
        forall|a: int, b: int|
            1 <= a < b <= route.len() - 2 && #[trigger] pair_before((a, b), next) ==> pair_before(
                (a, b),
                cur,
            ),
    ensures
        reversal_scanning(dm, demands, capacity, start, routes, ps, np0, pass_start, route, next),
{
    reveal(reversal_scanning);
    let p = reversal_pass_last(ps, np0);
    assert forall|a: int, b: int|
        #[trigger] reversal_improves(dm, demands, capacity, route, a, b) && pair_before(p, (a, b))
            implies !pair_before((a, b), next) by {
        if pair_before((a, b), next) {
            assert(pair_before((a, b), cur));
        }
    }
}

/// At the end of a pass, nothing improves after the pass's last reversal.
proof fn lemma_reversal_scan_end(
    dm: Seq<Vec<i32>>,
    demands: Seq<i32>,
    capacity: i32,
    start: Seq<usize>,
    routes: Seq<Seq<usize>>,
    ps: Seq<(int, int)>,
    np0: int,
    pass_start: Seq<usize>,
    route: Seq<usize>,
    cur: (int, int),
)
    requires
        reversal_scanning(dm, demands, capacity, start, routes, ps, np0, pass_start, route, cur),
        cur.0 >= route.len() - 2,
    ensures
        reversal_trace(dm, demands, capacity, routes, ps),
        routes[0] == start,
        routes.last() == route,
        reversal_none_after(dm, demands, capacity, route, reversal_pass_last(ps, np0)),
        ps.len() == np0 ==> two_opt_optimal(dm, demands, capacity, route),
        ps.len() > np0 ==> reversal_pass_last(ps, np0) == ps.last(),
{
    reveal(reversal_scanning);
    let p = reversal_pass_last(ps, np0);
    assert forall|a: int, b: int|
        #[trigger] reversal_improves(dm, demands, capacity, route, a, b) implies !pair_before(p, (a, b)) by {
        assert(pair_before((a, b), cur));
    }
    if ps.len() == np0 {
        assert forall|a: int, b: int| !#[trigger] reversal_improves(dm, demands, capacity, route, a, b) by {
            if reversal_improves(dm, demands, capacity, route, a, b) {
                assert(!pair_before(reversal_pass_start(), (a, b)));
            }
        }
    }
}

/// A reversal of inner nodes rearranges the route.
pub proof fn lemma_reverse_segment(demands: Seq<i32>, route: Seq<usize>, i: int, j: int)
    requires
        1 <= i < j <= route.len() - 2,
    ensures
        rearranged(demands, route, reverse_segment(route, i, j)),
{
    broadcast use vstd::seq_lib::lemma_multiset_commutative;

    let a = route.subrange(0, i);
    let b = route.subrange(i, j + 1);
    let c = route.subrange(j + 1, route.len() as int);
    assert(route =~= a + b + c);
    b.lemma_reverse_to_multiset();
    lemma_load_reverse(demands, b);
    lemma_load_concat(demands, a, b);
    lemma_load_concat(demands, a + b, c);
    lemma_load_concat(demands, a, b.reverse());
    lemma_load_concat(demands, a + b.reverse(), c);
    let r2 = a + b.reverse() + c;
    assert(r2.to_multiset() =~= route.to_multiset());
    assert(r2[0] == a[0]);
    assert(r2[r2.len() - 1] == c[c.len() - 1]);
}

/// A reversal, position by position: the positions before `i` and after `j`
/// keep their nodes, and position `p` in `i..=j` gets the node at `i + j - p`.
pub proof fn lemma_reverse_segment_positions(route: Seq<usize>, i: int, j: int)
    requires
        0 <= i <= j < route.len(),
    ensures
        reverse_segment(route, i, j).len() == route.len(),
        forall|p: int|
            0 <= p < route.len() && (p < i || j < p) ==> #[trigger] reverse_segment(route, i, j)[p]
                == route[p],
        forall|p: int| i <= p <= j ==> #[trigger] reverse_segment(route, i, j)[p] == route[i + j - p],
{
}

/// No reversal improves a two-opt result: for every stretch `i..=j` with
/// `1 <= i < j <= len - 2`, the route `r` that keeps the result's nodes
/// outside the stretch and holds at each `p` inside it the result's node at
/// `i + j - p` is over capacity or no shorter than the result.
pub proof fn lemma_two_opt_result_no_improving_reversal(
    dm: Seq<Vec<i32>>,
    demands: Seq<i32>,
    capacity: i32,
    route: Seq<usize>,
    result: Seq<usize>,
    i: int,
    j: int,
    r: Seq<usize>,
)
    requires
        two_opt_result(dm, demands, capacity, route, result),
        1 <= i < j <= result.len() - 2,
        r.len() == result.len(),
        forall|p: int| 0 <= p < r.len() && (p < i || j < p) ==> #[trigger] r[p] == result[p],
        forall|p: int| i <= p <= j ==> #[trigger] r[p] == result[i + j - p],
    ensures
        !(load(demands, r) <= capacity && path_cost(dm, r) < path_cost(dm, result)),
{
    lemma_reverse_segment_positions(result, i, j);
    assert(r =~= reverse_segment(result, i, j));
    assert(!reversal_improves(dm, demands, capacity, result, i, j));
}

/// The route with positions `i..=j` reversed.
fn reversed_route(route: &Vec<usize>, i: usize, j: usize) -> (rebuilt: Vec<usize>)
    requires
        1 <= i < j <= route@.len() - 2,
    ensures
        rebuilt@ == reverse_segment(route@, i as int, j as int),
        rebuilt@.len() == route@.len(),
        forall|p: int| 0 <= p < route@.len() && (p < i || j < p) ==> #[trigger] rebuilt@[p] == route@[p],
        forall|p: int| i <= p <= j ==> #[trigger] rebuilt@[p] == route@[i + j - p],
{
    let len = route.len();
    let mut new_route: Vec<usize> = Vec::new();
    let mut t: usize = 0;
    while t < i
        invariant
            0 <= t <= i < j <= route@.len() - 2,
            new_route@ == route@.subrange(0, t as int),
        decreases i - t,
    {
        new_route.push(route[t]);
        proof {
            assert(route@.subrange(0, t + 1) =~= route@.subrange(0, t as int).push(route@[t as int]));
        }
        t = t + 1;
    }
    let ghost mid = route@.subrange(i as int, j + 1);
    let mut u: usize = j + 1;
    while u > i
        invariant
            1 <= i < j <= route@.len() - 2,
            i <= u <= j + 1,
            mid == route@.subrange(i as int, j + 1),
            new_route@ == route@.subrange(0, i as int) + Seq::new(
                (j + 1 - u) as nat,
                |q: int| route@[j - q],
            ),
        decreases u - i,
    {
        new_route.push(route[u - 1]);
        proof {
            assert(Seq::new((j + 1 - (u - 1)) as nat, |q: int| route@[j - q]) =~= Seq::new(
                (j + 1 - u) as nat,
                |q: int| route@[j - q],
            ).push(route@[u - 1]));
        }
        u = u - 1;
    }
    proof {
        assert(mid.reverse() =~= Seq::new((j + 1 - i) as nat, |q: int| route@[j - q]));
    }
    let mut w: usize = j + 1;
    let ghost head = new_route@;
    while w < route.len()
        invariant
            j + 1 <= w <= route@.len(),
            new_route@ == head + route@.subrange(j + 1, w as int),
        decreases route@.len() - w,
    {
        new_route.push(route[w]);
        proof {
            assert(route@.subrange(j + 1, w + 1) =~= route@.subrange(j + 1, w as int).push(
                route@[w as int],
            ));
        }
        w = w + 1;
    }
    proof {
        lemma_reverse_segment_positions(route@, i as int, j as int);
    }
    new_route
}

/// Two-opt on one route: pass after pass over the reversals `(i, j)` in
/// order, take each that keeps the route within capacity and shortens the
/// current route, until a pass takes none. The result is the one two-opt
/// result of the route; it rearranges the route and is no longer, and a
/// route over capacity comes back unchanged.
#[verifier::spinoff_prover]
#[verifier::rlimit(40)]
pub fn two_opt(
    route: &Vec<usize>,
    distance_matrix: &Vec<Vec<i32>>,
    demands: &Vec<i32>,
    vehicle_capacity: i32,
) -> (best: Vec<usize>)
    requires
        route_in_range(distance_matrix@, demands@, route@),
        2 <= route@.len(),
    ensures
        two_opt_result(distance_matrix@, demands@, vehicle_capacity, route@, best@),
        rearranged(demands@, route@, best@),
        path_cost(distance_matrix@, best@) <= path_cost(distance_matrix@, route@),
        two_opt_optimal(distance_matrix@, demands@, vehicle_capacity, best@),
        load(demands@, route@) > vehicle_capacity ==> best@ == route@,
{
    let ghost dm = distance_matrix@;
    let ghost ds = demands@;
    let ghost n = demands@.len() as int;
    let ghost start = route@;
    let mut best_route = route.clone();
    proof {
        assert(best_route@ =~= route@);
        lemma_in_range_edges(dm, ds, route@);
        lemma_path_cost_floor(dm, route@);
    }
    let ghost floor = -(route@.len() * 0x8000_0000);
    let ghost mut trace: Seq<Seq<usize>> = seq![start];
    let ghost mut ps: Seq<(int, int)> = Seq::empty();
    let mut improved = true;
    let ghost mut best_cost: int = path_cost(dm, route@);
    while improved
        invariant
            dm == distance_matrix@,
            ds == demands@,
            n == demands@.len(),
            start == route@,
            route_in_range(dm, ds, route@),
            2 <= route@.len(),
            floor == -(route@.len() * 0x8000_0000),
            rearranged(ds, route@, best_route@),
            route_in_range(dm, ds, best_route@),
            best_cost == path_cost(dm, best_route@),
            best_cost <= path_cost(dm, route@),
            best_cost >= floor,
            load(ds, route@) > vehicle_capacity ==> best_route@ == route@,
            reversal_trace(dm, ds, vehicle_capacity, trace, ps),
            trace[0] == start,
            trace.last() == best_route@,
            improved && ps.len() > 0 ==> reversal_none_after(dm, ds, vehicle_capacity, best_route@, ps.last()),
            !improved ==> two_opt_optimal(dm, ds, vehicle_capacity, best_route@),
        decreases (if improved { best_cost - floor + 1 } else { 0 }),
    {
        improved = false;
        let ghost pass_start = best_route@;
        let ghost np0 = ps.len() as int;
        proof {
            lemma_in_range_edges(dm, ds, best_route@);
            lemma_reversal_scan_begin(dm, ds, vehicle_capacity, start, trace, ps, pass_start);
        }
        let mut best_distance = route_cost_wide(&best_route, distance_matrix);
        let len = best_route.len();
        let mut i: usize = 1;
        while i < len - 2
            invariant
                dm == distance_matrix@,
                ds == demands@,
                n == demands@.len(),
                route_in_range(dm, ds, route@),
                2 <= route@.len(),
                len == route@.len(),
                rearranged(ds, route@, best_route@),
                route_in_range(dm, ds, best_route@),
                best_distance == path_cost(dm, best_route@),
                best_distance <= path_cost(dm, route@),
                load(ds, route@) > vehicle_capacity ==> best_route@ == route@,
                1 <= i,
                i <= len - 1,
                !improved ==> best_route@ == pass_start,
                improved ==> best_distance < path_cost(dm, pass_start),
                path_cost(dm, pass_start) <= path_cost(dm, route@),
                floor == -(route@.len() * 0x8000_0000),
                path_cost(dm, pass_start) >= floor,
                best_distance >= floor,
                improved == (ps.len() > np0),
                np0 <= ps.len(),
                reversal_scanning(dm, ds, vehicle_capacity, start, trace, ps, np0, pass_start, best_route@, (i as int, 0)),
            decreases len - i,
        {
            let mut j: usize = i + 1;
            proof {
                lemma_reversal_scan_skip(
                    dm,
                    ds,
                    vehicle_capacity,
                    start,
                    trace,
                    ps,
                    np0,
                    pass_start,
                    best_route@,
                    (i as int, 0),
                    (i as int, j as int),
                );
            }
            while j < len - 1
                invariant
                    dm == distance_matrix@,
                    ds == demands@,
                    n == demands@.len(),
                    route_in_range(dm, ds, route@),
                    2 <= route@.len(),
                    len == route@.len(),
                    rearranged(ds, route@, best_route@),
                    route_in_range(dm, ds, best_route@),
                    best_distance == path_cost(dm, best_route@),
                    best_distance <= path_cost(dm, route@),
                    load(ds, route@) > vehicle_capacity ==> best_route@ == route@,
                    1 <= i < j,
                    i < len - 2,
                    j <= len - 1,
                    !improved ==> best_route@ == pass_start,
                    improved ==> best_distance < path_cost(dm, pass_start),
                    path_cost(dm, pass_start) <= path_cost(dm, route@),
                    floor == -(route@.len() * 0x8000_0000),
                    path_cost(dm, pass_start) >= floor,
                    best_distance >= floor,
                    improved == (ps.len() > np0),
                    np0 <= ps.len(),
                    reversal_scanning(
                        dm,
                        ds,
                        vehicle_capacity,
                        start,
                        trace,
                        ps,
                        np0,
                        pass_start,
                        best_route@,
                        (i as int, j as int),
                    ),
                decreases len - j,
            {
                let new_route = reversed_route(&best_route, i, j);
                proof {
                    lemma_reverse_segment(ds, best_route@, i as int, j as int);
                    lemma_in_range_perm(dm, ds, best_route@, new_route@);
                    lemma_in_range_edges(dm, ds, new_route@);
                    lemma_path_cost_floor(dm, new_route@);
                }
                let new_demand = route_load_wide(&new_route, demands);
                if new_demand > vehicle_capacity as i128 {
                    proof {
                        assert(!reversal_improves(dm, ds, vehicle_capacity, best_route@, i as int, j as int));
                        lemma_reversal_scan_pass(
                            dm,
                            ds,
                            vehicle_capacity,
                            start,
                            trace,
                            ps,
                            np0,
                            pass_start,
                            best_route@,
                            (i as int, j as int),
                        );
                    }
                    j = j + 1;
                    continue;
                }
                let new_distance = route_cost_wide(&new_route, distance_matrix);
                if new_distance < best_distance {
                    proof {
                        assert(load(ds, best_route@) <= vehicle_capacity);
                        assert(load(ds, new_route@) == load(ds, best_route@));
                        assert(reversal_improves(dm, ds, vehicle_capacity, best_route@, i as int, j as int));
                        lemma_reversal_scan_trade(
                            dm,
                            ds,
                            vehicle_capacity,
                            start,
                            trace,
                            ps,
                            np0,
                            pass_start,
                            best_route@,
                            (i as int, j as int),
                        );
                        trace = trace.push(new_route@);
                        ps = ps.push((i as int, j as int));
                    }
                    best_route = new_route;
                    best_distance = new_distance;
                    improved = true;
                } else {
                    proof {
                        assert(!reversal_improves(dm, ds, vehicle_capacity, best_route@, i as int, j as int));
                        lemma_reversal_scan_pass(
                            dm,
                            ds,
                            vehicle_capacity,
                            start,
                            trace,
                            ps,
                            np0,
                            pass_start,
                            best_route@,
                            (i as int, j as int),
                        );
                    }
                }
                j = j + 1;
            }
            proof {
                lemma_reversal_scan_skip(
                    dm,
                    ds,
                    vehicle_capacity,
                    start,
                    trace,
                    ps,
                    np0,
                    pass_start,
                    best_route@,
                    (i as int, j as int),
                    (i + 1, 0),
                );
            }
            i = i + 1;
        }
        proof {
            best_cost = path_cost(dm, best_route@);
            lemma_reversal_scan_end(
                dm,
                ds,
                vehicle_capacity,
                start,
                trace,
                ps,
                np0,
                pass_start,
                best_route@,
                (i as int, 0),
            );
        }
    }
    best_route
}

} // verus!
