//! Three-opt local search: within each route, cut three edges and reconnect
//! the four segments in one of six ways, taking the first reconnection (in a
//! fixed order) that keeps the route within capacity and shortens it, until
//! none does.
use vstd::prelude::*;
use crate::cost::{
    lemma_in_range_edges, lemma_in_range_perm, lemma_load_concat, lemma_load_reverse,
    lemma_path_cost_floor, load, path_cost, route_cost_wide, route_in_range, route_load_wide,
    total_path_cost,
};
use crate::solution::{
    customers, lemma_rearranged_solution, lemma_total_path_cost_le, nonempty_routes, rearranged,
    serves_each_once, solution_shape, within_capacity,
};

verus! {

/// A three-opt move `(i, j, k, v)`: cut after positions `i < j < k` and
/// reconnect in way `v`.
pub open spec fn move_in_range(len: int, i: int, j: int, k: int, v: int) -> bool {
    0 <= i < j < k < len - 1 && 0 <= v < 6
}

/// The route rebuilt from its segments `s0 = [0..=i]`, `s1 = [i+1..=j]`,
/// `s2 = [j+1..=k]` and `s3 = [k+1..]` in way `v`:
/// `0`: `s0 s1' s2 s3`, `1`: `s0 s1 s2' s3`, `2`: `s0 s1' s2' s3`,
/// `3`: `s0 s2 s1' s3`, `4`: `s0 s2' s1' s3`, `5`: `s0 s2 s1' s3`,
/// where `'` reverses a segment.
pub open spec fn reconnect(route: Seq<usize>, i: int, j: int, k: int, v: int) -> Seq<usize> {
    let s0 = route.subrange(0, i + 1);
    let s1 = route.subrange(i + 1, j + 1);
    let s2 = route.subrange(j + 1, k + 1);
    let s3 = route.subrange(k + 1, route.len() as int);
    if v == 0 {
        s0 + s1.reverse() + s2 + s3
    } else if v == 1 {
        s0 + s1 + s2.reverse() + s3
    } else if v == 2 {
        s0 + s1.reverse() + s2.reverse() + s3
    } else if v == 3 {
        s0 + s2 + s1.reverse() + s3
    } else if v == 4 {
        s0 + s2.reverse() + s1.reverse() + s3
    } else {
        s0 + s2 + s1.reverse() + s3
    }
}

/// Where position `p` of the route rebuilt by the move `(i, j, k, v)` takes
/// its node from, written position by position: the positions up to `i` and
/// after `k` stay; way `0` mirrors `i+1..=j`, way `1` mirrors `j+1..=k`,
/// way `2` mirrors both, way `4` mirrors `i+1..=k` as a whole, and ways `3`
/// and `5` move `j+1..=k` forward to `i+1` and put `i+1..=j` mirrored behind it.
pub open spec fn reconnect_source(i: int, j: int, k: int, v: int, p: int) -> int {
    if p <= i || p > k {
        p
    } else if v == 0 {
        if p <= j { i + j + 1 - p } else { p }
    } else if v == 1 {
        if p <= j { p } else { j + k + 1 - p }
    } else if v == 2 {
        if p <= j { i + j + 1 - p } else { j + k + 1 - p }
    } else if v == 4 {
        i + k + 1 - p
    } else {
        if p <= i + k - j { p + j - i } else { i + k + 1 - p }
    }
}

/// The move keeps the route within capacity and makes it strictly shorter.
pub open spec fn improves(
    dm: Seq<Vec<i32>>,
    demands: Seq<i32>,
    capacity: i32,
    route: Seq<usize>,
    i: int,
    j: int,
    k: int,
    v: int,
) -> bool {
    &&& move_in_range(route.len() as int, i, j, k, v)
    &&& load(demands, reconnect(route, i, j, k, v)) <= capacity
    &&& path_cost(dm, reconnect(route, i, j, k, v)) < path_cost(dm, route)
}

/// Lexicographic order on moves.
pub open spec fn lex_before(a: (int, int, int, int), b: (int, int, int, int)) -> bool {
    ||| a.0 < b.0
    ||| a.0 == b.0 && a.1 < b.1
    ||| a.0 == b.0 && a.1 == b.1 && a.2 < b.2
    ||| a.0 == b.0 && a.1 == b.1 && a.2 == b.2 && a.3 < b.3
}

/// No improving move comes before `(i, j, k, v)`.
pub open spec fn none_improving_before(
    dm: Seq<Vec<i32>>,
    demands: Seq<i32>,
    capacity: i32,
    route: Seq<usize>,
    i: int,
    j: int,
    k: int,
    v: int,
) -> bool {
    forall|a: int, b: int, c: int, d: int|
        #[trigger] improves(dm, demands, capacity, route, a, b, c, d) ==> !lex_before(
            (a, b, c, d),
            (i, j, k, v),
        )
}

/// `m` is the first improving move.
pub open spec fn is_first_improving(
    dm: Seq<Vec<i32>>,
    demands: Seq<i32>,
    capacity: i32,
    route: Seq<usize>,
    m: (int, int, int, int),
) -> bool {
    &&& improves(dm, demands, capacity, route, m.0, m.1, m.2, m.3)
    &&& none_improving_before(dm, demands, capacity, route, m.0, m.1, m.2, m.3)
}

/// One three-opt step: the route after the first improving move, or `None`
/// when no move improves the route.
pub open spec fn three_opt_step(
    dm: Seq<Vec<i32>>,
    demands: Seq<i32>,
    capacity: i32,
    route: Seq<usize>,
) -> Option<Seq<usize>> {
    if exists|m: (int, int, int, int)| is_first_improving(dm, demands, capacity, route, m) {
        let m = choose|m: (int, int, int, int)| is_first_improving(dm, demands, capacity, route, m);
        Some(reconnect(route, m.0, m.1, m.2, m.3))
    } else {
        None
    }
}

/// `chain` is a sequence of three-opt steps.
pub open spec fn is_descent(
    dm: Seq<Vec<i32>>,
    demands: Seq<i32>,
    capacity: i32,
    chain: Seq<Seq<usize>>,
) -> bool {
    &&& chain.len() >= 1
    &&& forall|t: int|
        0 <= t < chain.len() - 1 ==> three_opt_step(dm, demands, capacity, #[trigger] chain[t])
            == Some(chain[t + 1])
}

/// `result` is reached from `route` by three-opt steps, and no move
/// improves it.
pub open spec fn three_opt_result(
    dm: Seq<Vec<i32>>,
    demands: Seq<i32>,
    capacity: i32,
    route: Seq<usize>,
    result: Seq<usize>,
) -> bool {
    &&& exists|chain: Seq<Seq<usize>>|
        #[trigger] is_descent(dm, demands, capacity, chain) && chain[0] == route && chain.last()
            == result
    &&& three_opt_step(dm, demands, capacity, result) is None
}

/// `after` is `before` with three-opt applied to every route.
pub open spec fn three_opt_solution(
    dm: Seq<Vec<i32>>,
    demands: Seq<i32>,
    capacity: i32,
    before: Seq<Vec<usize>>,
    after: Seq<Vec<usize>>,
) -> bool {
    &&& after.len() == before.len()
    &&& forall|r: int|
        0 <= r < before.len() ==> three_opt_result(dm, demands, capacity, before[r]@, #[trigger] after[r]@)
}

/// Two descents from the same route agree as far as both go.
proof fn lemma_descents_agree(
    dm: Seq<Vec<i32>>,
    demands: Seq<i32>,
    capacity: i32,
    c1: Seq<Seq<usize>>,
    c2: Seq<Seq<usize>>,
    t: int,
)
    requires
        is_descent(dm, demands, capacity, c1),
        is_descent(dm, demands, capacity, c2),
        c1[0] == c2[0],
        0 <= t < c1.len(),
        t < c2.len(),
    ensures
        c1[t] == c2[t],
    decreases t,
{
    if t > 0 {
        lemma_descents_agree(dm, demands, capacity, c1, c2, t - 1);
        assert(three_opt_step(dm, demands, capacity, c1[t - 1]) == Some(c1[t]));
        assert(three_opt_step(dm, demands, capacity, c2[t - 1]) == Some(c2[t]));
    }
}

/// Three-opt has one result: the route reached by three-opt steps at which
/// no move improves is unique.
pub proof fn lemma_three_opt_result_unique(
    dm: Seq<Vec<i32>>,
    demands: Seq<i32>,
    capacity: i32,
    route: Seq<usize>,
    a: Seq<usize>,
    b: Seq<usize>,
)
    requires
        three_opt_result(dm, demands, capacity, route, a),
        three_opt_result(dm, demands, capacity, route, b),
    ensures
        a == b,
{
    let c1 = choose|chain: Seq<Seq<usize>>|
        #[trigger] is_descent(dm, demands, capacity, chain) && chain[0] == route && chain.last() == a;
    let c2 = choose|chain: Seq<Seq<usize>>|
        #[trigger] is_descent(dm, demands, capacity, chain) && chain[0] == route && chain.last() == b;
    let l1 = c1.len() as int;
    let l2 = c2.len() as int;
    if l1 < l2 {
        lemma_descents_agree(dm, demands, capacity, c1, c2, l1 - 1);
        assert(three_opt_step(dm, demands, capacity, c2[l1 - 1]) == Some(c2[l1]));
    } else if l2 < l1 {
        lemma_descents_agree(dm, demands, capacity, c1, c2, l2 - 1);
        assert(three_opt_step(dm, demands, capacity, c1[l2 - 1]) == Some(c1[l2]));
    } else {
        lemma_descents_agree(dm, demands, capacity, c1, c2, l1 - 1);
    }
}

/// Three-opt is idempotent: three-opt on a three-opt result gives it back.
pub proof fn lemma_three_opt_idempotent(
    dm: Seq<Vec<i32>>,
    demands: Seq<i32>,
    capacity: i32,
    route: Seq<usize>,
    result: Seq<usize>,
    again: Seq<usize>,
)
    requires
        three_opt_result(dm, demands, capacity, route, result),
        three_opt_result(dm, demands, capacity, result, again),
    ensures
        again == result,
{
    let chain = seq![result];
    assert(is_descent(dm, demands, capacity, chain));
    assert(three_opt_result(dm, demands, capacity, result, result));
    lemma_three_opt_result_unique(dm, demands, capacity, result, again, result);
}

/// Two different moves are ordered one way or the other.
pub proof fn lemma_lex_total(a: (int, int, int, int), b: (int, int, int, int))
    ensures
        a != b ==> lex_before(a, b) || lex_before(b, a),
        !(lex_before(a, b) && lex_before(b, a)),
{
}

/// The step taken from a first improving move is the reconnection by it.
pub proof fn lemma_step_is_first(
    dm: Seq<Vec<i32>>,
    demands: Seq<i32>,
    capacity: i32,
    route: Seq<usize>,
    m: (int, int, int, int),
)
    requires
        is_first_improving(dm, demands, capacity, route, m),
    ensures
        three_opt_step(dm, demands, capacity, route) == Some(reconnect(route, m.0, m.1, m.2, m.3)),
{
    let m2 = choose|m: (int, int, int, int)| is_first_improving(dm, demands, capacity, route, m);
    assert(is_first_improving(dm, demands, capacity, route, m2));
    lemma_lex_total(m, m2);
    if m != m2 {
        assert(improves(dm, demands, capacity, route, m2.0, m2.1, m2.2, m2.3));
        assert(improves(dm, demands, capacity, route, m.0, m.1, m.2, m.3));
    }
    assert(m == m2);
}

/// Without an improving move there is no step.
pub proof fn lemma_no_step(dm: Seq<Vec<i32>>, demands: Seq<i32>, capacity: i32, route: Seq<usize>)
    requires
        none_improving_before(dm, demands, capacity, route, route.len() as int, 0, 0, 0),
    ensures
        three_opt_step(dm, demands, capacity, route) is None,
{
    if exists|m: (int, int, int, int)| is_first_improving(dm, demands, capacity, route, m) {
        let m = choose|m: (int, int, int, int)| is_first_improving(dm, demands, capacity, route, m);
        assert(improves(dm, demands, capacity, route, m.0, m.1, m.2, m.3));
    }
}


/// A reconnection rearranges the route: same length, same nodes, same first
/// and last node, same load.
pub proof fn lemma_reconnect(demands: Seq<i32>, route: Seq<usize>, i: int, j: int, k: int, v: int)
    requires
        move_in_range(route.len() as int, i, j, k, v),
    ensures
        reconnect(route, i, j, k, v).len() == route.len(),
        reconnect(route, i, j, k, v).to_multiset() == route.to_multiset(),
        reconnect(route, i, j, k, v)[0] == route[0],
        reconnect(route, i, j, k, v)[route.len() - 1] == route[route.len() - 1],
        load(demands, reconnect(route, i, j, k, v)) == load(demands, route),
{
    broadcast use vstd::seq_lib::lemma_multiset_commutative;

    let s0 = route.subrange(0, i + 1);
    let s1 = route.subrange(i + 1, j + 1);
    let s2 = route.subrange(j + 1, k + 1);
    let s3 = route.subrange(k + 1, route.len() as int);
    assert(route =~= s0 + s1 + s2 + s3);
    s1.lemma_reverse_to_multiset();
    s2.lemma_reverse_to_multiset();
    lemma_load_reverse(demands, s1);
    lemma_load_reverse(demands, s2);
    let x = if v == 0 || v == 2 {
        s1.reverse()
    } else if v == 1 {
        s1
    } else if v == 3 || v == 5 {
        s2
    } else {
        s2.reverse()
    };
    let y = if v == 0 {
        s2
    } else if v == 1 || v == 2 {
        s2.reverse()
    } else {
        s1.reverse()
    };
    assert(reconnect(route, i, j, k, v) == s0 + x + y + s3);
    let r2 = s0 + x + y + s3;
    assert(x.to_multiset().add(y.to_multiset()) =~= s1.to_multiset().add(s2.to_multiset()));
    assert(load(demands, x) + load(demands, y) == load(demands, s1) + load(demands, s2));
    lemma_load_concat(demands, s0, x);
    lemma_load_concat(demands, s0 + x, y);
    lemma_load_concat(demands, s0 + x + y, s3);
    lemma_load_concat(demands, s0, s1);
    lemma_load_concat(demands, s0 + s1, s2);
    lemma_load_concat(demands, s0 + s1 + s2, s3);
    assert(r2.to_multiset() =~= route.to_multiset());
    assert(r2[0] == s0[0]);
    assert(r2[r2.len() - 1] == s3[s3.len() - 1]);
}

/// Each reconnection, position by position: the rebuilt route has the
/// route's length and holds at each position `p` the node at
/// `reconnect_source(i, j, k, v, p)`.
pub proof fn lemma_reconnect_positions(route: Seq<usize>, i: int, j: int, k: int, v: int)
    requires
        move_in_range(route.len() as int, i, j, k, v),
    ensures
        reconnect(route, i, j, k, v).len() == route.len(),
        forall|p: int|
            0 <= p < route.len() ==> #[trigger] reconnect(route, i, j, k, v)[p] == route[reconnect_source(
                i,
                j,
                k,
                v,
                p,
            )],
{
    let s0 = route.subrange(0, i + 1);
    let s1 = route.subrange(i + 1, j + 1);
    let s2 = route.subrange(j + 1, k + 1);
    let s3 = route.subrange(k + 1, route.len() as int);
    let r = reconnect(route, i, j, k, v);
    assert forall|p: int| 0 <= p < route.len() implies #[trigger] r[p] == route[reconnect_source(
        i,
        j,
        k,
        v,
        p,
    )] by {
        if v == 0 {
            assert(r == s0 + s1.reverse() + s2 + s3);
        } else if v == 1 {
            assert(r == s0 + s1 + s2.reverse() + s3);
        } else if v == 2 {
            assert(r == s0 + s1.reverse() + s2.reverse() + s3);
        } else if v == 4 {
            assert(r == s0 + s2.reverse() + s1.reverse() + s3);
        } else {
            assert(r == s0 + s2 + s1.reverse() + s3);
        }
    }
}

/// No reconnection improves a three-opt result: for every cut
/// `0 <= i < j < k < len - 1` and way `v < 6`, the route `r` holding at each
/// position `p` the result's node at `reconnect_source(i, j, k, v, p)` is
/// over capacity or no shorter than the result.
pub proof fn lemma_three_opt_result_no_improving_reconnection(
    dm: Seq<Vec<i32>>,
    demands: Seq<i32>,
    capacity: i32,
    route: Seq<usize>,
    result: Seq<usize>,
    i: int,
    j: int,
    k: int,
    v: int,
    r: Seq<usize>,
)
    requires
        three_opt_result(dm, demands, capacity, route, result),
        0 <= i < j < k < result.len() - 1,
        0 <= v < 6,
        r.len() == result.len(),
        forall|p: int| 0 <= p < r.len() ==> #[trigger] r[p] == result[reconnect_source(i, j, k, v, p)],
    ensures
        !(load(demands, r) <= capacity && path_cost(dm, r) < path_cost(dm, result)),
{
    lemma_reconnect_positions(result, i, j, k, v);
    assert(r =~= reconnect(result, i, j, k, v));
    if improves(dm, demands, capacity, result, i, j, k, v) {
        lemma_first_improving_exists(dm, demands, capacity, result, i, j, k, v);
    }
}

/// An improving move has a first improving move at or before it.
proof fn lemma_first_improving_exists(
    dm: Seq<Vec<i32>>,
    demands: Seq<i32>,
    capacity: i32,
    route: Seq<usize>,
    a: int,
    b: int,
    c: int,
    d: int,
)
    requires
        improves(dm, demands, capacity, route, a, b, c, d),
    ensures
        three_opt_step(dm, demands, capacity, route) is Some,
    decreases a, b, c, d,
{
    if none_improving_before(dm, demands, capacity, route, a, b, c, d) {
        assert(is_first_improving(dm, demands, capacity, route, (a, b, c, d)));
    } else {
        let (a2, b2, c2, d2) = choose|a2: int, b2: int, c2: int, d2: int|
            #[trigger] improves(dm, demands, capacity, route, a2, b2, c2, d2) && lex_before(
                (a2, b2, c2, d2),
                (a, b, c, d),
            );
        lemma_first_improving_exists(dm, demands, capacity, route, a2, b2, c2, d2);
    }
}

/// Appends `route[from..to]` to `out`.
fn push_segment(out: &mut Vec<usize>, route: &Vec<usize>, from: usize, to: usize)
    requires
        from <= to <= route@.len(),
    ensures
        final(out)@ == old(out)@ + route@.subrange(from as int, to as int),
{
    let ghost start = out@;
    let mut t = from;
    while t < to
        invariant
            from <= t <= to <= route@.len(),
            out@ == start + route@.subrange(from as int, t as int),
        decreases to - t,
    {
        out.push(route[t]);
        proof {
            assert(route@.subrange(from as int, t + 1) =~= route@.subrange(from as int, t as int).push(
                route@[t as int],
            ));
        }
        t = t + 1;
    }
    proof {
        assert(out@ == start + route@.subrange(from as int, to as int));
    }
}

/// Appends `route[from..to]`, reversed, to `out`.
fn push_segment_reversed(out: &mut Vec<usize>, route: &Vec<usize>, from: usize, to: usize)
    requires
        from <= to <= route@.len(),
    ensures
        final(out)@ == old(out)@ + route@.subrange(from as int, to as int).reverse(),
{
    let ghost start = out@;
    let ghost seg = route@.subrange(from as int, to as int);
    let mut t = to;
    while t > from
        invariant
            from <= t <= to <= route@.len(),
            seg == route@.subrange(from as int, to as int),
            out@ == start + Seq::new((to - t) as nat, |q: int| route@[to - 1 - q]),
        decreases t - from,
    {
        out.push(route[t - 1]);
        proof {
            assert(Seq::new((to - (t - 1)) as nat, |q: int| route@[to - 1 - q]) =~= Seq::new(
                (to - t) as nat,
                |q: int| route@[to - 1 - q],
            ).push(route@[t - 1]));
        }
        t = t - 1;
    }
    proof {
        assert(seg.reverse() =~= Seq::new((to - from) as nat, |q: int| route@[to - 1 - q]));
    }
}

/// The route rebuilt by the move `(i, j, k, v)`.
fn reconnect_route(route: &Vec<usize>, i: usize, j: usize, k: usize, v: usize) -> (rebuilt: Vec<usize>)
    requires
        move_in_range(route@.len() as int, i as int, j as int, k as int, v as int),
    ensures
        rebuilt@ == reconnect(route@, i as int, j as int, k as int, v as int),
        rebuilt@.len() == route@.len(),
        forall|p: int|
            0 <= p < route@.len() ==> #[trigger] rebuilt@[p] == route@[reconnect_source(
                i as int,
                j as int,
                k as int,
                v as int,
                p,
            )],
{
    let m = route.len();
    let mut out: Vec<usize> = Vec::new();
    push_segment(&mut out, route, 0, i + 1);
    if v == 0 {
        push_segment_reversed(&mut out, route, i + 1, j + 1);
        push_segment(&mut out, route, j + 1, k + 1);
    } else if v == 1 {
        push_segment(&mut out, route, i + 1, j + 1);
        push_segment_reversed(&mut out, route, j + 1, k + 1);
    } else if v == 2 {
        push_segment_reversed(&mut out, route, i + 1, j + 1);
        push_segment_reversed(&mut out, route, j + 1, k + 1);
    } else if v == 3 {
        push_segment(&mut out, route, j + 1, k + 1);
        push_segment_reversed(&mut out, route, i + 1, j + 1);
    } else if v == 4 {
        push_segment_reversed(&mut out, route, j + 1, k + 1);
        push_segment_reversed(&mut out, route, i + 1, j + 1);
    } else {
        push_segment(&mut out, route, j + 1, k + 1);
        push_segment_reversed(&mut out, route, i + 1, j + 1);
    }
    push_segment(&mut out, route, k + 1, m);
    proof {
        assert(Seq::<usize>::empty() + route@.subrange(0, i + 1) =~= route@.subrange(0, i + 1));
        lemma_reconnect_positions(route@, i as int, j as int, k as int, v as int);
    }
    out
}


/// The route after the first improving three-opt move, or `None` when no
/// move improves it.
fn first_improvement(
    route: &Vec<usize>,
    current_cost: i128,
    distance: &Vec<Vec<i32>>,
    demands: &Vec<i32>,
    vehicle_capacity: i32,
) -> (found: Option<Vec<usize>>)
    requires
        route_in_range(distance@, demands@, route@),
        3 <= route@.len(),
        current_cost == path_cost(distance@, route@),
    ensures
        match found {
            Some(r) => three_opt_step(distance@, demands@, vehicle_capacity, route@) == Some(r@),
            None => three_opt_step(distance@, demands@, vehicle_capacity, route@) is None,
        },
{
    let ghost dm = distance@;
    let ghost ds = demands@;
    let ghost n = demands@.len() as int;
    let ghost r0 = route@;
    let m = route.len();
    let mut i: usize = 0;
    while i + 3 < m
        invariant
            m == r0.len(),
            r0 == route@,
            dm == distance@,
            ds == demands@,
            n == demands@.len(),
            route_in_range(dm, ds, r0),
            3 <= m,
            current_cost == path_cost(dm, r0),
            i + 3 <= m,
            none_improving_before(dm, ds, vehicle_capacity, r0, i as int, 0, 0, 0),
        decreases m - i,
    {
        let mut j: usize = i + 1;
        while j + 2 < m
            invariant
                m == r0.len(),
                r0 == route@,
                dm == distance@,
                ds == demands@,
                n == demands@.len(),
                route_in_range(dm, ds, r0),
                3 <= m,
                current_cost == path_cost(dm, r0),
                i + 3 < m,
                i < j,
                j + 2 <= m,
                none_improving_before(dm, ds, vehicle_capacity, r0, i as int, j as int, 0, 0),
            decreases m - j,
        {
            let mut k: usize = j + 1;
            while k + 1 < m
                invariant
                    m == r0.len(),
                    r0 == route@,
                    dm == distance@,
                    ds == demands@,
                    n == demands@.len(),
                    route_in_range(dm, ds, r0),
                    3 <= m,
                    current_cost == path_cost(dm, r0),
                    i < j < k,
                    j + 2 < m,
                    k + 1 <= m,
                    none_improving_before(
                        dm,
                        ds,
                        vehicle_capacity,
                        r0,
                        i as int,
                        j as int,
                        k as int,
                        0,
                    ),
                decreases m - k,
            {
                let mut v: usize = 0;
                while v < 6
                    invariant
                        m == r0.len(),
                        r0 == route@,
                        dm == distance@,
                        ds == demands@,
                        n == demands@.len(),
                        route_in_range(dm, ds, r0),
                        3 <= m,
                        current_cost == path_cost(dm, r0),
                        i < j < k,
                        k + 1 < m,
                        v <= 6,
                        none_improving_before(
                            dm,
                            ds,
                            vehicle_capacity,
                            r0,
                            i as int,
                            j as int,
                            k as int,
                            v as int,
                        ),
                    decreases 6 - v,
                {
                    let new_route = reconnect_route(route, i, j, k, v);
                    proof {
                        lemma_reconnect(ds, r0, i as int, j as int, k as int, v as int);
                        lemma_in_range_perm(dm, ds, r0, new_route@);
                        lemma_in_range_edges(dm, ds, new_route@);
                    }
                    let new_demand = route_load_wide(&new_route, demands);
                    if new_demand <= vehicle_capacity as i128 {
                        let new_cost = route_cost_wide(&new_route, distance);
                        if new_cost < current_cost {
                            proof {
                                assert(improves(dm, ds, vehicle_capacity, r0, i as int, j as int, k as int, v as int));
                                lemma_step_is_first(dm, ds, vehicle_capacity, r0, (i as int, j as int, k as int, v as int));
                            }
                            return Some(new_route);
                        }
                    }
                    proof {
                        assert(!improves(dm, ds, vehicle_capacity, r0, i as int, j as int, k as int, v as int));
                        assert forall|a: int, b: int, c: int, d: int|
                            #[trigger] improves(dm, ds, vehicle_capacity, r0, a, b, c, d) implies !lex_before(
                            (a, b, c, d),
                            (i as int, j as int, k as int, v + 1),
                        ) by {
                            assert(!lex_before((a, b, c, d), (i as int, j as int, k as int, v as int)));
                        }
                    }
                    v = v + 1;
                }
                proof {
                    assert forall|a: int, b: int, c: int, d: int|
                        #[trigger] improves(dm, ds, vehicle_capacity, r0, a, b, c, d) implies !lex_before(
                        (a, b, c, d),
                        (i as int, j as int, k + 1, 0),
                    ) by {
                        assert(!lex_before((a, b, c, d), (i as int, j as int, k as int, 6)));
                    }
                }
                k = k + 1;
            }
            proof {
                assert forall|a: int, b: int, c: int, d: int|
                    #[trigger] improves(dm, ds, vehicle_capacity, r0, a, b, c, d) implies !lex_before(
                    (a, b, c, d),
                    (i as int, j + 1, 0, 0),
                ) by {
                    assert(!lex_before((a, b, c, d), (i as int, j as int, k as int, 0)));
                }
            }
            j = j + 1;
        }
        proof {
            assert forall|a: int, b: int, c: int, d: int|
                #[trigger] improves(dm, ds, vehicle_capacity, r0, a, b, c, d) implies !lex_before(
                (a, b, c, d),
                (i + 1, 0, 0, 0),
            ) by {
                assert(!lex_before((a, b, c, d), (i as int, j as int, 0, 0)));
            }
        }
        i = i + 1;
    }
    proof {
        assert forall|a: int, b: int, c: int, d: int|
            #[trigger] improves(dm, ds, vehicle_capacity, r0, a, b, c, d) implies !lex_before(
            (a, b, c, d),
            (m as int, 0, 0, 0),
        ) by {
            assert(!lex_before((a, b, c, d), (i as int, 0, 0, 0)));
        }
        lemma_no_step(dm, ds, vehicle_capacity, r0);
    }
    None
}


/// A three-opt step rearranges the route within capacity and shortens it.
pub proof fn lemma_step_props(
    dm: Seq<Vec<i32>>,
    demands: Seq<i32>,
    capacity: i32,
    route: Seq<usize>,
    next: Seq<usize>,
)
    requires
        three_opt_step(dm, demands, capacity, route) == Some(next),
    ensures
        next.len() == route.len(),
        next.to_multiset() == route.to_multiset(),
        next[0] == route[0],
        next[route.len() - 1] == route[route.len() - 1],
        load(demands, next) == load(demands, route),
        path_cost(dm, next) < path_cost(dm, route),
{
    let m = choose|m: (int, int, int, int)| is_first_improving(dm, demands, capacity, route, m);
    assert(is_first_improving(dm, demands, capacity, route, m));
    lemma_reconnect(demands, route, m.0, m.1, m.2, m.3);
}

/// Three-opt on one route: steps until no move improves it.
fn three_opt_route(
    route: &Vec<usize>,
    distance: &Vec<Vec<i32>>,
    demands: &Vec<i32>,
    vehicle_capacity: i32,
) -> (outcome: (Vec<usize>, bool))
    requires
        route_in_range(distance@, demands@, route@),
        3 <= route@.len(),
    ensures
        ({
            let result = outcome.0;
            &&& outcome.1 == (result@ != route@)
            &&& three_opt_result(distance@, demands@, vehicle_capacity, route@, result@)
            &&& result@.len() == route@.len()
            &&& result@.to_multiset() == route@.to_multiset()
            &&& result@[0] == route@[0]
            &&& result@[route@.len() - 1] == route@[route@.len() - 1]
            &&& load(demands@, result@) == load(demands@, route@)
            &&& path_cost(distance@, result@) <= path_cost(distance@, route@)
            &&& result@ != route@ ==> path_cost(distance@, result@) < path_cost(distance@, route@)
        }),
{
    let ghost dm = distance@;
    let ghost ds = demands@;
    let ghost n = demands@.len() as int;
    let mut current = route.clone();
    proof {
        assert(current@ =~= route@);
        lemma_in_range_edges(dm, ds, route@);
        lemma_path_cost_floor(dm, route@);
    }
    let mut cost = route_cost_wide(&current, distance);
    let ghost floor = -(route@.len() * 0x8000_0000);
    let ghost mut chain: Seq<Seq<usize>> = seq![route@];
    let mut route_changed = true;
    let mut changed = false;
    while route_changed
        invariant
            dm == distance@,
            ds == demands@,
            n == demands@.len(),
            route_in_range(dm, ds, route@),
            3 <= route@.len(),
            floor == -(route@.len() * 0x8000_0000),
            current@.len() == route@.len(),
            current@.to_multiset() == route@.to_multiset(),
            current@[0] == route@[0],
            current@[route@.len() - 1] == route@[route@.len() - 1],
            load(ds, current@) == load(ds, route@),
            route_in_range(dm, ds, current@),
            cost >= floor,
            cost == path_cost(dm, current@),
            cost <= path_cost(dm, route@),
            current@ != route@ ==> cost < path_cost(dm, route@),
            is_descent(dm, ds, vehicle_capacity, chain),
            chain[0] == route@,
            chain.last() == current@,
            !route_changed ==> three_opt_step(dm, ds, vehicle_capacity, current@) is None,
            changed == (current@ != route@),
        decreases (if route_changed { cost - floor + 1 } else { 0 }),
    {
        route_changed = false;
        let found = first_improvement(&current, cost, distance, demands, vehicle_capacity);
        match found {
            Some(next) => {
                proof {
                    lemma_step_props(dm, ds, vehicle_capacity, current@, next@);
                    lemma_in_range_perm(dm, ds, current@, next@);
                    lemma_in_range_edges(dm, ds, next@);
                    lemma_path_cost_floor(dm, next@);
                    let old_chain = chain;
                    chain = chain.push(next@);
                    assert forall|t: int| 0 <= t < chain.len() - 1 implies three_opt_step(
                        dm,
                        ds,
                        vehicle_capacity,
                        #[trigger] chain[t],
                    ) == Some(chain[t + 1]) by {
                        if t < old_chain.len() - 1 {
                            assert(chain[t] == old_chain[t]);
                            assert(chain[t + 1] == old_chain[t + 1]);
                        }
                    }
                }
                let new_cost = route_cost_wide(&next, distance);
                current = next;
                cost = new_cost;
                route_changed = true;
                changed = true;
            },
            None => {},
        }
    }
    proof {
        assert(is_descent(dm, ds, vehicle_capacity, chain) && chain[0] == route@ && chain.last()
            == current@);
    }
    (current, changed)
}

/// Three-opt on every route of a solution; tells whether any route changed.
/// Each route becomes its one three-opt result; the customers, the shape of
/// the routes and their feasibility are kept, and no route gets longer.
pub fn three_opt(
    solution: &mut Vec<Vec<usize>>,
    distance: &Vec<Vec<i32>>,
    demands: &Vec<i32>,
    vehicle_capacity: i32,
) -> (improved: bool)
    requires
        forall|r: int|
            0 <= r < old(solution)@.len() ==> 3 <= (#[trigger] old(solution)@[r])@.len()
                && route_in_range(distance@, demands@, old(solution)@[r]@),
    ensures
        final(solution)@.len() == old(solution)@.len(),
        forall|r: int|
            0 <= r < old(solution)@.len() ==> three_opt_result(
                distance@,
                demands@,
                vehicle_capacity,
                old(solution)@[r]@,
                #[trigger] final(solution)@[r]@,
            ),
        forall|r: int|
            0 <= r < old(solution)@.len() ==> rearranged(
                demands@,
                old(solution)@[r]@,
                #[trigger] final(solution)@[r]@,
            ),
        forall|r: int|
            0 <= r < old(solution)@.len() ==> path_cost(distance@, #[trigger] final(solution)@[r]@)
                <= path_cost(distance@, old(solution)@[r]@),
        forall|r: int|
            0 <= r < old(solution)@.len() && #[trigger] final(solution)@[r]@ != old(solution)@[r]@
                ==> path_cost(distance@, final(solution)@[r]@) < path_cost(
                distance@,
                old(solution)@[r]@,
            ),
        improved == exists|r: int|
            0 <= r < old(solution)@.len() && #[trigger] final(solution)@[r]@ != old(solution)@[r]@,
        forall|m: int|
            #[trigger] solution_shape(old(solution)@, m) ==> solution_shape(final(solution)@, m),
        nonempty_routes(final(solution)@),
        customers(final(solution)@).to_multiset() == customers(old(solution)@).to_multiset(),
        forall|m: int|
            #[trigger] serves_each_once(old(solution)@, m) ==> serves_each_once(final(solution)@, m),
        within_capacity(old(solution)@, demands@, vehicle_capacity) ==> within_capacity(
            final(solution)@,
            demands@,
            vehicle_capacity,
        ),
        total_path_cost(distance@, final(solution)@) <= total_path_cost(distance@, old(solution)@),
{
    let ghost dm = distance@;
    let ghost ds = demands@;
    let ghost n = demands@.len() as int;
    let ghost start = solution@;
    let mut improved = false;
    let count = solution.len();
    let mut r: usize = 0;
    while r < count
        invariant
            dm == distance@,
            ds == demands@,
            n == demands@.len(),
            forall|q: int|
                0 <= q < start.len() ==> 3 <= (#[trigger] start[q])@.len() && route_in_range(
                    dm,
                    ds,
                    start[q]@,
                ),
            count == start.len(),
            solution@.len() == count,
            0 <= r <= count,
            forall|q: int| r <= q < count ==> #[trigger] solution@[q] == start[q],
            forall|q: int|
                0 <= q < r ==> three_opt_result(
                    dm,
                    ds,
                    vehicle_capacity,
                    start[q]@,
                    #[trigger] solution@[q]@,
                ),
            forall|q: int| 0 <= q < r ==> rearranged(ds, start[q]@, #[trigger] solution@[q]@),
            forall|q: int|
                0 <= q < r ==> path_cost(dm, #[trigger] solution@[q]@) <= path_cost(dm, start[q]@),
            forall|q: int|
                0 <= q < r && #[trigger] solution@[q]@ != start[q]@ ==> path_cost(dm, solution@[q]@)
                    < path_cost(dm, start[q]@),
            improved == exists|q: int| 0 <= q < r && #[trigger] solution@[q]@ != start[q]@,
        decreases count - r,
    {
        proof {
            assert(solution@[r as int] == start[r as int]);
        }
        let (new_route, changed) = three_opt_route(&solution[r], distance, demands, vehicle_capacity);
        let ghost prev = solution@;
        if changed {
            improved = true;
        }
        solution[r] = new_route;
        proof {
            assert forall|q: int| 0 <= q < r + 1 implies #[trigger] solution@[q]@ == (if q == r {
                solution@[q]@
            } else {
                prev[q]@
            }) by {}
            if changed {
                assert(solution@[r as int]@ != start[r as int]@);
            } else {
                assert(solution@[r as int]@ =~= start[r as int]@);
            }
            assert(improved == exists|q: int| 0 <= q < r + 1 && #[trigger] solution@[q]@ != start[q]@) by {
                if improved {
                    if changed {
                        assert(solution@[r as int]@ != start[r as int]@);
                    } else {
                        let q = choose|q: int| 0 <= q < r && #[trigger] prev[q]@ != start[q]@;
                        assert(solution@[q]@ != start[q]@);
                    }
                } else {
                    assert forall|q: int| 0 <= q < r + 1 implies !(#[trigger] solution@[q]@ != start[q]@) by {
                        if q < r {
                            assert(!(prev[q]@ != start[q]@));
                        }
                    }
                }
            }
        }
        r = r + 1;
    }
    proof {
        assert forall|q: int| 0 <= q < start.len() implies #[trigger] start[q]@.len() >= 2 by {}
        lemma_rearranged_solution(n, ds, vehicle_capacity, start, solution@);
        assert forall|m: int| #[trigger] solution_shape(start, m) implies solution_shape(solution@, m) by {
            lemma_rearranged_solution(m, ds, vehicle_capacity, start, solution@);
        }
        assert forall|m: int| #[trigger] serves_each_once(start, m) implies serves_each_once(solution@, m) by {
            lemma_rearranged_solution(m, ds, vehicle_capacity, start, solution@);
        }
        lemma_total_path_cost_le(dm, solution@, start);
        assert forall|q: int| 0 <= q < solution@.len() implies #[trigger] solution@[q]@.len() >= 3 by {
            assert(rearranged(ds, start[q]@, solution@[q]@));
        }
    }
    improved
}

} // verus!
