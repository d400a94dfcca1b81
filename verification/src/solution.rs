//! The shape of routes and solutions, the customers a solution serves, and
//! their feasibility.
use vstd::prelude::*;
use vstd::multiset::Multiset;
use crate::cost::{lemma_load_concat, load, nodes_below, path_cost, total_path_cost};

verus! {

/// The nodes of a route strictly between its first and its last node.
pub open spec fn interior(route: Seq<usize>) -> Seq<usize> {
    if route.len() >= 2 {
        route.subrange(1, route.len() - 1)
    } else {
        Seq::empty()
    }
}

/// The customers of a solution, route after route, in visiting order.
pub open spec fn customers(sol: Seq<Vec<usize>>) -> Seq<usize>
    decreases sol.len(),
{
    if sol.len() == 0 {
        Seq::empty()
    } else {
        customers(sol.drop_last()) + interior(sol.last()@)
    }
}

/// A route leaves the depot, visits customers (nodes `1..n`) and returns to
/// the depot.
pub open spec fn route_shape(route: Seq<usize>, n: int) -> bool {
    &&& route.len() >= 2
    &&& route[0] == 0
    &&& route[route.len() - 1] == 0
    &&& forall|k: int| 1 <= k < route.len() - 1 ==> 1 <= #[trigger] route[k] < n
}

/// Every route has its shape, and the solution visits at most `n - 1`
/// customers in all.
pub open spec fn solution_shape(sol: Seq<Vec<usize>>, n: int) -> bool {
    &&& n >= 1
    &&& forall|r: int| 0 <= r < sol.len() ==> route_shape(#[trigger] sol[r]@, n)
    &&& customers(sol).len() <= n - 1
}

/// Every route visits at least one customer.
pub open spec fn nonempty_routes(sol: Seq<Vec<usize>>) -> bool {
    forall|r: int| 0 <= r < sol.len() ==> #[trigger] sol[r]@.len() >= 3
}

/// The customers `1..n`, each once.
pub open spec fn all_customers(n: int) -> Multiset<usize> {
    Seq::new((n - 1) as nat, |i: int| (i + 1) as usize).to_multiset()
}

/// The solution visits every customer exactly once.
pub open spec fn serves_each_once(sol: Seq<Vec<usize>>, n: int) -> bool {
    customers(sol).to_multiset() == all_customers(n)
}

/// The customers of every route demand at most the vehicle capacity.
pub open spec fn within_capacity(sol: Seq<Vec<usize>>, demands: Seq<i32>, capacity: i32) -> bool {
    forall|r: int| 0 <= r < sol.len() ==> load(demands, interior(#[trigger] sol[r]@)) <= capacity
}

/// Every customer's demand is within the capacity, so that a vehicle can
/// serve it.
pub open spec fn servable(n: int, capacity: i32, demands: Seq<i32>) -> bool {
    forall|i: int| 1 <= i < n ==> #[trigger] demands[i] <= capacity
}

/// The first and the last node of every route have a non-negative demand.
pub open spec fn ends_nonnegative(demands: Seq<i32>, sol: Seq<Vec<usize>>) -> bool {
    forall|r: int|
        0 <= r < sol.len() && (#[trigger] sol[r])@.len() >= 1 ==> demands[sol[r]@[0] as int] >= 0
            && demands[sol[r]@[sol[r]@.len() - 1] as int] >= 0
}

/// The load of a route is the demand of its two ends plus that of its
/// customers.
pub proof fn lemma_load_split(demands: Seq<i32>, route: Seq<usize>)
    requires
        route.len() >= 2,
    ensures
        load(demands, route) == demands[route[0] as int] + load(demands, interior(route))
            + demands[route[route.len() - 1] as int],
{
    let l = route.len() as int;
    assert(route =~= seq![route[0]] + interior(route) + seq![route[l - 1]]);
    lemma_load_concat(demands, seq![route[0]], interior(route));
    lemma_load_concat(demands, seq![route[0]] + interior(route), seq![route[l - 1]]);
    assert(seq![route[0]].drop_last() =~= Seq::<usize>::empty());
    assert(seq![route[l - 1]].drop_last() =~= Seq::<usize>::empty());
    assert(load(demands, Seq::<usize>::empty()) == 0);
}

/// `a` holds the same routes as `b`.
pub open spec fn same_routes(a: Seq<Vec<usize>>, b: Seq<Vec<usize>>) -> bool {
    &&& a.len() == b.len()
    &&& forall|r: int| 0 <= r < a.len() ==> #[trigger] a[r]@ == b[r]@
}

/// Solutions with the same routes have the same customers.
pub proof fn lemma_customers_same(a: Seq<Vec<usize>>, b: Seq<Vec<usize>>)
    requires
        same_routes(a, b),
    ensures
        customers(a) == customers(b),
    decreases a.len(),
{
    if a.len() > 0 {
        let pa = a.drop_last();
        let pb = b.drop_last();
        assert forall|r: int| 0 <= r < pa.len() implies #[trigger] pa[r]@ == pb[r]@ by {
            assert(pa[r] == a[r] && pb[r] == b[r]);
        }
        lemma_customers_same(pa, pb);
        assert(a.last()@ == b.last()@) by {
            assert(a[a.len() - 1]@ == b[a.len() - 1]@);
        }
    }
}

/// A route's customers are among the solution's customers.
pub proof fn lemma_interior_len(sol: Seq<Vec<usize>>, r: int)
    requires
        0 <= r < sol.len(),
    ensures
        interior(sol[r]@).len() <= customers(sol).len(),
    decreases sol.len(),
{
    if r < sol.len() - 1 {
        lemma_interior_len(sol.drop_last(), r);
        assert(sol.drop_last()[r] == sol[r]);
    }
}

/// A prefix of a solution serves no more customers than the solution.
pub proof fn lemma_customers_prefix(sol: Seq<Vec<usize>>, t: int)
    requires
        0 <= t <= sol.len(),
    ensures
        customers(sol.take(t)).len() <= customers(sol).len(),
    decreases sol.len(),
{
    if t == sol.len() {
        assert(sol.take(t) =~= sol);
    } else {
        lemma_customers_prefix(sol.drop_last(), t);
        assert(sol.drop_last().take(t) =~= sol.take(t));
    }
}

/// The routes of a shaped solution have at most `n + 1` nodes, all below `n`.
pub proof fn lemma_route_of_shape(sol: Seq<Vec<usize>>, n: int, r: int)
    requires
        solution_shape(sol, n),
        0 <= r < sol.len(),
    ensures
        sol[r]@.len() <= n + 1,
        nodes_below(sol[r]@, n),
{
    lemma_interior_len(sol, r);
    let route = sol[r]@;
    assert(route_shape(route, n));
    assert(interior(route).len() == route.len() - 2);
    assert forall|k: int| 0 <= k < route.len() implies #[trigger] route[k] < n by {
        if 1 <= k < route.len() - 1 {
        } else {
        }
    }
}

/// A copy of a solution.
pub fn clone_routes(routes: &Vec<Vec<usize>>) -> (copy: Vec<Vec<usize>>)
    ensures
        copy@.len() == routes@.len(),
        forall|r: int| 0 <= r < routes@.len() ==> #[trigger] copy@[r]@ == routes@[r]@,
{
    let mut copy: Vec<Vec<usize>> = Vec::new();
    let mut r: usize = 0;
    while r < routes.len()
        invariant
            0 <= r <= routes@.len(),
            copy@.len() == r,
            forall|q: int| 0 <= q < r ==> #[trigger] copy@[q]@ == routes@[q]@,
        decreases routes@.len() - r,
    {
        let route = routes[r].clone();
        proof {
            assert(route@ =~= routes@[r as int]@);
        }
        copy.push(route);
        r = r + 1;
    }
    copy
}


/// `after` rearranges `before`: same length, same nodes, same first and last
/// node, same load.
pub open spec fn rearranged(demands: Seq<i32>, before: Seq<usize>, after: Seq<usize>) -> bool {
    &&& after.len() == before.len()
    &&& after.to_multiset() == before.to_multiset()
    &&& after.len() >= 1 ==> after[0] == before[0] && after[after.len() - 1] == before[before.len()
        - 1]
    &&& load(demands, after) == load(demands, before)
}

/// A rearranged route has the same customers, as a multiset.
pub proof fn lemma_rearranged_interior(demands: Seq<i32>, before: Seq<usize>, after: Seq<usize>)
    requires
        rearranged(demands, before, after),
        before.len() >= 2,
    ensures
        interior(after).to_multiset() == interior(before).to_multiset(),
{
    broadcast use vstd::seq_lib::lemma_multiset_commutative;
    broadcast use vstd::multiset::group_multiset_axioms;

    let l = before.len() as int;
    assert(before =~= seq![before[0]] + interior(before) + seq![before[l - 1]]);
    assert(after =~= seq![after[0]] + interior(after) + seq![after[l - 1]]);
    let a = interior(after).to_multiset();
    let b = interior(before).to_multiset();
    let ma = (seq![after[0]] + interior(after) + seq![after[l - 1]]).to_multiset();
    let mb = (seq![before[0]] + interior(before) + seq![before[l - 1]]).to_multiset();
    assert(ma == mb);
    assert(ma == seq![after[0]].to_multiset().add(a).add(seq![after[l - 1]].to_multiset()));
    assert(mb == seq![before[0]].to_multiset().add(b).add(seq![before[l - 1]].to_multiset()));
    assert forall|x: usize| a.count(x) == b.count(x) by {
        assert(ma.count(x) == mb.count(x));
    }
    assert(a =~= b);
}

/// Rearranging every route of a solution keeps the shape of its routes, its
/// non-empty routes, its customers (as a multiset) and its feasibility.
pub proof fn lemma_rearranged_solution(
    n: int,
    demands: Seq<i32>,
    capacity: i32,
    before: Seq<Vec<usize>>,
    after: Seq<Vec<usize>>,
)
    requires
        after.len() == before.len(),
        forall|r: int| 0 <= r < before.len() ==> rearranged(demands, before[r]@, #[trigger] after[r]@),
        forall|r: int| 0 <= r < before.len() ==> #[trigger] before[r]@.len() >= 2,
    ensures
        customers(after).to_multiset() == customers(before).to_multiset(),
        customers(after).len() == customers(before).len(),
        forall|r: int|
            0 <= r < after.len() && route_shape(before[r]@, n) ==> route_shape(#[trigger] after[r]@, n),
        solution_shape(before, n) ==> solution_shape(after, n),
        nonempty_routes(before) ==> nonempty_routes(after),
        within_capacity(before, demands, capacity) ==> within_capacity(after, demands, capacity),
        serves_each_once(before, n) ==> serves_each_once(after, n),
    decreases before.len(),
{
    broadcast use vstd::seq_lib::lemma_multiset_commutative;
    broadcast use vstd::seq_lib::group_to_multiset_ensures;

    assert forall|r: int| 0 <= r < after.len() && route_shape(before[r]@, n) implies route_shape(
        #[trigger] after[r]@,
        n,
    ) by {
        let b = before[r]@;
        let a = after[r]@;
        assert(rearranged(demands, b, a));
        lemma_rearranged_interior(demands, b, a);
        assert forall|k: int| 1 <= k < a.len() - 1 implies 1 <= #[trigger] a[k] < n by {
            let x = a[k];
            assert(interior(a)[k - 1] == x);
            assert(interior(a).contains(x));
            assert(interior(a).to_multiset().count(x) > 0);
            assert(interior(b).to_multiset().count(x) > 0);
            assert(interior(b).contains(x));
            let q = choose|q: int| 0 <= q < interior(b).len() && interior(b)[q] == x;
            assert(b[q + 1] == x);
        }
    }
    if before.len() > 0 {
        let pb = before.drop_last();
        let pa = after.drop_last();
        assert forall|r: int| 0 <= r < pb.len() implies rearranged(demands, pb[r]@, #[trigger] pa[r]@) by {
            assert(pb[r] == before[r] && pa[r] == after[r]);
        }
        assert forall|r: int| 0 <= r < pb.len() implies #[trigger] pb[r]@.len() >= 2 by {
            assert(pb[r] == before[r]);
        }
        lemma_rearranged_solution(n, demands, capacity, pb, pa);
        let l = before.len() - 1;
        assert(before.last() == before[l] && after.last() == after[l]);
        assert(before[l]@.len() >= 2);
        lemma_rearranged_interior(demands, before[l]@, after[l]@);
        assert(customers(after) == customers(pa) + interior(after[l]@));
        assert(customers(before) == customers(pb) + interior(before[l]@));
    }
    if solution_shape(before, n) {
        assert forall|r: int| 0 <= r < after.len() implies route_shape(#[trigger] after[r]@, n) by {
            assert(route_shape(before[r]@, n));
        }
    }
    if nonempty_routes(before) {
        assert forall|r: int| 0 <= r < after.len() implies #[trigger] after[r]@.len() >= 3 by {
            assert(rearranged(demands, before[r]@, after[r]@));
            assert(before[r]@.len() >= 3);
        }
    }
    if within_capacity(before, demands, capacity) {
        assert forall|r: int| 0 <= r < after.len() implies load(demands, interior(#[trigger] after[r]@))
            <= capacity by {
            assert(rearranged(demands, before[r]@, after[r]@));
            assert(load(demands, interior(before[r]@)) <= capacity);
            assert(before[r]@.len() >= 2);
            lemma_load_split(demands, before[r]@);
            lemma_load_split(demands, after[r]@);
        }
    }
}


/// Routes no longer one by one make a solution no longer in total.
pub proof fn lemma_total_path_cost_le(dm: Seq<Vec<i32>>, a: Seq<Vec<usize>>, b: Seq<Vec<usize>>)
    requires
        a.len() == b.len(),
        forall|r: int| 0 <= r < a.len() ==> path_cost(dm, #[trigger] a[r]@) <= path_cost(dm, b[r]@),
    ensures
        total_path_cost(dm, a) <= total_path_cost(dm, b),
    decreases a.len(),
{
    if a.len() > 0 {
        let pa = a.drop_last();
        let pb = b.drop_last();
        assert forall|r: int| 0 <= r < pa.len() implies path_cost(dm, #[trigger] pa[r]@) <= path_cost(dm, pb[r]@) by {
            assert(pa[r] == a[r] && pb[r] == b[r]);
        }
        lemma_total_path_cost_le(dm, pa, pb);
        assert(path_cost(dm, a[a.len() - 1]@) <= path_cost(dm, b[a.len() - 1]@));
    }
}


/// A solution whose customers are distinct, all in `1..n`, and include every
/// customer serves each customer exactly once.
pub proof fn lemma_serves_each_once(sol: Seq<Vec<usize>>, n: int)
    requires
        1 <= n <= usize::MAX,
        customers(sol).no_duplicates(),
        forall|q: int| 0 <= q < customers(sol).len() ==> 1 <= #[trigger] customers(sol)[q] < n,
        forall|x: usize| 1 <= x < n ==> #[trigger] customers(sol).contains(x),
    ensures
        serves_each_once(sol, n),
        customers(sol).len() == n - 1,
{
    broadcast use vstd::seq_lib::group_to_multiset_ensures;

    let c = customers(sol);
    let a = Seq::new((n - 1) as nat, |i: int| (i + 1) as usize);
    assert forall|i: int, j: int| 0 <= i < a.len() && 0 <= j < a.len() && i != j implies a[i] != a[j] by {
        assert(a[i] == i + 1);
        assert(a[j] == j + 1);
    }
    assert(a.no_duplicates());
    c.lemma_multiset_has_no_duplicates();
    a.lemma_multiset_has_no_duplicates();
    assert forall|z: usize| c.to_multiset().count(z) == a.to_multiset().count(z) by {
        if 1 <= z < n {
            assert(c.contains(z));
            assert(a[z - 1] == z);
            assert(a.contains(z));
            assert(c.to_multiset().contains(z));
            assert(a.to_multiset().contains(z));
        } else {
            if c.contains(z) {
                let q = choose|q: int| 0 <= q < c.len() && c[q] == z;
                assert(1 <= c[q] < n);
            }
            if a.contains(z) {
                let q = choose|q: int| 0 <= q < a.len() && a[q] == z;
            }
        }
    }
    assert(c.to_multiset() =~= a.to_multiset());
    assert(c.len() == c.to_multiset().len());
    assert(a.len() == a.to_multiset().len());
}

} // verus!
