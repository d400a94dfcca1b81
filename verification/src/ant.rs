//! One ant's walk: routes are opened at a randomly drawn unvisited customer
//! and extended, one customer at a time, by a choice among the candidates
//! that fit; a route closes at the depot when the walk stops extending it or
//! no customer is left. The probabilistic choice itself is made by the
//! caller; this module holds the state and its transitions.
use vstd::prelude::*;
use rand::Rng;
use rand::rngs::StdRng;
use crate::cost::load;
use crate::savings::covers;
use crate::solution::{
    all_customers, customers, interior, servable, nonempty_routes, route_shape, same_routes,
    serves_each_once, solution_shape, within_capacity,
};
use crate::swap::{lemma_swap_result_unique, swap_result, try_swap};
use crate::three_opt::{lemma_three_opt_result_unique, three_opt, three_opt_solution};

verus! {

/// `rand::rngs::StdRng`, the random generator the ants draw from; opaque to
/// the proofs.
#[verifier::external_type_specification]
#[verifier::external_body]
pub struct ExStdRng(StdRng);

/// `rand::Rng::gen_range` over `0..len`. Its source samples the range
/// `low..high` uniformly into `[low, high)` and panics on an empty range,
/// so the contract claims only an index below `len` (for `len > 0`); which
/// index comes out depends on the generator's state, which the call
/// advances, and is not stated.
#[verifier::external_body]
fn draw_index(rng: &mut StdRng, len: usize) -> (index: usize)
    requires
        len > 0,
    ensures
        index < len,
{
    rng.gen_range(0..len)
}

/// The state of one ant's walk over an instance with `num_nodes` nodes, a
/// vehicle capacity and demands.
pub struct AntTour {
    num_nodes: usize,
    capacity: i32,
    demands: Vec<i32>,
    routes: Vec<Vec<usize>>,
    unvisited: Vec<usize>,
    route: Vec<usize>,
    current_node: usize,
    current_capacity: i128,
}

/// The walk's state as values: the closed routes, the customers not yet
/// visited (in the order first listed), the open route (empty when none is
/// open), its last node and the capacity left on it.
pub struct AntView {
    pub num_nodes: nat,
    pub capacity: i32,
    pub demands: Seq<i32>,
    pub routes: Seq<Vec<usize>>,
    pub unvisited: Seq<usize>,
    pub route: Seq<usize>,
    pub current: usize,
    pub capacity_left: int,
}

impl View for AntTour {
    type V = AntView;

    closed spec fn view(&self) -> AntView {
        AntView {
            num_nodes: self.num_nodes as nat,
            capacity: self.capacity,
            demands: self.demands@,
            routes: self.routes@,
            unvisited: self.unvisited@,
            route: self.route@,
            current: self.current_node,
            capacity_left: self.current_capacity as int,
        }
    }
}

/// There is at least one node, and every node has a demand.
pub open spec fn demands_fit(n: int, demands: Seq<i32>) -> bool {
    &&& n >= 1
    &&& demands.len() >= n
}

/// The customers on the open route.
pub open spec fn open_customers(v: AntView) -> Seq<usize> {
    if v.route.len() >= 1 {
        v.route.subrange(1, v.route.len() as int)
    } else {
        Seq::empty()
    }
}

/// What every state of a walk satisfies: closed routes are shaped,
/// non-empty, and within capacity unless they serve a single customer (one
/// whose demand alone exceeds the capacity); the open route leaves the
/// depot, ends at the current node and has the capacity left that its
/// customers leave, which is negative only while it serves one customer;
/// and the customers of the closed routes, of the open route and the
/// unvisited ones are each customer exactly once.
pub open spec fn ant_wf(v: AntView) -> bool {
    let n = v.num_nodes as int;
    &&& v.num_nodes <= usize::MAX
    &&& demands_fit(n, v.demands)
    &&& forall|q: int| 0 <= q < v.unvisited.len() ==> 1 <= #[trigger] v.unvisited[q] < n
    &&& forall|r: int|
        0 <= r < v.routes.len() ==> route_shape(#[trigger] v.routes[r]@, n) && v.routes[r]@.len()
            >= 3 && (load(v.demands, interior(v.routes[r]@)) <= v.capacity || v.routes[r]@.len()
            == 3)
    &&& v.route.len() > 0 ==> {
        &&& v.route.len() >= 2
        &&& v.route[0] == 0
        &&& v.route[v.route.len() - 1] == v.current
        &&& forall|q: int| 1 <= q < v.route.len() ==> 1 <= #[trigger] v.route[q] < n
        &&& v.capacity_left == v.capacity - load(v.demands, open_customers(v))
        &&& 0 <= v.capacity_left || v.route.len() == 2
        &&& -(v.route.len() * 0x8000_0000) <= v.capacity_left <= v.route.len() * 0x8000_0000
    }
    &&& (customers(v.routes) + open_customers(v) + v.unvisited).to_multiset() == all_customers(n)
}

/// `after` is `before` with its open route returned to the depot and added
/// to the closed routes.
pub open spec fn closes(before: AntView, after: AntView) -> bool {
    &&& after.routes.len() == before.routes.len() + 1
    &&& forall|r: int| 0 <= r < before.routes.len() ==> #[trigger] after.routes[r] == before.routes[r]
    &&& after.routes[before.routes.len() as int]@ == before.route.push(0)
    &&& after.route.len() == 0
    &&& after.unvisited == before.unvisited
    &&& after.current == before.current
    &&& after.capacity_left == before.capacity_left
    &&& after.num_nodes == before.num_nodes
    &&& after.capacity == before.capacity
    &&& after.demands == before.demands
}

/// `after` is `before` with a route opened at `unvisited[pick]` (and closed
/// at once if no customer is left).
pub open spec fn opens(before: AntView, pick: int, after: AntView) -> bool {
    let node = before.unvisited[pick];
    let mid = AntView {
        unvisited: before.unvisited.remove(pick),
        route: seq![0, node],
        current: node,
        capacity_left: before.capacity - before.demands[node as int],
        ..before
    };
    if mid.unvisited.len() == 0 {
        closes(mid, after)
    } else {
        after == mid
    }
}

/// The customers that may follow: unvisited, other than the current node,
/// and within the capacity left, in the order of `unvisited`.
pub open spec fn candidates_of(v: AntView) -> Seq<usize> {
    v.unvisited.filter(|x: usize| x != v.current && v.capacity_left >= v.demands[x as int])
}

/// `after` is `before` extended by `next` (closing the route when no
/// customer is left), or `before` with its route closed when there is no
/// `next` or it does not fit.
pub open spec fn advances(before: AntView, next: Option<usize>, after: AntView) -> bool {
    match next {
        Some(x) => if before.capacity_left >= before.demands[x as int] {
            let mid = AntView {
                unvisited: before.unvisited.filter(|y: usize| y != x),
                route: before.route.push(x),
                current: x,
                capacity_left: before.capacity_left - before.demands[x as int],
                ..before
            };
            if mid.unvisited.len() == 0 {
                closes(mid, after)
            } else {
                after == mid
            }
        } else {
            closes(before, after)
        },
        None => closes(before, after),
    }
}

/// `solution` is what finishing a walk with the closed routes `routes`
/// gives: three-opt on every route, then the swap search between routes.
pub open spec fn finished(
    dm: Seq<Vec<i32>>,
    demands: Seq<i32>,
    capacity: i32,
    routes: Seq<Vec<usize>>,
    solution: Seq<Vec<usize>>,
) -> bool {
    exists|mid: Seq<Vec<usize>>|
        three_opt_solution(dm, demands, capacity, routes, mid) && #[trigger] swap_result(
            dm,
            demands,
            capacity,
            mid,
            solution,
        )
}

impl AntTour {
    #[verifier::type_invariant]
    spec fn well_formed(self) -> bool {
        ant_wf(self@)
    }

    /// A walk with no routes and the customers `1..num_nodes` unvisited.
    pub fn new(num_nodes: usize, vehicle_capacity: i32, demands: &Vec<i32>) -> (tour: AntTour)
        requires
            demands_fit(num_nodes as int, demands@),
        ensures
            tour@.num_nodes == num_nodes,
            tour@.capacity == vehicle_capacity,
            tour@.demands == demands@,
            tour@.routes.len() == 0,
            tour@.unvisited == Seq::new((num_nodes - 1) as nat, |i: int| (i + 1) as usize),
            tour@.route.len() == 0,
    {
        let mut unvisited: Vec<usize> = Vec::new();
        let mut x: usize = 1;
        while x < num_nodes
            invariant
                1 <= x <= num_nodes,
                unvisited@ == Seq::new((x - 1) as nat, |i: int| (i + 1) as usize),
            decreases num_nodes - x,
        {
            unvisited.push(x);
            proof {
                assert(unvisited@ =~= Seq::new(x as nat, |i: int| (i + 1) as usize));
            }
            x = x + 1;
        }
        let ghost routes = Seq::<Vec<usize>>::empty();
        proof {
            assert(customers(routes) =~= Seq::<usize>::empty());
            let v = AntView {
                num_nodes: num_nodes as nat,
                capacity: vehicle_capacity,
                demands: demands@,
                routes,
                unvisited: unvisited@,
                route: Seq::empty(),
                current: 0,
                capacity_left: 0,
            };
            assert(customers(routes) + open_customers(v) + unvisited@ =~= unvisited@);
        }
        let tour = AntTour {
            num_nodes,
            capacity: vehicle_capacity,
            demands: demands.clone(),
            routes: Vec::new(),
            unvisited,
            route: Vec::new(),
            current_node: 0,
            current_capacity: 0,
        };
        proof {
            assert(tour.demands@ =~= demands@);
            assert(tour.routes@ =~= routes);
        }
        tour
    }

    /// Some customer is still unvisited.
    pub fn has_unvisited(&self) -> (some: bool)
        ensures
            some == (self@.unvisited.len() > 0),
    {
        self.unvisited.len() > 0
    }

    /// A route is open.
    pub fn is_open(&self) -> (open: bool)
        ensures
            open == (self@.route.len() > 0),
    {
        self.route.len() > 0
    }

    /// Closes the open route at the depot.
    fn close(self) -> (next: AntTour)
        requires
            self@.route.len() > 0,
        ensures
            closes(self@, next@),
    {
        proof {
            use_type_invariant(&self);
        }
        let ghost before = self@;
        let AntTour {
            num_nodes,
            capacity,
            demands,
            mut routes,
            unvisited,
            mut route,
            current_node,
            current_capacity,
        } = self;
        route.push(0);
        routes.push(route);
        proof {
            lemma_close_wf(
                before,
                AntView {
                    routes: routes@,
                    route: Seq::empty(),
                    ..before
                },
            );
        }
        let next = AntTour {
            num_nodes,
            capacity,
            demands,
            routes,
            unvisited,
            route: Vec::new(),
            current_node,
            current_capacity,
        };
        proof {
            assert(next@.route =~= Seq::<usize>::empty());
        }
        next
    }

    /// Opens a route at the unvisited customer `unvisited[pick]`; closes it
    /// at once if that was the last unvisited customer.
    pub fn open_route(self, pick: usize) -> (next: AntTour)
        requires
            self@.route.len() == 0,
            pick < self@.unvisited.len(),
        ensures
            opens(self@, pick as int, next@),
    {
        proof {
            use_type_invariant(&self);
        }
        let ghost before = self@;
        let AntTour {
            num_nodes,
            capacity,
            demands,
            routes,
            mut unvisited,
            route,
            current_node,
            current_capacity,
        } = self;
        let node = unvisited.remove(pick);
        proof {
            assert(before.unvisited[pick as int] == node);
            assert(1 <= node < num_nodes);
        }
        let left = capacity as i128 - demands[node] as i128;
        let mut new_route: Vec<usize> = Vec::new();
        new_route.push(0);
        new_route.push(node);
        proof {
            assert(new_route@ =~= seq![0, node]);
        }
        proof {
            lemma_open_wf(
                before,
                pick as int,
                AntView {
                    unvisited: unvisited@,
                    route: new_route@,
                    current: node,
                    capacity_left: left as int,
                    ..before
                },
            );
        }
        let mid = AntTour {
            num_nodes,
            capacity,
            demands,
            routes,
            unvisited,
            route: new_route,
            current_node: node,
            current_capacity: left,
        };
        if mid.unvisited.len() == 0 {
            mid.close()
        } else {
            mid
        }
    }

    /// Opens a route at an unvisited customer drawn from `rng`.
    pub fn open_route_at_random(self, rng: &mut StdRng) -> (next: AntTour)
        requires
            self@.route.len() == 0,
            self@.unvisited.len() > 0,
        ensures
            exists|pick: int| 0 <= pick < self@.unvisited.len() && opens(self@, pick, next@),
    {
        let pick = draw_index(rng, self.unvisited.len());
        self.open_route(pick)
    }

    /// The customers that may follow the open route's last node: those
    /// unvisited, other than it, that fit in the capacity left, in order.
    pub fn candidates(&self) -> (cands: Vec<usize>)
        ensures
            cands@ == candidates_of(self@),
    {
        proof {
            use_type_invariant(self);
        }
        let ghost v = self@;
        let ghost pred = |x: usize| x != v.current && v.capacity_left >= v.demands[x as int];
        let mut cands: Vec<usize> = Vec::new();
        let mut t: usize = 0;
        while t < self.unvisited.len()
            invariant
                v == self@,
                ant_wf(v),
                0 <= t <= v.unvisited.len(),
                pred == (|x: usize| x != v.current && v.capacity_left >= v.demands[x as int]),
                cands@ == v.unvisited.take(t as int).filter(pred),
            decreases v.unvisited.len() - t,
        {
            let x = self.unvisited[t];
            proof {
                assert(v.unvisited[t as int] == x);
                assert(x < v.demands.len());
                assert(v.unvisited.take(t + 1) =~= v.unvisited.take(t as int).push(x));
                v.unvisited.take(t as int).lemma_filter_push(x, pred);
            }
            if x != self.current_node && self.current_capacity >= self.demands[x] as i128 {
                cands.push(x);
            }
            t = t + 1;
        }
        proof {
            assert(v.unvisited.take(t as int) =~= v.unvisited);
        }
        cands
    }

    /// Extends the open route by the chosen candidate `next`, or closes it
    /// when there is no choice; closes it too when no customer is left.
    pub fn advance(self, next: Option<usize>) -> (after: AntTour)
        requires
            self@.route.len() > 0,
            next matches Some(x) ==> candidates_of(self@).contains(x),
        ensures
            advances(self@, next, after@),
    {
        proof {
            use_type_invariant(&self);
        }
        let ghost before = self@;
        match next {
            Some(next_node) => {
                proof {
                    let pred = |x: usize| x != before.current && before.capacity_left >= before.demands[x as int];
                    before.unvisited.lemma_filter_contains_rev(pred, next_node);
                    assert(before.unvisited.contains(next_node));
                    let q = choose|q: int| 0 <= q < before.unvisited.len() && before.unvisited[q] == next_node;
                    assert(1 <= before.unvisited[q] < before.num_nodes);
                }
                if self.current_capacity >= self.demands[next_node] as i128 {
                    let AntTour {
                        num_nodes,
                        capacity,
                        demands,
                        routes,
                        unvisited,
                        mut route,
                        current_node,
                        current_capacity,
                    } = self;
                    proof {
                        assert(route.len() == route@.len());
                    }
                    let left = current_capacity - demands[next_node] as i128;
                    route.push(next_node);
                    let ghost pred = |y: usize| y != next_node;
                    let mut kept: Vec<usize> = Vec::new();
                    let mut t: usize = 0;
                    while t < unvisited.len()
                        invariant
                            0 <= t <= unvisited@.len(),
                            pred == (|y: usize| y != next_node),
                            kept@ == unvisited@.take(t as int).filter(pred),
                        decreases unvisited@.len() - t,
                    {
                        let x = unvisited[t];
                        proof {
                            assert(unvisited@.take(t + 1) =~= unvisited@.take(t as int).push(x));
                            unvisited@.take(t as int).lemma_filter_push(x, pred);
                        }
                        if x != next_node {
                            kept.push(x);
                        }
                        t = t + 1;
                    }
                    proof {
                        assert(unvisited@.take(t as int) =~= unvisited@);
                        lemma_advance_wf(
                            before,
                            next_node,
                            pred,
                            AntView {
                                unvisited: kept@,
                                route: route@,
                                current: next_node,
                                capacity_left: left as int,
                                ..before
                            },
                        );
                    }
                    let mid = AntTour {
                        num_nodes,
                        capacity,
                        demands,
                        routes,
                        unvisited: kept,
                        route,
                        current_node: next_node,
                        current_capacity: left,
                    };
                    if mid.unvisited.len() == 0 {
                        mid.close()
                    } else {
                        mid
                    }
                } else {
                    self.close()
                }
            },
            None => self.close(),
        }
    }

    /// The walk's routes once every customer is visited, improved by three-opt
    /// within each route and then by trading customers between routes.
    pub fn finish(self, distance_matrix: &Vec<Vec<i32>>) -> (solution: Vec<Vec<usize>>)
        requires
            self@.route.len() == 0,
            self@.unvisited.len() == 0,
            covers(distance_matrix@, self@.num_nodes as int),
        ensures
            finished(distance_matrix@, self@.demands, self@.capacity, self@.routes, solution@),
            serves_each_once(solution@, self@.num_nodes as int),
            solution_shape(solution@, self@.num_nodes as int),
            nonempty_routes(solution@),
            servable(self@.num_nodes as int, self@.capacity, self@.demands) && self@.demands[0] >= 0
                ==> within_capacity(
                solution@,
                self@.demands,
                self@.capacity,
            ),
    {
        proof {
            use_type_invariant(&self);
        }
        let ghost v = self@;
        let ghost n = v.num_nodes as int;
        let AntTour { capacity, demands, mut routes, .. } = self;
        proof {
            broadcast use vstd::seq_lib::group_to_multiset_ensures;

            assert(open_customers(v) =~= Seq::<usize>::empty());
            assert(customers(v.routes) + open_customers(v) + v.unvisited =~= customers(v.routes));
            assert(serves_each_once(v.routes, n));
            let a = Seq::new((n - 1) as nat, |i: int| (i + 1) as usize);
            assert(customers(v.routes).len() == customers(v.routes).to_multiset().len());
            assert(a.len() == a.to_multiset().len());
            assert(solution_shape(v.routes, n));
            assert(nonempty_routes(v.routes));
            if servable(n, v.capacity, v.demands) {
                assert forall|r: int| 0 <= r < v.routes.len() implies load(
                    v.demands,
                    interior(#[trigger] v.routes[r]@),
                ) <= v.capacity by {
                    let route = v.routes[r]@;
                    if route.len() == 3 {
                        let x = route[1];
                        assert(interior(route) =~= seq![x]);
                        assert(seq![x].drop_last() =~= Seq::<usize>::empty());
                        assert(1 <= x < n);
                        assert(load(v.demands, Seq::<usize>::empty()) == 0);
                        assert(load(v.demands, seq![x]) == v.demands[x as int]);
                        assert(v.demands[x as int] <= v.capacity);
                    }
                }
            }
        }
        three_opt(&mut routes, distance_matrix, &demands, capacity);
        let ghost mid = routes@;
        proof {
            assert forall|r: int| 0 <= r < mid.len() implies #[trigger] mid[r]@.len() >= 3 by {}
        }
        try_swap(&mut routes, distance_matrix, &demands, capacity);
        proof {
            assert(three_opt_solution(distance_matrix@, v.demands, v.capacity, v.routes, mid));
            assert(swap_result(distance_matrix@, v.demands, v.capacity, mid, routes@));
            assert forall|r: int| 0 <= r < routes@.len() implies #[trigger] routes@[r]@.len() >= 3 by {
                assert(routes@[r]@.len() == mid[r]@.len());
            }
        }
        routes
    }

    /// The closed routes.
    pub fn routes(&self) -> (routes: &Vec<Vec<usize>>)
        ensures
            routes@ == self@.routes,
    {
        &self.routes
    }

    /// The customers not yet visited.
    pub fn unvisited(&self) -> (unvisited: &Vec<usize>)
        ensures
            unvisited@ == self@.unvisited,
    {
        &self.unvisited
    }

    /// The open route (empty when none is open).
    pub fn route(&self) -> (route: &Vec<usize>)
        ensures
            route@ == self@.route,
    {
        &self.route
    }

    /// The last node of the open route.
    pub fn current_node(&self) -> (node: usize)
        ensures
            node == self@.current,
    {
        self.current_node
    }

    /// The capacity left on the open route.
    pub fn capacity_left(&self) -> (left: i128)
        ensures
            left == self@.capacity_left,
    {
        self.current_capacity
    }

    /// The number of customers still unvisited.
    pub fn unvisited_count(&self) -> (count: usize)
        ensures
            count == self@.unvisited.len(),
    {
        self.unvisited.len()
    }
}


/// Closing the open route keeps a walk well formed.
pub proof fn lemma_close_wf(before: AntView, after: AntView)
    requires
        ant_wf(before),
        before.route.len() > 0,
        closes(before, after),
    ensures
        ant_wf(after),
{
    let n = before.num_nodes as int;
    let l = before.routes.len() as int;
    let closed = after.routes[l]@;
    assert(after.routes.drop_last() =~= before.routes);
    assert(interior(closed) =~= open_customers(before));
    assert(customers(after.routes) == customers(before.routes) + open_customers(before));
    assert(open_customers(after) =~= Seq::<usize>::empty());
    assert(customers(after.routes) + open_customers(after) + after.unvisited =~= customers(
        before.routes,
    ) + open_customers(before) + before.unvisited);
    assert(route_shape(closed, n)) by {
        assert forall|k: int| 1 <= k < closed.len() - 1 implies 1 <= #[trigger] closed[k] < n by {
            assert(closed[k] == before.route[k]);
        }
    }
    assert forall|r: int|
        0 <= r < after.routes.len() implies route_shape(#[trigger] after.routes[r]@, n)
        && after.routes[r]@.len() >= 3 && (load(after.demands, interior(after.routes[r]@))
        <= after.capacity || after.routes[r]@.len() == 3) by {
        if r < l {
            assert(after.routes[r] == before.routes[r]);
        }
    }
}

/// Opening a route at an unvisited customer keeps a walk well formed.
pub proof fn lemma_open_wf(before: AntView, pick: int, mid: AntView)
    requires
        ant_wf(before),
        before.route.len() == 0,
        0 <= pick < before.unvisited.len(),
        mid == (AntView {
            unvisited: before.unvisited.remove(pick),
            route: seq![0, before.unvisited[pick]],
            current: before.unvisited[pick],
            capacity_left: before.capacity - before.demands[before.unvisited[pick] as int],
            ..before
        }),
    ensures
        ant_wf(mid),
{
    broadcast use vstd::seq_lib::lemma_multiset_commutative;
    broadcast use vstd::seq_lib::group_to_multiset_ensures;
    broadcast use vstd::multiset::group_multiset_axioms;

    let n = before.num_nodes as int;
    let node = before.unvisited[pick];
    assert(1 <= node < n);
    assert(open_customers(mid) =~= seq![node]);
    assert(open_customers(before) =~= Seq::<usize>::empty());
    assert(seq![node].drop_last() =~= Seq::<usize>::empty());
    assert(load(before.demands, Seq::<usize>::empty()) == 0);
    assert(load(before.demands, seq![node]) == before.demands[node as int]);
    let c = customers(before.routes);
    let u = before.unvisited;
    assert(c + open_customers(before) + u =~= c + u);
    assert((c + seq![node] + u.remove(pick)).to_multiset() =~= (c + u).to_multiset());
    assert forall|q: int| 0 <= q < mid.unvisited.len() implies 1 <= #[trigger] mid.unvisited[q] < n by {
        if q < pick {
            assert(mid.unvisited[q] == u[q]);
        } else {
            assert(mid.unvisited[q] == u[q + 1]);
        }
    }
}

/// Extending the open route by a candidate keeps a walk well formed.
pub proof fn lemma_advance_wf(before: AntView, x: usize, pred: spec_fn(usize) -> bool, mid: AntView)
    requires
        ant_wf(before),
        before.route.len() > 0,
        candidates_of(before).contains(x),
        pred == (|y: usize| y != x),
        mid == (AntView {
            unvisited: before.unvisited.filter(pred),
            route: before.route.push(x),
            current: x,
            capacity_left: before.capacity_left - before.demands[x as int],
            ..before
        }),
    ensures
        ant_wf(mid),
{
    broadcast use vstd::seq_lib::lemma_multiset_commutative;
    broadcast use vstd::seq_lib::group_to_multiset_ensures;
    broadcast use vstd::multiset::group_multiset_axioms;

    let n = before.num_nodes as int;
    let u = before.unvisited;
    let c = customers(before.routes);
    let o = open_customers(before);
    let cpred = |y: usize| y != before.current && before.capacity_left >= before.demands[y as int];
    u.lemma_filter_contains_rev(cpred, x);
    assert(u.contains(x));
    assert(x != before.current);
    assert(before.capacity_left >= before.demands[x as int]);
    let q0 = choose|q: int| 0 <= q < u.len() && u[q] == x;
    assert(1 <= x < n);
    lemma_filter_out(u, x, pred);
    // x occurs once among all customers, hence once in `u`.
    let whole = c + o + u;
    assert(whole.to_multiset() == all_customers(n));
    lemma_all_customers_once(n, x);
    assert(whole.to_multiset().count(x) == (c + o).to_multiset().count(x) + u.to_multiset().count(x));
    assert(u.to_multiset().count(x) >= 1);
    assert(u.to_multiset().count(x) == 1);
    assert(open_customers(mid) =~= o.push(x));
    assert(o.push(x).drop_last() =~= o);
    assert((c + o.push(x) + mid.unvisited).to_multiset() =~= whole.to_multiset()) by {
        assert forall|y: usize| (c + o.push(x) + mid.unvisited).to_multiset().count(y) == whole.to_multiset().count(y) by {
            assert((c + o.push(x) + mid.unvisited).to_multiset() == c.to_multiset().add(o.to_multiset().insert(x)).add(mid.unvisited.to_multiset()));
            assert(whole.to_multiset() == c.to_multiset().add(o.to_multiset()).add(u.to_multiset()));
        }
    }
    assert forall|q: int| 0 <= q < mid.unvisited.len() implies 1 <= #[trigger] mid.unvisited[q] < n by {
        let y = mid.unvisited[q];
        assert(u.filter(pred)[q] == y);
        assert(u.filter(pred).contains(y));
        u.lemma_filter_contains_rev(pred, y);
        let q2 = choose|q2: int| 0 <= q2 < u.len() && u[q2] == y;
        assert(1 <= u[q2] < n);
    }
    assert forall|q: int| 1 <= q < mid.route.len() implies 1 <= #[trigger] mid.route[q] < n by {
        if q < before.route.len() {
            assert(mid.route[q] == before.route[q]);
        }
    }
}

/// Removing every occurrence of `x` removes `x` from the multiset and keeps
/// the rest.
pub proof fn lemma_filter_out(s: Seq<usize>, x: usize, pred: spec_fn(usize) -> bool)
    requires
        pred == (|y: usize| y != x),
    ensures
        forall|y: usize|
            #[trigger] s.filter(pred).to_multiset().count(y) == if y == x {
                0
            } else {
                s.to_multiset().count(y)
            },
    decreases s.len(),
{
    broadcast use vstd::seq_lib::group_to_multiset_ensures;
    broadcast use vstd::multiset::group_multiset_axioms;

    if s.len() == 0 {
        reveal_with_fuel(Seq::filter, 1);
        assert(s.filter(pred) =~= s);
    } else {
        let p = s.drop_last();
        lemma_filter_out(p, x, pred);
        assert(s =~= p.push(s.last()));
        p.lemma_filter_push(s.last(), pred);
    }
}

/// Every customer occurs once in `all_customers(n)`, and nothing else does.
pub proof fn lemma_all_customers_once(n: int, x: usize)
    requires
        1 <= n <= usize::MAX,
    ensures
        1 <= x < n ==> all_customers(n).count(x) == 1,
        !(1 <= x < n) ==> all_customers(n).count(x) == 0,
{
    broadcast use vstd::seq_lib::group_to_multiset_ensures;

    let a = Seq::new((n - 1) as nat, |i: int| (i + 1) as usize);
    assert forall|i: int, j: int| 0 <= i < a.len() && 0 <= j < a.len() && i != j implies a[i] != a[j] by {
        assert(a[i] == i + 1);
        assert(a[j] == j + 1);
    }
    assert(a.no_duplicates());
    a.lemma_multiset_has_no_duplicates();
    if 1 <= x < n {
        assert(a[x - 1] == x);
        assert(a.contains(x));
    } else {
        if a.contains(x) {
            let q = choose|q: int| 0 <= q < a.len() && a[q] == x;
            assert(a[q] == q + 1);
        }
    }
}

/// Finishing a walk depends on its closed routes alone: walks with the same
/// routes finish with the same routes.
pub proof fn lemma_finished_unique(
    dm: Seq<Vec<i32>>,
    demands: Seq<i32>,
    capacity: i32,
    routes1: Seq<Vec<usize>>,
    routes2: Seq<Vec<usize>>,
    solution1: Seq<Vec<usize>>,
    solution2: Seq<Vec<usize>>,
)
    requires
        same_routes(routes1, routes2),
        finished(dm, demands, capacity, routes1, solution1),
        finished(dm, demands, capacity, routes2, solution2),
    ensures
        same_routes(solution1, solution2),
{
    let m1 = choose|mid: Seq<Vec<usize>>|
        three_opt_solution(dm, demands, capacity, routes1, mid) && #[trigger] swap_result(
            dm,
            demands,
            capacity,
            mid,
            solution1,
        );
    let m2 = choose|mid: Seq<Vec<usize>>|
        three_opt_solution(dm, demands, capacity, routes2, mid) && #[trigger] swap_result(
            dm,
            demands,
            capacity,
            mid,
            solution2,
        );
    assert forall|r: int| 0 <= r < m1.len() implies #[trigger] m1[r]@ == m2[r]@ by {
        assert(routes1[r]@ == routes2[r]@);
        lemma_three_opt_result_unique(dm, demands, capacity, routes1[r]@, m1[r]@, m2[r]@);
    }
    lemma_swap_result_unique(dm, demands, capacity, m1, m2, solution1, solution2);
}

} // verus!
