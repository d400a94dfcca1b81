# aco_sbas

A capacitated vehicle-routing solver by an ant colony with savings-based
visibility, whose integer core is verified with Verus.

Node `0` is the depot, nodes `1..n` are customers; a route leaves the depot,
serves customers and returns; a solution is a list of routes.

## Layout

- `src/` — the verified library.
  - `cost.rs`: route distance, route demand, the rating of a solution (also
    in checked forms that refuse exactly what would overflow or leave the
    matrix), and the laws that the rating equals the total distance on
    symmetric instances and adds over lists of routes.
  - `solution.rs`: the shape of solutions, their customers, capacity.
  - `greedy.rs`: the nearest-neighbour construction, with and without
    candidate lists, a form that reports when it would never end, and the
    law that both give the same solution.
  - `ranking.rs`: the `k` smallest entries of a row, ties by position.
  - `savings.rs`: the savings matrix.
  - `three_opt.rs`, `two_opt.rs`, `swap.rs`: the local searches, each with
    an exact description of its result and the laws that the result is
    unique and that searching again changes nothing.
  - `ant.rs`: one ant's walk as a state machine (open a route, list the
    candidates, extend or close, finish), with the random choice of the
    first customer of a route.
  - `colony.rs`: ranking of an iteration's solutions, the best solution so
    far, the edges that receive pheromone, and the stopping rule.
- `tests/` — tests on small instances.
- `app/` — the driver: the floating-point pheromone matrix, the weighted
  draw of each ant's next customer, and the colony's main loop.
