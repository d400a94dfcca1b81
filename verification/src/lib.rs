//! Capacitated vehicle routing by an ant colony with savings-based
//! visibility: the integer core of the solver.
//!
//! Nodes are numbered `0..n`; node `0` is the depot and `1..n` are the
//! customers. A route is a sequence of nodes that starts and ends at the
//! depot, and a solution is a sequence of routes.
use vstd::prelude::*;

pub mod cost;
pub mod solution;
pub mod three_opt;
pub mod swap;
pub mod two_opt;
pub mod ranking;
pub mod greedy;
pub mod savings;
pub mod ant;
pub mod colony;

verus! {

} // verus!
