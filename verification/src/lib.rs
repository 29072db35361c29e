//! An exact solver for the travelling-salesman problem on a small directed
//! cost matrix, by dynamic programming over visited sets.
use vstd::prelude::*;

pub mod bitmask;
pub mod common;
pub mod input;
pub mod matrix;
pub mod recurrence;
pub mod solver;
pub mod theorems;
pub mod tour;

use crate::matrix::is_cost_matrix;
use crate::solver::TspSolver;
use crate::tour::{answer, held_karp, is_solution};

verus! {

/// Finds the cheapest closed tour that starts at node 0, visits every node
/// of `graph` once and returns to node 0. The result is the cost of that
/// tour and its nodes in visiting order, node 0 first and last, or `None`
/// where the graph has no such tour or no node at all. Among tours of the
/// same cost the one is returned that comes first when tours are compared
/// from their last nodes backwards; it is the tour that the recurrence
/// `held_karp` gives.
pub fn solve_tsp_dynamic_programming(graph: &Vec<Vec<i32>>) -> (result: Option<(i32, Vec<usize>)>)
    requires
        is_cost_matrix(graph.deep_view()),
    ensures
        is_solution(graph.deep_view(), 0, answer(result)),
        answer(result) == held_karp(graph.deep_view(), 0),
{
    let n = graph.len();
    if n == 0 {
        return None;
    }
    let start_node: usize = 0;
    let mut tsp_solver_instance = TspSolver::new(graph, start_node);
    tsp_solver_instance.solve()
}

} // verus!
