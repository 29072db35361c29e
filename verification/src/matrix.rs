//! The cost matrix as a mathematical object: a square grid of edge costs in
//! which the sentinel `INF` marks a missing edge.
use vstd::prelude::*;
use crate::common::INF;

verus! {

/// What the solver asks of its input. The grid is square and small enough
/// for one machine word to hold a visited set. Every entry is the sentinel
/// or a non-negative cost, and as many finite costs as there are nodes never
/// add up to the sentinel.
pub open spec fn is_cost_matrix(g: Seq<Seq<i32>>) -> bool {
    let n = g.len();
    &&& n < usize::BITS
    &&& forall|i: int| 0 <= i < n ==> (#[trigger] g[i]).len() == n
    &&& forall|i: int, j: int| 0 <= i < n && 0 <= j < n ==> 0 <= #[trigger] g[i][j] <= INF
    &&& forall|i: int, j: int|
        0 <= i < n && 0 <= j < n && g[i][j] != INF ==> n * #[trigger] g[i][j] < INF
}

/// Whether the edge from `u` to `v` exists.
pub open spec fn has_edge(g: Seq<Seq<i32>>, u: usize, v: usize) -> bool {
    g[u as int][v as int] != INF
}

/// The cost of the edge from `u` to `v`.
pub open spec fn edge(g: Seq<Seq<i32>>, u: usize, v: usize) -> int {
    g[u as int][v as int] as int
}

/// Tests whether `graph` is a cost matrix that the solver accepts.
pub fn is_valid_cost_matrix(graph: &Vec<Vec<i32>>) -> (ok: bool)
    ensures
        ok == is_cost_matrix(graph.deep_view()),
{
    let ghost g = graph.deep_view();
    let n = graph.len();
    if n >= usize::BITS as usize {
        return false;
    }
    for i in 0..n
        invariant
            g == graph.deep_view(),
            n == graph.len(),
            n < usize::BITS,
            forall|a: int| 0 <= a < i ==> (#[trigger] g[a]).len() == n,
            forall|a: int, b: int| 0 <= a < i && 0 <= b < n ==> 0 <= #[trigger] g[a][b] <= INF,
            forall|a: int, b: int|
                0 <= a < i && 0 <= b < n && g[a][b] != INF ==> n * #[trigger] g[a][b] < INF,
    {
        assert(g[i as int].len() == graph[i as int].len());
        if graph[i].len() != n {
            return false;
        }
        for j in 0..n
            invariant
                g == graph.deep_view(),
                n == graph.len(),
                n < usize::BITS,
                i < n,
                g[i as int].len() == n,
                graph[i as int].len() == n,
                forall|b: int| 0 <= b < j ==> 0 <= #[trigger] g[i as int][b] <= INF,
                forall|b: int|
                    0 <= b < j && g[i as int][b] != INF ==> n * #[trigger] g[i as int][b] < INF,
        {
            let c = graph[i][j];
            assert(g[i as int][j as int] == c);
            if c < 0 || c > INF {
                return false;
            }
            if c != INF {
                assert(0 <= (n as i64) * (c as i64) <= 64 * 0x4000_0000) by (nonlinear_arith)
                    requires
                        0 <= n <= 64,
                        0 <= c <= 0x4000_0000,
                ;
                if (n as i64) * (c as i64) >= INF as i64 {
                    return false;
                }
            }
        }
    }
    true
}

} // verus!
