//! Consequences of the solver's contract for particular kinds of graphs.
use vstd::prelude::*;
use crate::matrix::{edge, has_edge, is_cost_matrix};
use crate::tour::{
    answer,
    held_karp,
    is_path,
    is_solution,
    is_tour,
    lemma_held_karp_optimal,
    lemma_solution_is_unique,
    path_cost,
};

verus! {

/// A walk along edges of `g`, which may visit a node more than once.
pub open spec fn is_walk(g: Seq<Seq<i32>>, w: Seq<usize>) -> bool {
    &&& w.len() >= 1
    &&& forall|k: int| 0 <= k < w.len() ==> #[trigger] w[k] < g.len()
    &&& forall|k: int| 0 <= k < w.len() - 1 ==> has_edge(g, #[trigger] w[k], w[k + 1])
}

/// Whether some walk leads from `s` to `v`.
pub open spec fn reachable(g: Seq<Seq<i32>>, s: usize, v: usize) -> bool {
    exists|w: Seq<usize>| #[trigger] is_walk(g, w) && w[0] == s && w.last() == v
}

/// The tour that starts in `s` and then takes the other nodes in increasing
/// order.
pub open spec fn plain_tour(n: nat, s: usize) -> Seq<usize> {
    Seq::new(
        n + 1,
        |k: int|
            if k == 0 || k == n {
                s
            } else if k <= s {
                (k - 1) as usize
            } else {
                k as usize
            },
    )
}

/// In a graph that has every edge between two different nodes (and, where
/// it has one node only, the edge from that node to itself) the solver
/// finds a tour, and the cost it returns is the sum of the costs along the
/// tour it returns.
pub proof fn lemma_complete_graph_is_solved(g: Seq<Seq<i32>>, s: usize)
    requires
        is_cost_matrix(g),
        s < g.len(),
        forall|i: usize, j: usize| i < g.len() && j < g.len() && i != j ==> has_edge(g, i, j),
        g.len() == 1 ==> has_edge(g, 0, 0),
    ensures
        match held_karp(g, s) {
            Some((cost, t)) => is_tour(g, s, t) && cost == path_cost(g, t),
            None => false,
        },
{
    let n = g.len();
    let t = plain_tour(n, s);
    let p = t.take(n as int);
    assert forall|k: int| 0 <= k < p.len() - 1 implies has_edge(g, #[trigger] p[k], p[k + 1]) by {
        assert(p[k] != p[k + 1]);
    }
    assert(is_path(g, s, p));
    assert(is_tour(g, s, t));
    lemma_held_karp_optimal(g, s);
}

/// Where no edge leaves the start node, the solver returns nothing.
pub proof fn lemma_isolated_start_is_unsolved(g: Seq<Seq<i32>>, s: usize)
    requires
        is_cost_matrix(g),
        s < g.len(),
        forall|j: usize| j < g.len() ==> !has_edge(g, s, j),
    ensures
        held_karp(g, s) is None,
{
    let n = g.len() as int;
    lemma_held_karp_optimal(g, s);
    if held_karp(g, s) is Some {
        let t = held_karp(g, s).unwrap().1;
        let p = t.take(n);
        assert(p[0] == s);
        if n == 1 {
            assert(t[n - 1] == p[0]);
            assert(has_edge(g, s, s));
        } else {
            assert(has_edge(g, p[0int], p[0int + 1]));
            assert(p[1] < n);
        }
        assert(false);
    }
}

/// Where some node cannot be reached from the start node by any walk, the
/// solver returns nothing.
pub proof fn lemma_unreachable_node_is_unsolved(g: Seq<Seq<i32>>, s: usize, v: usize)
    requires
        is_cost_matrix(g),
        s < g.len(),
        v < g.len(),
        !reachable(g, s, v),
    ensures
        held_karp(g, s) is None,
{
    let n = g.len() as int;
    lemma_held_karp_optimal(g, s);
    if held_karp(g, s) is Some {
        let t = held_karp(g, s).unwrap().1;
        let p = t.take(n);
        assert(p.contains(v));
        let k = choose|k: int| 0 <= k < p.len() && p[k] == v;
        let w = p.take(k + 1);
        assert forall|j: int| 0 <= j < w.len() implies #[trigger] w[j] < g.len() by {
            assert(w[j] == p[j]);
        }
        assert forall|j: int| 0 <= j < w.len() - 1 implies has_edge(g, #[trigger] w[j], w[j + 1]) by {
            assert(w[j] == p[j] && w[j + 1] == p[j + 1]);
            assert(has_edge(g, p[j], p[j + 1]));
        }
        assert(is_walk(g, w) && w[0] == s && w.last() == v);
        assert(false);
    }
}

/// On a graph of one node whose edge to itself exists, the solver returns
/// the tour from that node to itself, at the cost of that edge: at cost 0
/// where the entry is 0.
pub proof fn lemma_single_node_is_solved(g: Seq<Seq<i32>>)
    requires
        is_cost_matrix(g),
        g.len() == 1,
        has_edge(g, 0, 0),
    ensures
        held_karp(g, 0) == Some((edge(g, 0, 0), seq![0usize, 0usize])),
{
    let w = seq![0usize, 0usize];
    assert(w.take(1) =~= seq![0usize]);
    assert(is_path(g, 0, w.take(1)));
    assert(is_tour(g, 0, w));
    lemma_held_karp_optimal(g, 0);
    let t = held_karp(g, 0).unwrap().1;
    assert(t.take(1)[0] == 0);
    assert(t =~= w);
    assert(w.drop_last() =~= seq![0usize]);
    assert(path_cost(g, w.drop_last()) == 0);
    assert(path_cost(g, w) == edge(g, 0, 0));
}

/// Two runs of the solver on one matrix with one start node return the
/// same cost and the same tour, or nothing both times: the contract of the
/// solver leaves no choice.
pub proof fn lemma_solving_twice_agrees(
    g: Seq<Seq<i32>>,
    s: usize,
    first: Option<(i32, Vec<usize>)>,
    second: Option<(i32, Vec<usize>)>,
)
    requires
        is_solution(g, s, answer(first)),
        is_solution(g, s, answer(second)),
    ensures
        match (first, second) {
            (Some((cost, path)), Some((again, same))) => cost == again && path@ == same@,
            (None, None) => true,
            _ => false,
        },
{
    lemma_solution_is_unique(g, s, answer(first), answer(second));
}

} // verus!
