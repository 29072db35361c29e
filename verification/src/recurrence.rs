//! The Held-Karp recurrence. A state is a visited set together with the
//! node that was visited last; its value is the least cost of getting there
//! from the start node, one edge at a time, or `INF` where that is
//! impossible.
use vstd::prelude::*;
use crate::bitmask::{bit, has_bit, lemma_empty_mask, lemma_remove_present};
use crate::common::INF;
use crate::matrix::{edge, has_edge, is_cost_matrix};

verus! {

/// The value of a state before any edge is taken: the walk that consists of
/// the start node alone costs nothing, and nothing else has been reached.
pub open spec fn start_cost(s: usize, mask: usize, v: usize) -> int {
    if mask == bit(s) && v == s {
        0
    } else {
        INF as int
    }
}

/// The least cost of reaching `(mask, v)` when the node before `v` is one
/// of `0, .., k - 1`.
pub open spec fn best_among(g: Seq<Seq<i32>>, s: usize, mask: usize, v: usize, k: nat) -> int
    decreases mask, k,
{
    if k == 0 {
        start_cost(s, mask, v)
    } else {
        let rest = best_among(g, s, mask, v, (k - 1) as nat);
        let c = cost_via(g, s, mask, v, (k - 1) as usize);
        if c < rest {
            c
        } else {
            rest
        }
    }
}

/// The cost of reaching `(mask, v)` by the edge from `u`, after the best
/// way of visiting the other nodes of `mask` and ending in `u`; `INF` where
/// there is no such way.
pub open spec fn cost_via(g: Seq<Seq<i32>>, s: usize, mask: usize, v: usize, u: usize) -> int
    decreases mask, 0nat,
{
    let rest = mask ^ bit(v);
    if v < usize::BITS && has_bit(mask, v) && has_bit(rest, u) && has_edge(g, u, v) {
        proof {
            lemma_remove_present(mask, v);
        }
        let d = best_among(g, s, rest, u, g.len());
        if d != INF {
            d + edge(g, u, v)
        } else {
            INF as int
        }
    } else {
        INF as int
    }
}

/// The least cost of a walk that starts in `s`, visits exactly the nodes of
/// `mask`, each once, and ends in `v`; `INF` where there is none.
pub open spec fn best_cost(g: Seq<Seq<i32>>, s: usize, mask: usize, v: usize) -> int {
    if has_bit(mask, v) {
        best_among(g, s, mask, v, g.len())
    } else {
        INF as int
    }
}

/// The first node among `0, .., k - 1` through which `best_among` is
/// attained; 0 where no node improves on the starting value.
pub open spec fn best_pred_among(
    g: Seq<Seq<i32>>,
    s: usize,
    mask: usize,
    v: usize,
    k: nat,
) -> usize
    decreases k,
{
    if k == 0 {
        0
    } else if cost_via(g, s, mask, v, (k - 1) as usize) < best_among(
        g,
        s,
        mask,
        v,
        (k - 1) as nat,
    ) {
        (k - 1) as usize
    } else {
        best_pred_among(g, s, mask, v, (k - 1) as nat)
    }
}

/// The node before `v` on the best walk for `(mask, v)`.
pub open spec fn best_pred(g: Seq<Seq<i32>>, s: usize, mask: usize, v: usize) -> usize {
    if has_bit(mask, v) {
        best_pred_among(g, s, mask, v, g.len())
    } else {
        0
    }
}

/// Whether the best walk for the other nodes of `mask` that ends in `u` can
/// be extended by the edge from `u` to `v`.
pub open spec fn extends(g: Seq<Seq<i32>>, s: usize, mask: usize, v: usize, u: usize) -> bool {
    &&& v < usize::BITS
    &&& has_bit(mask, v)
    &&& has_bit(mask ^ bit(v), u)
    &&& has_edge(g, u, v)
    &&& best_cost(g, s, mask ^ bit(v), u) != INF
}

/// `cost_via` is the cost of the extended walk where the walk can be
/// extended, and `INF` elsewhere.
pub proof fn lemma_cost_via(g: Seq<Seq<i32>>, s: usize, mask: usize, v: usize, u: usize)
    ensures
        extends(g, s, mask, v, u) ==> cost_via(g, s, mask, v, u) == best_cost(
            g,
            s,
            mask ^ bit(v),
            u,
        ) + edge(g, u, v),
        !extends(g, s, mask, v, u) ==> cost_via(g, s, mask, v, u) == INF,
{
}

/// Values of the recurrence lie between 0 and `INF`.
pub proof fn lemma_best_among_range(g: Seq<Seq<i32>>, s: usize, mask: usize, v: usize, k: nat)
    requires
        is_cost_matrix(g),
        v < g.len(),
        k <= g.len(),
    ensures
        0 <= best_among(g, s, mask, v, k) <= INF,
    decreases mask, k,
{
    if k > 0 {
        lemma_best_among_range(g, s, mask, v, (k - 1) as nat);
        lemma_cost_via_range(g, s, mask, v, (k - 1) as usize);
    }
}

/// The cost through a node is not negative and stays below twice the
/// sentinel.
pub proof fn lemma_cost_via_range(g: Seq<Seq<i32>>, s: usize, mask: usize, v: usize, u: usize)
    requires
        is_cost_matrix(g),
        v < g.len(),
        u < g.len(),
    ensures
        0 <= cost_via(g, s, mask, v, u) < 2 * INF,
    decreases mask, 0nat,
{
    let rest = mask ^ bit(v);
    if has_bit(mask, v) && has_bit(rest, u) && has_edge(g, u, v) {
        lemma_remove_present(mask, v);
        lemma_best_among_range(g, s, rest, u, g.len());
        assert(0 <= g[u as int][v as int] <= INF);
    }
}

/// Best costs lie between 0 and `INF`.
pub proof fn lemma_best_cost_range(g: Seq<Seq<i32>>, s: usize, mask: usize, v: usize)
    requires
        is_cost_matrix(g),
        v < g.len(),
    ensures
        0 <= best_cost(g, s, mask, v) <= INF,
{
    lemma_best_among_range(g, s, mask, v, g.len());
}

/// `best_among` is a lower bound for every node it ranges over.
pub proof fn lemma_best_among_least(
    g: Seq<Seq<i32>>,
    s: usize,
    mask: usize,
    v: usize,
    k: nat,
    u: usize,
)
    requires
        u < k,
    ensures
        best_among(g, s, mask, v, k) <= cost_via(g, s, mask, v, u),
    decreases k,
{
    if u as nat != k - 1 {
        lemma_best_among_least(g, s, mask, v, (k - 1) as nat, u);
    }
}

/// `best_among` either is the starting value, with predecessor 0, or is
/// attained through `best_pred_among`, which is the first node that attains
/// it.
pub proof fn lemma_best_among_attained(g: Seq<Seq<i32>>, s: usize, mask: usize, v: usize, k: nat)
    requires
        k <= usize::MAX,
    ensures
        best_among(g, s, mask, v, k) <= start_cost(s, mask, v),
        best_among(g, s, mask, v, k) == start_cost(s, mask, v) ==> best_pred_among(
            g,
            s,
            mask,
            v,
            k,
        ) == 0,
        best_among(g, s, mask, v, k) < start_cost(s, mask, v) ==> {
            let p = best_pred_among(g, s, mask, v, k);
            &&& p < k
            &&& cost_via(g, s, mask, v, p) == best_among(g, s, mask, v, k)
            &&& forall|u: usize| u < p ==> cost_via(g, s, mask, v, u) > best_among(g, s, mask, v, k)
        },
    decreases k,
{
    if k > 0 {
        let j = (k - 1) as nat;
        lemma_best_among_attained(g, s, mask, v, j);
        let c = cost_via(g, s, mask, v, j as usize);
        let rest = best_among(g, s, mask, v, j);
        if c < rest {
            assert forall|u: usize| u < j implies cost_via(g, s, mask, v, u) > c by {
                lemma_best_among_least(g, s, mask, v, j, u);
            }
        }
    }
}

/// A state with nothing left once its last node is removed keeps its
/// starting value.
pub proof fn lemma_no_way_in(g: Seq<Seq<i32>>, s: usize, mask: usize, v: usize, k: nat)
    requires
        mask ^ bit(v) == 0,
        k <= usize::BITS,
    ensures
        best_among(g, s, mask, v, k) == start_cost(s, mask, v),
        best_pred_among(g, s, mask, v, k) == 0,
    decreases k,
{
    if k > 0 {
        lemma_no_way_in(g, s, mask, v, (k - 1) as nat);
        lemma_empty_mask((k - 1) as usize);
        assert(!has_bit(mask ^ bit(v), (k - 1) as usize));
        assert(cost_via(g, s, mask, v, (k - 1) as usize) == INF);
    }
}

/// The best predecessor is a node of the graph.
pub proof fn lemma_best_pred_range(g: Seq<Seq<i32>>, s: usize, mask: usize, v: usize)
    requires
        0 < g.len() <= usize::MAX,
    ensures
        best_pred(g, s, mask, v) < g.len(),
{
    lemma_best_among_attained(g, s, mask, v, g.len());
}

/// Whether `t` has one row for every visited set over `n` nodes and one
/// entry in each row for every node.
pub open spec fn is_table<T>(t: Seq<Seq<T>>, n: nat) -> bool {
    &&& t.len() == bit(n as usize)
    &&& forall|m: int| 0 <= m < t.len() ==> (#[trigger] t[m]).len() == n
}

/// The table of `best_cost`, by visited set and last node.
pub open spec fn cost_table(g: Seq<Seq<i32>>, s: usize) -> Seq<Seq<i32>> {
    Seq::new(
        bit(g.len() as usize) as nat,
        |m: int| Seq::new(g.len(), |v: int| best_cost(g, s, m as usize, v as usize) as i32),
    )
}

/// The table of `best_pred`, by visited set and last node.
pub open spec fn pred_table(g: Seq<Seq<i32>>, s: usize) -> Seq<Seq<usize>> {
    Seq::new(
        bit(g.len() as usize) as nat,
        |m: int| Seq::new(g.len(), |v: int| best_pred(g, s, m as usize, v as usize)),
    )
}

/// The nodes met when the predecessor links in `pred` are followed back from
/// `(mask, v)` for at most `fuel` nodes, in the order of the walk that the
/// links describe: the node met last comes first, `v` comes last. Following
/// stops at the state that holds the start node alone.
pub open spec fn walk_back(
    pred: Seq<Seq<usize>>,
    s: usize,
    mask: usize,
    v: usize,
    fuel: nat,
) -> Seq<usize>
    decreases fuel,
{
    if fuel == 0 {
        Seq::empty()
    } else if mask == bit(s) && v == s {
        seq![v]
    } else {
        walk_back(pred, s, mask ^ bit(v), pred[mask as int][v as int], (fuel - 1) as nat).push(v)
    }
}

/// The cost of a tour that reaches its last node `i` at cost `d` and closes
/// by the edge from `i` to `s`; `INF` where `i` was not reached or that edge
/// is missing.
pub open spec fn closing_cost(g: Seq<Seq<i32>>, s: usize, d: int, i: usize) -> int {
    if d != INF && has_edge(g, i, s) {
        d + edge(g, i, s)
    } else {
        INF as int
    }
}

/// The two tables have the right shape, and their entries are the values
/// of the recurrence.
pub proof fn lemma_tables(g: Seq<Seq<i32>>, s: usize, mask: usize, v: usize)
    requires
        is_cost_matrix(g),
        mask < bit(g.len() as usize),
        v < g.len(),
    ensures
        is_table(cost_table(g, s), g.len()),
        is_table(pred_table(g, s), g.len()),
        cost_table(g, s)[mask as int][v as int] == best_cost(g, s, mask, v),
        pred_table(g, s)[mask as int][v as int] == best_pred(g, s, mask, v),
{
    lemma_best_cost_range(g, s, mask, v);
}

} // verus!
