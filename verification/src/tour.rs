//! What the solver is for: simple paths and closed tours in a cost matrix,
//! and the proof that the recurrence finds the cheapest tour.
use vstd::prelude::*;
use crate::bitmask::{
    bit,
    count_bits,
    full_mask,
    has_bit,
    lemma_bit_bounds,
    lemma_bit_positive,
    lemma_count_all_is_full,
    lemma_count_bound,
    lemma_count_full,
    lemma_count_present,
    lemma_count_remove,
    lemma_count_single,
    lemma_full_mask_bits,
    lemma_insert_absent,
    lemma_insert_bit,
    lemma_mask_stays_in_range,
    lemma_remove_present,
    lemma_single_bit,
    lemma_toggle_bit,
};
use crate::common::INF;
use crate::matrix::{edge, has_edge, is_cost_matrix};
use crate::recurrence::{
    best_cost,
    best_pred_among,
    closing_cost,
    extends,
    lemma_best_among_attained,
    lemma_best_among_least,
    lemma_best_among_range,
    lemma_best_cost_range,
    lemma_cost_via,
    lemma_tables,
    pred_table,
    walk_back,
};

verus! {

/// A simple path from `s`: a walk along edges of `g` that starts in `s` and
/// visits no node twice.
pub open spec fn is_path(g: Seq<Seq<i32>>, s: usize, p: Seq<usize>) -> bool {
    &&& p.len() >= 1
    &&& p[0] == s
    &&& forall|k: int| 0 <= k < p.len() ==> #[trigger] p[k] < g.len()
    &&& forall|j: int, k: int| 0 <= j < k < p.len() ==> p[j] != p[k]
    &&& forall|k: int| 0 <= k < p.len() - 1 ==> has_edge(g, #[trigger] p[k], p[k + 1])
}

/// The sum of the costs of the edges between consecutive nodes of `p`.
pub open spec fn path_cost(g: Seq<Seq<i32>>, p: Seq<usize>) -> int
    decreases p.len(),
{
    if p.len() <= 1 {
        0
    } else {
        path_cost(g, p.drop_last()) + edge(g, p[p.len() - 2], p[p.len() - 1])
    }
}

/// A closed tour from `s`: one node more than the graph has; the nodes but
/// the last form a simple path from `s`, and the last is `s` again, reached
/// by an edge.
pub open spec fn is_tour(g: Seq<Seq<i32>>, s: usize, t: Seq<usize>) -> bool {
    let n = g.len() as int;
    &&& s < n
    &&& t.len() == n + 1
    &&& is_path(g, s, t.take(n))
    &&& t[n] == s
    &&& has_edge(g, t[n - 1], s)
}

/// Every node of the graph is among the nodes of `t` before its last.
pub open spec fn visits_all(g: Seq<Seq<i32>>, t: Seq<usize>) -> bool {
    forall|i: usize| i < g.len() ==> #[trigger] t.take(g.len() as int).contains(i)
}

/// Whether `a` comes before `b` when two sequences of one length are
/// compared from their last nodes backwards: where they differ last, `a`
/// holds the smaller node.
pub open spec fn comes_before(a: Seq<usize>, b: Seq<usize>) -> bool {
    exists|k: int|
        0 <= k < a.len() && #[trigger] a[k] < b[k] && forall|j: int|
            k < j < a.len() ==> #[trigger] a[j] == b[j]
}

/// `t` is the tour that the solver owes for `g` and `s`, at the cost
/// `cost`: a tour over every node, at the cost of its edges, which no tour
/// undercuts, and which comes before every other tour of that cost.
pub open spec fn is_cheapest_tour(g: Seq<Seq<i32>>, s: usize, cost: int, t: Seq<usize>) -> bool {
    &&& is_tour(g, s, t)
    &&& visits_all(g, t)
    &&& cost == path_cost(g, t)
    &&& forall|other: Seq<usize>| #[trigger]
        is_tour(g, s, other) ==> {
            &&& cost <= path_cost(g, other)
            &&& cost == path_cost(g, other) ==> other == t || comes_before(t, other)
        }
}

/// `r` is what the solver owes for `g` and `s`: the cheapest tour, or
/// nothing where there is no tour.
pub open spec fn is_solution(g: Seq<Seq<i32>>, s: usize, r: Option<(int, Seq<usize>)>) -> bool {
    match r {
        Some((cost, t)) => is_cheapest_tour(g, s, cost, t),
        None => forall|other: Seq<usize>| !#[trigger] is_tour(g, s, other),
    }
}

/// The nodes of `p` are exactly the nodes of `mask` among the first `n`.
pub open spec fn covers(p: Seq<usize>, mask: usize, n: nat) -> bool {
    &&& forall|k: int| 0 <= k < p.len() ==> has_bit(mask, #[trigger] p[k])
    &&& forall|i: usize| i < n && #[trigger] has_bit(mask, i) ==> p.contains(i)
}

/// The visited set of the nodes of `p`.
pub open spec fn mask_of(p: Seq<usize>) -> usize
    decreases p.len(),
{
    if p.len() == 0 {
        0
    } else {
        mask_of(p.drop_last()) | bit(p.last())
    }
}

/// The cost of the cheapest tour whose last node before the return is `i`;
/// `INF` where there is none.
pub open spec fn tour_through(g: Seq<Seq<i32>>, s: usize, i: usize) -> int {
    closing_cost(g, s, best_cost(g, s, full_mask(g.len() as usize), i), i)
}

/// The first node among `0, .., k - 1` through which the cheapest tour
/// closes, if any tour closes through one of them.
pub open spec fn best_closing_among(g: Seq<Seq<i32>>, s: usize, k: nat) -> Option<usize>
    decreases k,
{
    if k == 0 {
        None
    } else {
        let rest = best_closing_among(g, s, (k - 1) as nat);
        let least = match rest {
            Some(j) => tour_through(g, s, j),
            None => INF as int,
        };
        if tour_through(g, s, (k - 1) as usize) < least {
            Some((k - 1) as usize)
        } else {
            rest
        }
    }
}

/// What the solver returns for the matrix `g` and the start node `s`: the
/// cost of the cheapest tour and the tour that the predecessor links give
/// for it, or nothing where no tour closes.
pub open spec fn held_karp(g: Seq<Seq<i32>>, s: usize) -> Option<(int, Seq<usize>)> {
    if s < g.len() {
        match best_closing_among(g, s, g.len()) {
            Some(i) => Some(
                (
                    tour_through(g, s, i),
                    walk_back(
                        pred_table(g, s),
                        s,
                        full_mask(g.len() as usize),
                        i,
                        g.len(),
                    ).push(s),
                ),
            ),
            None => None,
        }
    } else {
        None
    }
}

/// What a returned value says, as a cost and a sequence of nodes.
pub open spec fn answer(r: Option<(i32, Vec<usize>)>) -> Option<(int, Seq<usize>)> {
    match r {
        Some((cost, path)) => Some((cost as int, path@)),
        None => None,
    }
}

/// `best_closing_among` is the first node that attains the least closing
/// cost below the sentinel.
pub proof fn lemma_best_closing(g: Seq<Seq<i32>>, s: usize, k: nat)
    requires
        k <= usize::MAX,
    ensures
        match best_closing_among(g, s, k) {
            Some(i) => {
                &&& i < k
                &&& tour_through(g, s, i) < INF
                &&& forall|j: usize| j < k ==> tour_through(g, s, i) <= #[trigger] tour_through(g, s, j)
                &&& forall|j: usize| j < i ==> tour_through(g, s, i) < #[trigger] tour_through(g, s, j)
            },
            None => forall|j: usize| j < k ==> INF <= #[trigger] tour_through(g, s, j),
        },
    decreases k,
{
    if k > 0 {
        lemma_best_closing(g, s, (k - 1) as nat);
    }
}

/// The state that holds the start node alone costs nothing.
proof fn lemma_start_state(g: Seq<Seq<i32>>, s: usize)
    requires
        is_cost_matrix(g),
        s < g.len(),
    ensures
        best_cost(g, s, bit(s), s) == 0,
        bit(s) < bit(g.len() as usize),
        covers(seq![s], bit(s), g.len()),
        count_bits(bit(s), g.len()) == 1,
{
    let n = g.len();
    lemma_single_bit(s, s);
    lemma_bit_bounds(s, n as usize);
    lemma_best_among_attained(g, s, bit(s), s, n);
    lemma_best_among_range(g, s, bit(s), s, n);
    lemma_count_single(s, n);
    let p = seq![s];
    assert forall|i: usize| i < n && #[trigger] has_bit(bit(s), i) implies p.contains(i) by {
        lemma_single_bit(s, i);
        assert(p[0] == i);
    }
}

/// Following the predecessor links back from a reachable state gives a
/// simple path from the start that visits exactly the nodes of the state,
/// ends in its last node, and costs what the recurrence says.
pub proof fn lemma_walk_back_attains(g: Seq<Seq<i32>>, s: usize, mask: usize, v: usize, fuel: nat)
    requires
        is_cost_matrix(g),
        s < g.len(),
        v < g.len(),
        mask < bit(g.len() as usize),
        best_cost(g, s, mask, v) != INF,
        fuel >= count_bits(mask, g.len()),
    ensures
        ({
            let p = walk_back(pred_table(g, s), s, mask, v, fuel);
            &&& is_path(g, s, p)
            &&& p.last() == v
            &&& covers(p, mask, g.len())
            &&& p.len() == count_bits(mask, g.len())
            &&& path_cost(g, p) == best_cost(g, s, mask, v)
        }),
    decreases fuel,
{
    let n = g.len();
    let p = walk_back(pred_table(g, s), s, mask, v, fuel);
    lemma_count_present(mask, v, n);
    if mask == bit(s) && v == s {
        lemma_start_state(g, s);
        assert(p =~= seq![s]);
    } else {
        let rest = mask ^ bit(v);
        let u = best_pred_among(g, s, mask, v, n);
        lemma_best_among_attained(g, s, mask, v, n);
        lemma_best_among_range(g, s, mask, v, n);
        lemma_cost_via(g, s, mask, v, u);
        lemma_remove_present(mask, v);
        lemma_mask_stays_in_range(mask, v, n as usize);
        lemma_count_remove(mask, v, n);
        lemma_tables(g, s, mask, v);
        assert(extends(g, s, mask, v, u));
        lemma_walk_back_attains(g, s, rest, u, (fuel - 1) as nat);
        let q = walk_back(pred_table(g, s), s, rest, u, (fuel - 1) as nat);
        assert(p == q.push(v));
        assert(p.drop_last() =~= q);
        assert forall|k: int| 0 <= k < p.len() implies #[trigger] p[k] < n && has_bit(
            mask,
            p[k],
        ) by {
            if k < q.len() {
                assert(has_bit(rest, q[k]));
                lemma_toggle_bit(mask, v, q[k]);
            }
        }
        assert forall|j: int, k: int| 0 <= j < k < p.len() implies p[j] != p[k] by {
            if k == q.len() {
                assert(has_bit(rest, q[j]));
            }
        }
        assert forall|k: int| 0 <= k < p.len() - 1 implies has_edge(g, #[trigger] p[k], p[k + 1]) by {
            if k < q.len() - 1 {
                assert(has_edge(g, q[k], q[k + 1]));
            }
        }
        assert forall|i: usize| i < n && #[trigger] has_bit(mask, i) implies p.contains(i) by {
            if i == v {
                assert(p[q.len() as int] == i);
            } else {
                lemma_toggle_bit(mask, v, i);
                assert(has_bit(rest, i));
                let k = choose|k: int| 0 <= k < q.len() && q[k] == i;
                assert(p[k] == i);
            }
        }
    }
}

/// As many finite costs as the graph has nodes stay below the sentinel.
proof fn lemma_sum_below_sentinel(n: int, total: int, edges: int)
    requires
        0 < n,
        0 <= edges <= n,
        n * total <= edges * (INF - 1),
    ensures
        total < INF,
{
    assert(edges * (INF - 1) <= n * (INF - 1)) by (nonlinear_arith)
        requires
            0 <= edges <= n,
    ;
    assert(total <= INF - 1) by (nonlinear_arith)
        requires
            0 < n,
            n * total <= n * (INF - 1),
    ;
}

/// One more finite edge keeps the sum within what that many edges may
/// cost.
proof fn lemma_add_edge_cost(n: int, total: int, edges: int, c: int)
    requires
        n * total <= edges * (INF - 1),
        n * c < INF,
    ensures
        n * (total + c) <= (edges + 1) * (INF - 1),
{
    assert(n * (total + c) == n * total + n * c) by (nonlinear_arith);
    assert((edges + 1) * (INF - 1) == edges * (INF - 1) + (INF - 1)) by (nonlinear_arith);
}

/// A simple path of two nodes or more without its last node is a simple
/// path still.
proof fn lemma_shorter_path(g: Seq<Seq<i32>>, s: usize, p: Seq<usize>)
    requires
        is_path(g, s, p),
        p.len() >= 2,
    ensures
        is_path(g, s, p.drop_last()),
        has_edge(g, p[p.len() - 2], p[p.len() - 1]),
        p[p.len() - 2] < g.len(),
        p[p.len() - 1] < g.len(),
        !p.drop_last().contains(p[p.len() - 1]),
{
    let q = p.drop_last();
    assert forall|k: int| 0 <= k < q.len() implies #[trigger] q[k] < g.len() by {
        assert(q[k] == p[k]);
    }
    assert forall|j: int, k: int| 0 <= j < k < q.len() implies q[j] != q[k] by {
        assert(q[j] == p[j] && q[k] == p[k]);
    }
    assert forall|k: int| 0 <= k < q.len() - 1 implies has_edge(g, #[trigger] q[k], q[k + 1]) by {
        assert(q[k] == p[k] && q[k + 1] == p[k + 1]);
        assert(has_edge(g, p[k], p[k + 1]));
    }
    assert(q[0] == p[0]);
    assert(has_edge(g, p[p.len() - 2], p[p.len() - 2 + 1]));
    if q.contains(p[p.len() - 1]) {
        let k = choose|k: int| 0 <= k < q.len() && q[k] == p[p.len() - 1];
        assert(p[k] == p[p.len() - 1]);
    }
}

/// No simple path from the start is cheaper than the value that the
/// recurrence gives for the set of its nodes and its last node.
pub proof fn lemma_path_not_below_best(g: Seq<Seq<i32>>, s: usize, p: Seq<usize>)
    requires
        is_cost_matrix(g),
        s < g.len(),
        is_path(g, s, p),
    ensures
        mask_of(p) < bit(g.len() as usize),
        covers(p, mask_of(p), g.len()),
        p.len() == count_bits(mask_of(p), g.len()),
        0 <= best_cost(g, s, mask_of(p), p.last()) <= path_cost(g, p),
        g.len() * path_cost(g, p) <= (p.len() - 1) * (INF - 1),
        path_cost(g, p) < INF,
    decreases p.len(),
{
    let n = g.len();
    let m = mask_of(p);
    let v = p.last();
    if p.len() == 1 {
        lemma_start_state(g, s);
        assert(p.drop_last().len() == 0);
        assert(mask_of(p.drop_last()) == 0);
        lemma_single_bit(s, s);
        assert(m == bit(s));
        assert(p =~= seq![s]);
        assert(path_cost(g, p) == 0);
        assert(n * 0 == 0);
        assert(0 * (INF - 1) == 0);
    } else {
        let q = p.drop_last();
        let u = q.last();
        lemma_shorter_path(g, s, p);
        lemma_path_not_below_best(g, s, q);
        let mq = mask_of(q);
        assert(m == mq | bit(v));
        lemma_insert_absent(mq, v);
        lemma_mask_stays_in_range(mq, v, n as usize);
        lemma_count_remove(m, v, n);
        lemma_count_bound(m, n);
        assert(has_bit(mq, q[q.len() - 1]));
        assert(u == p[p.len() - 2]);
        assert(0 <= g[u as int][v as int] <= INF);
        assert(n * g[u as int][v as int] < INF);
        lemma_cost_via(g, s, m, v, u);
        assert(extends(g, s, m, v, u));
        lemma_best_among_least(g, s, m, v, n, u);
        lemma_best_among_range(g, s, m, v, n);
        lemma_add_edge_cost(n as int, path_cost(g, q), q.len() - 1, edge(g, u, v));
        lemma_sum_below_sentinel(n as int, path_cost(g, p), p.len() - 1);
        assert forall|k: int| 0 <= k < p.len() implies has_bit(m, #[trigger] p[k]) by {
            lemma_insert_bit(mq, v, p[k]);
            if k < q.len() {
                assert(has_bit(mq, q[k]));
            }
        }
        assert forall|i: usize| i < n && #[trigger] has_bit(m, i) implies p.contains(i) by {
            lemma_insert_bit(mq, v, i);
            if i == v {
                assert(p[p.len() - 1] == i);
            } else {
                assert(has_bit(mq, i));
                let k = choose|k: int| 0 <= k < q.len() && q[k] == i;
                assert(p[k] == i);
            }
        }
    }
}

/// No tour is cheaper than the cheapest way to close through its last node
/// before the return, and no tour costs as much as the sentinel.
pub proof fn lemma_tour_not_below_closing(g: Seq<Seq<i32>>, s: usize, t: Seq<usize>)
    requires
        is_cost_matrix(g),
        is_tour(g, s, t),
    ensures
        t[g.len() - 1] < g.len(),
        tour_through(g, s, t[g.len() - 1]) <= path_cost(g, t) < INF,
{
    let n = g.len();
    let p = t.take(n as int);
    let i = t[n - 1];
    assert(p[n - 1] == i);
    assert(t.drop_last() =~= p);
    lemma_path_not_below_best(g, s, p);
    lemma_count_all_is_full(mask_of(p), n as usize);
    assert(0 <= g[i as int][s as int] <= INF);
    assert(n * g[i as int][s as int] < INF);
    lemma_add_edge_cost(n as int, path_cost(g, p), n - 1, edge(g, i, s));
    lemma_sum_below_sentinel(n as int, path_cost(g, t), n as int);
}

/// The tour that closes a reachable full state through `i` is a tour, it
/// visits every node, and it costs what `tour_through` says.
pub proof fn lemma_closed_walk_is_tour(g: Seq<Seq<i32>>, s: usize, i: usize)
    requires
        is_cost_matrix(g),
        s < g.len(),
        i < g.len(),
        tour_through(g, s, i) < INF,
    ensures
        ({
            let t = walk_back(pred_table(g, s), s, full_mask(g.len() as usize), i, g.len()).push(s);
            &&& is_tour(g, s, t)
            &&& visits_all(g, t)
            &&& path_cost(g, t) == tour_through(g, s, i)
        }),
{
    let n = g.len();
    let full = full_mask(n as usize);
    let p = walk_back(pred_table(g, s), s, full, i, n);
    let t = p.push(s);
    lemma_bit_positive(n as usize);
    lemma_count_full(n as usize, n);
    lemma_best_cost_range(g, s, full, i);
    assert(0 <= g[i as int][s as int] <= INF);
    lemma_walk_back_attains(g, s, full, i, n);
    assert(t.take(n as int) =~= p);
    assert(t.drop_last() =~= p);
    assert(t[n - 1] == p[n - 1]);
    assert forall|j: usize| j < n implies #[trigger] t.take(n as int).contains(j) by {
        lemma_full_mask_bits(n as usize, j);
        assert(has_bit(full, j));
    }
}

/// Among the simple paths from the start that reach a state at its best
/// cost, the one that the predecessor links give comes first.
pub proof fn lemma_walk_back_comes_first(
    g: Seq<Seq<i32>>,
    s: usize,
    mask: usize,
    v: usize,
    fuel: nat,
    p: Seq<usize>,
)
    requires
        is_cost_matrix(g),
        s < g.len(),
        v < g.len(),
        mask < bit(g.len() as usize),
        best_cost(g, s, mask, v) != INF,
        fuel >= count_bits(mask, g.len()),
        is_path(g, s, p),
        p.last() == v,
        mask_of(p) == mask,
        path_cost(g, p) == best_cost(g, s, mask, v),
    ensures
        ({
            let w = walk_back(pred_table(g, s), s, mask, v, fuel);
            &&& w.len() == p.len()
            &&& w == p || comes_before(w, p)
        }),
    decreases fuel,
{
    let n = g.len();
    let w = walk_back(pred_table(g, s), s, mask, v, fuel);
    lemma_walk_back_attains(g, s, mask, v, fuel);
    lemma_path_not_below_best(g, s, p);
    lemma_count_present(mask, v, n);
    if p.len() == 1 {
        assert(p.drop_last().len() == 0);
        assert(mask_of(p.drop_last()) == 0);
        lemma_single_bit(s, s);
        assert(mask == bit(s));
        assert(w =~= p);
    } else {
        let q = p.drop_last();
        let u2 = q.last();
        lemma_shorter_path(g, s, p);
        lemma_path_not_below_best(g, s, q);
        let rest = mask_of(q);
        assert(mask == rest | bit(v));
        if has_bit(rest, v) {
            assert(q.contains(v));
        }
        lemma_insert_absent(rest, v);
        lemma_count_remove(mask, v, n);
        assert(has_bit(rest, q[q.len() - 1]));
        assert(u2 == p[p.len() - 2]);
        lemma_single_bit(s, s);
        lemma_single_bit(s, v);
        lemma_single_bit(s, u2);
        assert(!(mask == bit(s) && v == s)) by {
            if mask == bit(s) {
                lemma_insert_bit(rest, v, u2);
                assert(has_bit(mask, u2) && has_bit(mask, v));
                assert(p[p.len() - 2] != p[p.len() - 1]);
            }
        }
        lemma_cost_via(g, s, mask, v, u2);
        assert(extends(g, s, mask, v, u2));
        lemma_best_among_least(g, s, mask, v, n, u2);
        lemma_best_among_attained(g, s, mask, v, n);
        lemma_best_among_range(g, s, mask, v, n);
        let u = best_pred_among(g, s, mask, v, n);
        lemma_cost_via(g, s, mask, v, u);
        lemma_tables(g, s, mask, v);
        assert(extends(g, s, mask, v, u));
        assert(path_cost(g, q) == best_cost(g, s, rest, u2));
        assert(u <= u2);
        let w2 = walk_back(pred_table(g, s), s, rest, u, (fuel - 1) as nat);
        assert(w == w2.push(v));
        lemma_walk_back_attains(g, s, rest, u, (fuel - 1) as nat);
        assert(p =~= q.push(v));
        if u < u2 {
            let k = p.len() - 2;
            assert(w[k] < p[k]);
            assert forall|j: int| k < j < w.len() implies #[trigger] w[j] == p[j] by {}
            assert(comes_before(w, p));
        } else {
            lemma_walk_back_comes_first(g, s, rest, u, (fuel - 1) as nat, q);
            if w2 == q {
                assert(w =~= p);
            } else {
                let k = choose|k: int|
                    0 <= k < w2.len() && #[trigger] w2[k] < q[k] && forall|j: int|
                        k < j < w2.len() ==> #[trigger] w2[j] == q[j];
                assert(w[k] < p[k]);
                assert forall|j: int| k < j < w.len() implies #[trigger] w[j] == p[j] by {
                    if j < w2.len() {
                        assert(w2[j] == q[j]);
                    }
                }
                assert(comes_before(w, p));
            }
        }
    }
}

/// Among the tours at the least cost, the one that the solver returns comes
/// first.
pub proof fn lemma_returned_tour_comes_first(g: Seq<Seq<i32>>, s: usize, i: usize, other: Seq<usize>)
    requires
        is_cost_matrix(g),
        s < g.len(),
        best_closing_among(g, s, g.len()) == Some(i),
        is_tour(g, s, other),
        path_cost(g, other) == tour_through(g, s, i),
    ensures
        ({
            let t = walk_back(pred_table(g, s), s, full_mask(g.len() as usize), i, g.len()).push(s);
            other == t || comes_before(t, other)
        }),
{
    let n = g.len();
    let full = full_mask(n as usize);
    let w = walk_back(pred_table(g, s), s, full, i, n);
    let t = w.push(s);
    let p = other.take(n as int);
    let j = other[n - 1];
    lemma_best_closing(g, s, n);
    lemma_tour_not_below_closing(g, s, other);
    lemma_bit_positive(n as usize);
    lemma_count_full(n as usize, n);
    lemma_best_cost_range(g, s, full, i);
    lemma_best_cost_range(g, s, full, j);
    lemma_walk_back_attains(g, s, full, i, n);
    lemma_path_not_below_best(g, s, p);
    lemma_count_all_is_full(mask_of(p), n as usize);
    assert(other.drop_last() =~= p);
    assert(p[n - 1] == j);
    assert(other =~= p.push(s));
    assert(tour_through(g, s, i) <= tour_through(g, s, j));
    assert(i <= j);
    if i < j {
        let k = n - 1;
        assert(t[k] < other[k]);
        assert forall|x: int| k < x < t.len() implies #[trigger] t[x] == other[x] by {}
        assert(comes_before(t, other));
    } else {
        lemma_walk_back_comes_first(g, s, full, i, n, p);
        if w == p {
            assert(t =~= other);
        } else {
            let k = choose|k: int|
                0 <= k < w.len() && #[trigger] w[k] < p[k] && forall|x: int|
                    k < x < w.len() ==> #[trigger] w[x] == p[x];
            assert(t[k] < other[k]);
            assert forall|x: int| k < x < t.len() implies #[trigger] t[x] == other[x] by {
                if x < w.len() {
                    assert(w[x] == p[x]);
                }
            }
            assert(comes_before(t, other));
        }
    }
}

/// The solver is right: what it returns is the cheapest tour, and it
/// returns nothing only where there is no tour at all.
pub proof fn lemma_held_karp_optimal(g: Seq<Seq<i32>>, s: usize)
    requires
        is_cost_matrix(g),
    ensures
        is_solution(g, s, held_karp(g, s)),
{
    let n = g.len();
    if s < n {
        lemma_best_closing(g, s, n);
        match best_closing_among(g, s, n) {
            Some(i) => {
                let t = walk_back(pred_table(g, s), s, full_mask(n as usize), i, n).push(s);
                lemma_closed_walk_is_tour(g, s, i);
                assert forall|other: Seq<usize>| #[trigger] is_tour(g, s, other) implies {
                    &&& tour_through(g, s, i) <= path_cost(g, other)
                    &&& tour_through(g, s, i) == path_cost(g, other) ==> other == t
                        || comes_before(t, other)
                } by {
                    lemma_tour_not_below_closing(g, s, other);
                    let j = other[n - 1];
                    assert(tour_through(g, s, i) <= tour_through(g, s, j));
                    if tour_through(g, s, i) == path_cost(g, other) {
                        lemma_returned_tour_comes_first(g, s, i, other);
                    }
                }
            },
            None => {
                assert forall|other: Seq<usize>| !#[trigger] is_tour(g, s, other) by {
                    if is_tour(g, s, other) {
                        lemma_tour_not_below_closing(g, s, other);
                        let j = other[n - 1];
                        assert(INF <= tour_through(g, s, j));
                    }
                }
            },
        }
    }
}

/// No two answers are owed for one matrix and one start node.
pub proof fn lemma_solution_is_unique(
    g: Seq<Seq<i32>>,
    s: usize,
    a: Option<(int, Seq<usize>)>,
    b: Option<(int, Seq<usize>)>,
)
    requires
        is_solution(g, s, a),
        is_solution(g, s, b),
    ensures
        a == b,
{
    match (a, b) {
        (Some((cost, t)), Some((again, other))) => {
            assert(is_tour(g, s, t) && is_tour(g, s, other));
            assert(cost == again);
            if t != other {
                assert(comes_before(t, other));
                assert(comes_before(other, t));
                let k = choose|k: int|
                    0 <= k < t.len() && #[trigger] t[k] < other[k] && forall|j: int|
                        k < j < t.len() ==> #[trigger] t[j] == other[j];
                let m = choose|m: int|
                    0 <= m < other.len() && #[trigger] other[m] < t[m] && forall|j: int|
                        m < j < other.len() ==> #[trigger] other[j] == t[j];
                if k < m {
                    assert(t[m] == other[m]);
                } else if m < k {
                    assert(other[k] == t[k]);
                }
                assert(false);
            }
        },
        (Some((cost, t)), None) => {
            assert(is_tour(g, s, t));
        },
        (None, Some((again, other))) => {
            assert(is_tour(g, s, other));
        },
        (None, None) => {},
    }
}

} // verus!
