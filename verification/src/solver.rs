//! The solver: it fills the two tables of the recurrence, finds the
//! cheapest way to close a tour, and reads the tour back from the
//! predecessor links.
use vstd::prelude::*;
use crate::bitmask::{
    bit,
    full_mask,
    has_bit,
    lemma_bit_bounds,
    lemma_bit_positive,
    lemma_insert_absent,
    lemma_mask_stays_in_range,
    lemma_remove_present,
    lemma_single_bit,
};
use crate::common::INF;
use crate::matrix::{edge, has_edge, is_cost_matrix};
use crate::recurrence::{
    best_among,
    best_pred_among,
    closing_cost,
    cost_table,
    is_table,
    lemma_best_among_range,
    lemma_best_cost_range,
    lemma_best_pred_range,
    lemma_cost_via,
    lemma_no_way_in,
    lemma_tables,
    pred_table,
    start_cost,
    walk_back,
};

use crate::tour::{
    answer,
    best_closing_among,
    held_karp,
    is_solution,
    lemma_best_closing,
    lemma_held_karp_optimal,
    tour_through,
};

verus! {

/// How many of the nodes `0, .., n - 1` have been tried as the node before
/// `t`, for the state whose other nodes are `rest`, when the fill has come
/// to the source set `mask`, its node `u` and the target node `v`.
spec fn settled(mask: usize, u: nat, v: nat, rest: usize, t: usize, n: nat) -> nat {
    if rest < mask {
        n
    } else if rest == mask {
        if t < v {
            u + 1
        } else {
            u
        }
    } else {
        0
    }
}

/// The entry of both tables at `(m, t)` holds what the nodes tried so
/// far give.
spec fn entry_relaxed(
    g: Seq<Seq<i32>>,
    s: usize,
    dist: Seq<Seq<i32>>,
    pred: Seq<Seq<usize>>,
    mask: usize,
    u: nat,
    v: nat,
    m: usize,
    t: usize,
) -> bool {
    let k = settled(mask, u, v, m ^ bit(t), t, g.len());
    &&& dist[m as int][t as int] == (if has_bit(m, t) {
        best_among(g, s, m, t, k)
    } else {
        INF as int
    })
    &&& pred[m as int][t as int] == (if has_bit(m, t) {
        best_pred_among(g, s, m, t, k)
    } else {
        0usize
    })
}

/// The state of the two tables when the fill has come to `(mask, u, v)`.
spec fn relaxed_to(
    g: Seq<Seq<i32>>,
    s: usize,
    dist: Seq<Seq<i32>>,
    pred: Seq<Seq<usize>>,
    mask: usize,
    u: nat,
    v: nat,
) -> bool {
    &&& is_table(dist, g.len())
    &&& is_table(pred, g.len())
    &&& forall|m: usize, t: usize|
        m < bit(g.len() as usize) && t < g.len() ==> #[trigger] entry_relaxed(
            g,
            s,
            dist,
            pred,
            mask,
            u,
            v,
            m,
            t,
        )
}

/// The tables as `new` leaves them.
pub open spec fn fresh_tables(
    g: Seq<Seq<i32>>,
    s: usize,
    dist: Seq<Seq<i32>>,
    pred: Seq<Seq<usize>>,
) -> bool {
    &&& is_table(dist, g.len())
    &&& is_table(pred, g.len())
    &&& forall|m: int, t: int|
        0 <= m < bit(g.len() as usize) && 0 <= t < g.len() ==> #[trigger] dist[m][t] == start_cost(
            s,
            m as usize,
            t as usize,
        )
    &&& forall|m: int, t: int|
        0 <= m < bit(g.len() as usize) && 0 <= t < g.len() ==> #[trigger] pred[m][t] == 0
}

/// Whether `after` is `before` with the entry at `(m, t)` replaced by `x`.
spec fn set_entry<T>(before: Seq<Seq<T>>, after: Seq<Seq<T>>, m: usize, t: usize, x: T) -> bool {
    &&& after.len() == before.len()
    &&& forall|a: int| 0 <= a < before.len() ==> (#[trigger] after[a]).len() == before[a].len()
    &&& forall|a: int, b: int|
        0 <= a < before.len() && 0 <= b < before[a].len() ==> #[trigger] after[a][b] == (if a == m
            && b == t {
            x
        } else {
            before[a][b]
        })
}

/// Fresh tables are the state of the fill at its beginning.
proof fn lemma_fresh_is_relaxed(
    g: Seq<Seq<i32>>,
    s: usize,
    dist: Seq<Seq<i32>>,
    pred: Seq<Seq<usize>>,
)
    requires
        is_cost_matrix(g),
        s < g.len(),
        fresh_tables(g, s, dist, pred),
    ensures
        relaxed_to(g, s, dist, pred, 1, 0, 0),
{
    let n = g.len();
    assert forall|m: usize, t: usize| m < bit(n as usize) && t < n implies #[trigger] entry_relaxed(
        g,
        s,
        dist,
        pred,
        1,
        0,
        0,
        m,
        t,
    ) by {
        assert(dist[m as int][t as int] == start_cost(s, m, t));
        assert(pred[m as int][t as int] == 0);
        lemma_single_bit(s, s);
        if has_bit(m, t) && (m ^ bit(t)) < 1 {
            lemma_no_way_in(g, s, m, t, n);
        }
    }
}

/// A source state that is not reached, or not a state at all, changes
/// nothing.
proof fn lemma_skip_node(
    g: Seq<Seq<i32>>,
    s: usize,
    dist: Seq<Seq<i32>>,
    pred: Seq<Seq<usize>>,
    mask: usize,
    u: usize,
)
    requires
        is_cost_matrix(g),
        mask < bit(g.len() as usize),
        u < g.len(),
        relaxed_to(g, s, dist, pred, mask, u as nat, 0),
        !has_bit(mask, u) || dist[mask as int][u as int] == INF,
    ensures
        relaxed_to(g, s, dist, pred, mask, (u + 1) as nat, 0),
{
    let n = g.len();
    assert forall|m: usize, t: usize| m < bit(n as usize) && t < n implies #[trigger] entry_relaxed(
        g,
        s,
        dist,
        pred,
        mask,
        (u + 1) as nat,
        0,
        m,
        t,
    ) by {
        assert(entry_relaxed(g, s, dist, pred, mask, u as nat, 0, m, t));
        if has_bit(m, t) && (m ^ bit(t)) == mask {
            if has_bit(mask, u) {
                assert(entry_relaxed(g, s, dist, pred, mask, u as nat, 0, mask, u));
                lemma_remove_present(mask, u);
            }
            lemma_cost_via(g, s, m, t, u);
            lemma_best_among_range(g, s, m, t, u as nat);
        }
    }
}

/// An edge that is missing, leads back into the set, or gives no
/// improvement changes nothing.
proof fn lemma_skip_edge(
    g: Seq<Seq<i32>>,
    s: usize,
    dist: Seq<Seq<i32>>,
    pred: Seq<Seq<usize>>,
    mask: usize,
    u: usize,
    v: usize,
)
    requires
        is_cost_matrix(g),
        mask < bit(g.len() as usize),
        u < g.len(),
        v < g.len(),
        relaxed_to(g, s, dist, pred, mask, u as nat, v as nat),
        has_bit(mask, u),
        has_bit(mask, v) || !has_edge(g, u, v) || dist[mask as int][u as int] + edge(g, u, v)
            >= dist[(mask | bit(v)) as int][v as int],
    ensures
        relaxed_to(g, s, dist, pred, mask, u as nat, (v + 1) as nat),
{
    let n = g.len();
    assert forall|m: usize, t: usize| m < bit(n as usize) && t < n implies #[trigger] entry_relaxed(
        g,
        s,
        dist,
        pred,
        mask,
        u as nat,
        (v + 1) as nat,
        m,
        t,
    ) by {
        assert(entry_relaxed(g, s, dist, pred, mask, u as nat, v as nat, m, t));
        if has_bit(m, t) && (m ^ bit(t)) == mask && t == v {
            lemma_remove_present(m, t);
            assert(entry_relaxed(g, s, dist, pred, mask, u as nat, v as nat, mask, u));
            lemma_remove_present(mask, u);
            lemma_cost_via(g, s, m, t, u);
            lemma_best_among_range(g, s, m, t, u as nat);
        }
    }
}

/// An edge that improves on its target state is recorded there.
proof fn lemma_take_edge(
    g: Seq<Seq<i32>>,
    s: usize,
    dist: Seq<Seq<i32>>,
    pred: Seq<Seq<usize>>,
    dist_after: Seq<Seq<i32>>,
    pred_after: Seq<Seq<usize>>,
    mask: usize,
    u: usize,
    v: usize,
    c: i32,
)
    requires
        is_cost_matrix(g),
        mask < bit(g.len() as usize),
        u < g.len(),
        v < g.len(),
        relaxed_to(g, s, dist, pred, mask, u as nat, v as nat),
        has_bit(mask, u),
        !has_bit(mask, v),
        has_edge(g, u, v),
        dist[mask as int][u as int] != INF,
        c == dist[mask as int][u as int] + edge(g, u, v),
        c < dist[(mask | bit(v)) as int][v as int],
        set_entry(dist, dist_after, mask | bit(v), v, c),
        set_entry(pred, pred_after, mask | bit(v), v, u),
    ensures
        relaxed_to(g, s, dist_after, pred_after, mask, u as nat, (v + 1) as nat),
{
    let n = g.len();
    let next = mask | bit(v);
    lemma_insert_absent(mask, v);
    assert(entry_relaxed(g, s, dist, pred, mask, u as nat, v as nat, mask, u));
    lemma_remove_present(mask, u);
    assert forall|m: usize, t: usize| m < bit(n as usize) && t < n implies #[trigger] entry_relaxed(
        g,
        s,
        dist_after,
        pred_after,
        mask,
        u as nat,
        (v + 1) as nat,
        m,
        t,
    ) by {
        assert(entry_relaxed(g, s, dist, pred, mask, u as nat, v as nat, m, t));
        assert(dist_after[m as int][t as int] == (if m == next && t == v {
            c
        } else {
            dist[m as int][t as int]
        }));
        assert(pred_after[m as int][t as int] == (if m == next && t == v {
            u
        } else {
            pred[m as int][t as int]
        }));
        if has_bit(m, t) && (m ^ bit(t)) == mask && t == v {
            lemma_remove_present(m, t);
            lemma_cost_via(g, s, m, t, u);
        }
    }
}

/// Once every target node has been tried from `u`, the fill is at the
/// next source node.
proof fn lemma_node_done(
    g: Seq<Seq<i32>>,
    s: usize,
    dist: Seq<Seq<i32>>,
    pred: Seq<Seq<usize>>,
    mask: usize,
    u: usize,
)
    requires
        u < g.len(),
        relaxed_to(g, s, dist, pred, mask, u as nat, g.len()),
    ensures
        relaxed_to(g, s, dist, pred, mask, (u + 1) as nat, 0),
{
    let n = g.len();
    assert forall|m: usize, t: usize| m < bit(n as usize) && t < n implies #[trigger] entry_relaxed(
        g,
        s,
        dist,
        pred,
        mask,
        (u + 1) as nat,
        0,
        m,
        t,
    ) by {
        assert(entry_relaxed(g, s, dist, pred, mask, u as nat, n, m, t));
    }
}

/// Once every node of `mask` has been a source, the fill is at the next
/// visited set.
proof fn lemma_mask_done(
    g: Seq<Seq<i32>>,
    s: usize,
    dist: Seq<Seq<i32>>,
    pred: Seq<Seq<usize>>,
    mask: usize,
)
    requires
        mask < usize::MAX,
        relaxed_to(g, s, dist, pred, mask, g.len(), 0),
    ensures
        relaxed_to(g, s, dist, pred, (mask + 1) as usize, 0, 0),
{
    let n = g.len();
    assert forall|m: usize, t: usize| m < bit(n as usize) && t < n implies #[trigger] entry_relaxed(
        g,
        s,
        dist,
        pred,
        (mask + 1) as usize,
        0,
        0,
        m,
        t,
    ) by {
        assert(entry_relaxed(g, s, dist, pred, mask, n, 0, m, t));
    }
}

/// Once every visited set has been a source, the tables hold the
/// recurrence.
proof fn lemma_all_done(g: Seq<Seq<i32>>, s: usize, dist: Seq<Seq<i32>>, pred: Seq<Seq<usize>>)
    requires
        is_cost_matrix(g),
        0 < g.len(),
        relaxed_to(g, s, dist, pred, bit(g.len() as usize), 0, 0),
    ensures
        dist == cost_table(g, s),
        pred == pred_table(g, s),
{
    let n = g.len();
    assert forall|m: int, t: int| 0 <= m < bit(n as usize) && 0 <= t < n implies dist[m][t]
        == cost_table(g, s)[m][t] && pred[m][t] == pred_table(g, s)[m][t] by {
        assert(entry_relaxed(g, s, dist, pred, bit(n as usize), 0, 0, m as usize, t as usize));
        lemma_mask_stays_in_range(m as usize, t as usize, n as usize);
        lemma_tables(g, s, m as usize, t as usize);
    }
    lemma_bit_positive(n as usize);
    lemma_tables(g, s, 0, 0);
    assert forall|m: int| 0 <= m < bit(n as usize) implies dist[m] == cost_table(g, s)[m] && pred[m]
        == pred_table(g, s)[m] by {
        assert(dist[m] =~= cost_table(g, s)[m]);
        assert(pred[m] =~= pred_table(g, s)[m]);
    }
    assert(dist =~= cost_table(g, s));
    assert(pred =~= pred_table(g, s));
}

/// One solve of the travelling-salesman problem on a borrowed cost matrix.
pub struct TspSolver<'a> {
    graph: &'a Vec<Vec<i32>>,
    n: usize,
    start_node: usize,
    dp: Vec<Vec<i32>>,
    parent: Vec<Vec<usize>>,
}

impl<'a> TspSolver<'a> {
    /// The cost matrix.
    pub closed spec fn costs(&self) -> Seq<Seq<i32>> {
        self.graph.deep_view()
    }

    /// The node at which every tour starts and ends.
    pub closed spec fn start(&self) -> usize {
        self.start_node
    }

    /// The cost table, by visited set and last node.
    pub closed spec fn dist(&self) -> Seq<Seq<i32>> {
        self.dp.deep_view()
    }

    /// The predecessor table, by visited set and last node.
    pub closed spec fn pred(&self) -> Seq<Seq<usize>> {
        self.parent.deep_view()
    }

    /// The node count that the solver keeps agrees with the matrix.
    pub closed spec fn counted(&self) -> bool {
        self.n == self.graph.len()
    }

    /// The invariant of the solver: a valid matrix with at least one node,
    /// a start node in it, and two tables of the right shape whose entries
    /// are costs up to the sentinel and nodes of the graph.
    pub open spec fn wf(&self) -> bool {
        let n = self.costs().len();
        &&& self.counted()
        &&& is_cost_matrix(self.costs())
        &&& 0 < n
        &&& self.start() < n
        &&& is_table(self.dist(), n)
        &&& is_table(self.pred(), n)
        &&& forall|m: int, t: int|
            0 <= m < self.dist().len() && 0 <= t < n ==> 0 <= #[trigger] self.dist()[m][t] <= INF
        &&& forall|m: int, t: int|
            0 <= m < self.pred().len() && 0 <= t < n ==> #[trigger] self.pred()[m][t] < n
    }

    /// Nothing has been computed yet.
    pub open spec fn is_fresh(&self) -> bool {
        fresh_tables(self.costs(), self.start(), self.dist(), self.pred())
    }

    /// Both tables hold the values of the recurrence.
    pub open spec fn is_solved(&self) -> bool {
        &&& self.dist() == cost_table(self.costs(), self.start())
        &&& self.pred() == pred_table(self.costs(), self.start())
    }

    /// Allocates both tables for `graph`, one row for every visited set, and
    /// records that the walk of the start node alone costs nothing.
    pub fn new(graph: &'a Vec<Vec<i32>>, start_node: usize) -> (solver: Self)
        requires
            is_cost_matrix(graph.deep_view()),
            start_node < graph.len(),
        ensures
            solver.wf(),
            solver.is_fresh(),
            solver.costs() == graph.deep_view(),
            solver.start() == start_node,
    {
        let n = graph.len();
        proof {
            lemma_bit_bounds(start_node, n);
        }
        let mut dp = vec![vec![INF; n]; 1 << n];
        let parent = vec![vec![0; n]; 1 << n];
        dp[1 << start_node][start_node] = 0;
        TspSolver { graph, n, start_node, dp, parent }
    }

    /// Fills both tables. Visited sets are taken in increasing order of
    /// their masks, so every state is final before a walk is extended from
    /// it.
    pub fn compute_dp_tables(&mut self)
        requires
            old(self).wf(),
            old(self).is_fresh(),
        ensures
            final(self).wf(),
            final(self).is_solved(),
            final(self).costs() == old(self).costs(),
            final(self).start() == old(self).start(),
    {
        let ghost g = self.costs();
        let ghost s = self.start();
        let n = self.n;
        proof {
            lemma_bit_positive(n);
            lemma_fresh_is_relaxed(g, s, self.dist(), self.pred());
        }
        let limit: usize = 1 << n;
        for mask in 1..limit
            invariant
                is_cost_matrix(g),
                0 < n == g.len(),
                s < n,
                limit == bit(n),
                self.n == n,
                self.graph == old(self).graph,
                self.start_node == old(self).start_node,
                g == self.graph.deep_view(),
                s == self.start_node,
                relaxed_to(g, s, self.dp.deep_view(), self.parent.deep_view(), mask, 0, 0),
        {
            for u in 0..n
                invariant
                    is_cost_matrix(g),
                    0 < n == g.len(),
                    s < n,
                    1 <= mask < limit,
                    limit == bit(n),
                    self.n == n,
                    self.graph == old(self).graph,
                    self.start_node == old(self).start_node,
                    g == self.graph.deep_view(),
                    s == self.start_node,
                    relaxed_to(
                        g,
                        s,
                        self.dp.deep_view(),
                        self.parent.deep_view(),
                        mask,
                        u as nat,
                        0,
                    ),
            {
                proof {
                    lemma_rows(self.dp, n as nat, mask);
                }
                if (mask >> u) & 1 == 1 && self.dp[mask][u] != INF {
                    for v in 0..n
                        invariant
                            is_cost_matrix(g),
                            0 < n == g.len(),
                            s < n,
                            1 <= mask < limit,
                            u < n,
                            limit == bit(n),
                            has_bit(mask, u),
                            self.n == n,
                            self.graph == old(self).graph,
                            self.start_node == old(self).start_node,
                            g == self.graph.deep_view(),
                            s == self.start_node,
                            relaxed_to(
                                g,
                                s,
                                self.dp.deep_view(),
                                self.parent.deep_view(),
                                mask,
                                u as nat,
                                v as nat,
                            ),
                    {
                        let ghost dist = self.dp.deep_view();
                        let ghost pred = self.parent.deep_view();
                        proof {
                            assert(entry_relaxed(g, s, dist, pred, mask, u as nat, v as nat, mask, u));
                            lemma_remove_present(mask, u);
                            lemma_best_among_range(g, s, mask, u, n as nat);
                            lemma_mask_stays_in_range(mask, v, n);
                            assert(0 <= g[u as int][v as int] <= INF);
                            lemma_rows(self.dp, n as nat, mask);
                            lemma_rows(self.dp, n as nat, (mask | bit(v)) as usize);
                            lemma_rows(self.parent, n as nat, (mask | bit(v)) as usize);
                            lemma_rows(*self.graph, n as nat, u);
                        }
                        if !((mask >> v) & 1 == 1) && self.graph[u][v] != INF {
                            let next_mask = mask | (1 << v);
                            proof {
                                lemma_insert_absent(mask, v);
                                assert(entry_relaxed(
                                    g,
                                    s,
                                    dist,
                                    pred,
                                    mask,
                                    u as nat,
                                    v as nat,
                                    next_mask,
                                    v,
                                ));
                                lemma_best_among_range(g, s, next_mask, v, u as nat);
                            }
                            let new_cost = self.dp[mask][u] + self.graph[u][v];
                            if new_cost < self.dp[next_mask][v] {
                                self.dp[next_mask][v] = new_cost;
                                self.parent[next_mask][v] = u;
                                proof {
                                    lemma_take_edge(
                                        g,
                                        s,
                                        dist,
                                        pred,
                                        self.dp.deep_view(),
                                        self.parent.deep_view(),
                                        mask,
                                        u,
                                        v,
                                        new_cost,
                                    );
                                }
                            } else {
                                proof {
                                    lemma_skip_edge(g, s, dist, pred, mask, u, v);
                                }
                            }
                        } else {
                            proof {
                                lemma_skip_edge(g, s, dist, pred, mask, u, v);
                            }
                        }
                    }
                    proof {
                        lemma_node_done(g, s, self.dp.deep_view(), self.parent.deep_view(), mask, u);
                    }
                } else {
                    proof {
                        lemma_skip_node(g, s, self.dp.deep_view(), self.parent.deep_view(), mask, u);
                    }
                }
            }
            proof {
                lemma_mask_done(g, s, self.dp.deep_view(), self.parent.deep_view(), mask);
            }
        }
        proof {
            lemma_all_done(g, s, self.dp.deep_view(), self.parent.deep_view());
            lemma_tables(g, s, 0, 0);
            assert forall|m: int, t: int| 0 <= m < self.dist().len() && 0 <= t < n implies 0
                <= #[trigger] self.dist()[m][t] <= INF by {
                lemma_tables(g, s, m as usize, t as usize);
                lemma_best_cost_range(g, s, m as usize, t as usize);
            }
            assert forall|m: int, t: int| 0 <= m < self.pred().len() && 0 <= t < n implies (
            #[trigger] self.pred()[m][t]) < n by {
                lemma_tables(g, s, m as usize, t as usize);
                lemma_best_pred_range(g, s, m as usize, t as usize);
            }
        }
    }

    /// Runs the three phases: fills the tables, finds the cheapest way to
    /// close a tour from the state that holds every node, and reads the
    /// tour back.
    pub fn solve(&mut self) -> (result: Option<(i32, Vec<usize>)>)
        requires
            old(self).wf(),
            old(self).is_fresh(),
        ensures
            final(self).wf(),
            final(self).is_solved(),
            final(self).costs() == old(self).costs(),
            final(self).start() == old(self).start(),
            answer(result) == held_karp(old(self).costs(), old(self).start()),
            is_solution(old(self).costs(), old(self).start(), answer(result)),
    {
        self.compute_dp_tables();
        let ghost g = self.costs();
        let ghost s = self.start();
        proof {
            lemma_bit_positive(self.n);
        }
        let final_mask = (1 << self.n) - 1;
        let found = self.find_minimum_tour_details(final_mask);
        proof {
            assert(final_mask == full_mask(self.n));
            lemma_best_closing(g, s, g.len());
            lemma_held_karp_optimal(g, s);
            assert forall|j: usize| j < g.len() implies #[trigger] self.closing(final_mask, j)
                == tour_through(g, s, j) by {
                lemma_tables(g, s, final_mask, j);
            }
            match found {
                Some((cost, last)) => {
                    assert(self.closing(final_mask, last) == tour_through(g, s, last));
                    match best_closing_among(g, s, g.len()) {
                        Some(i) => {
                            assert(self.closing(final_mask, i) == tour_through(g, s, i));
                            assert(i == last);
                        },
                        None => {
                            assert(false);
                        },
                    }
                },
                None => {
                    match best_closing_among(g, s, g.len()) {
                        Some(i) => {
                            assert(self.closing(final_mask, i) == tour_through(g, s, i));
                            assert(false);
                        },
                        None => {},
                    }
                },
            }
        }
        if let Some((min_tour_cost, last_node_idx)) = found {
            let path = self.reconstruct_tour(last_node_idx, final_mask);
            Some((min_tour_cost, path))
        } else {
            None
        }
    }

    /// Finds the cheapest way to close a tour from the states of
    /// `final_mask`: the least closing cost below the sentinel, and the
    /// first node that attains it.
    pub fn find_minimum_tour_details(&self, final_mask: usize) -> (found: Option<(i32, usize)>)
        requires
            self.wf(),
            final_mask < bit(self.costs().len() as usize),
        ensures
            match found {
                Some((cost, last)) => {
                    &&& last < self.costs().len()
                    &&& cost < INF
                    &&& cost == self.closing(final_mask, last)
                    &&& forall|j: usize|
                        j < self.costs().len() ==> cost <= #[trigger] self.closing(final_mask, j)
                    &&& forall|j: usize| j < last ==> cost < #[trigger] self.closing(final_mask, j)
                },
                None => forall|j: usize|
                    j < self.costs().len() ==> INF <= #[trigger] self.closing(final_mask, j),
            },
    {
        let mut min_tour_cost = INF;
        let mut best_last_node: Option<usize> = None;
        for i in 0..self.n
            invariant
                self.wf(),
                final_mask < bit(self.costs().len() as usize),
                min_tour_cost <= INF,
                forall|j: usize| j < i ==> min_tour_cost <= #[trigger] self.closing(final_mask, j),
                min_tour_cost < INF ==> {
                    &&& best_last_node is Some
                    &&& best_last_node->0 < i
                    &&& min_tour_cost == self.closing(final_mask, best_last_node->0)
                    &&& forall|j: usize|
                        j < best_last_node->0 ==> min_tour_cost < #[trigger] self.closing(
                            final_mask,
                            j,
                        )
                },
        {
            proof {
                let g = self.costs();
                assert(0 <= self.dist()[final_mask as int][i as int] <= INF);
                assert(0 <= g[i as int][self.start_node as int] <= INF);
            }
            if self.dp[final_mask][i] != INF && self.graph[i][self.start_node] != INF {
                let current_total_cost = self.dp[final_mask][i] + self.graph[i][self.start_node];
                if current_total_cost < min_tour_cost {
                    min_tour_cost = current_total_cost;
                    best_last_node = Some(i);
                }
            }
        }
        if min_tour_cost == INF {
            None
        } else {
            Some((min_tour_cost, best_last_node.unwrap()))
        }
    }

    /// The cost of closing a tour from the state `(mask, i)` of the cost
    /// table.
    pub open spec fn closing(&self, mask: usize, i: usize) -> int {
        closing_cost(self.costs(), self.start(), self.dist()[mask as int][i as int] as int, i)
    }

    /// Reads the tour that ends in `last_node_idx` back from the
    /// predecessor links, starting at the state of `final_mask`, and closes
    /// it with the start node. At most one node per node of the graph is
    /// read, whatever the links hold.
    pub fn reconstruct_tour(&self, last_node_idx: usize, final_mask: usize) -> (path: Vec<usize>)
        requires
            self.wf(),
            last_node_idx < self.costs().len(),
            final_mask < bit(self.costs().len() as usize),
        ensures
            path@ == walk_back(
                self.pred(),
                self.start(),
                final_mask,
                last_node_idx,
                self.costs().len(),
            ).push(self.start()),
    {
        let ghost whole = walk_back(
            self.pred(),
            self.start(),
            final_mask,
            last_node_idx,
            self.costs().len(),
        );
        let mut path = Vec::with_capacity(self.n + 1);
        let mut current_city_idx = last_node_idx;
        let mut current_mask_for_reconstruction = final_mask;
        let mut i: usize = 0;
        while i < self.n
            invariant_except_break
                whole == joined(
                    walk_back(
                        self.pred(),
                        self.start(),
                        current_mask_for_reconstruction,
                        current_city_idx,
                        (self.n - i) as nat,
                    ),
                    path@,
                ),
            invariant
                self.wf(),
                i <= self.n,
                current_city_idx < self.n,
                current_mask_for_reconstruction < bit(self.n),
            ensures
                whole == joined(Seq::empty(), path@),
            decreases self.n - i,
        {
            let ghost before = path@;
            let ghost rest = walk_back(
                self.pred(),
                self.start(),
                current_mask_for_reconstruction,
                current_city_idx,
                (self.n - i) as nat,
            );
            path.push(current_city_idx);
            proof {
                assert(path@.reverse() =~= seq![current_city_idx] + before.reverse());
                lemma_bit_bounds(self.start_node, self.n);
                lemma_mask_stays_in_range(current_mask_for_reconstruction, current_city_idx, self.n);
                lemma_rows(self.parent, self.n as nat, current_mask_for_reconstruction);
            }
            if current_mask_for_reconstruction == (1 << self.start_node) && current_city_idx
                == self.start_node {
                proof {
                    assert(rest =~= seq![current_city_idx]);
                    assert(whole =~= joined(Seq::empty(), path@));
                }
                break ;
            }
            let prev_city_idx = self.parent[current_mask_for_reconstruction][current_city_idx];
            proof {
                assert(prev_city_idx == self.pred()[current_mask_for_reconstruction as int][current_city_idx as int]);
                let shorter = walk_back(
                    self.pred(),
                    self.start(),
                    current_mask_for_reconstruction ^ bit(current_city_idx),
                    prev_city_idx,
                    (self.n - i - 1) as nat,
                );
                assert(rest == shorter.push(current_city_idx));
                assert(whole =~= joined(shorter, path@));
            }
            current_mask_for_reconstruction = current_mask_for_reconstruction ^ (1
                << current_city_idx);
            current_city_idx = prev_city_idx;
            i += 1;
        }
        assert(whole =~= path@.reverse());
        let mut tour = reversed(&path);
        assert(tour@ =~= whole);
        tour.push(self.start_node);
        tour
    }
}

/// The walk that remains to be read, followed by the nodes read so far,
/// which were recorded from the last to the first.
spec fn joined(rest: Seq<usize>, recorded: Seq<usize>) -> Seq<usize> {
    rest + recorded.reverse()
}

/// A row of a table of vectors is as long as the row of its view.
proof fn lemma_rows<T: DeepView>(t: Vec<Vec<T>>, n: nat, m: usize)
    requires
        m < t.len(),
        t.deep_view()[m as int].len() == n,
    ensures
        t[m as int].len() == n,
        t.deep_view().len() == t.len(),
{
}

/// The elements of `v` from the last to the first.
fn reversed(v: &Vec<usize>) -> (r: Vec<usize>)
    ensures
        r@ == v@.reverse(),
{
    let mut r = Vec::with_capacity(v.len());
    let mut i = v.len();
    while i > 0
        invariant
            i <= v.len(),
            r.len() == v.len() - i,
            forall|j: int| 0 <= j < r.len() ==> r[j] == v[v.len() - 1 - j],
        decreases i,
    {
        i -= 1;
        r.push(v[i]);
    }
    assert(r@ =~= v@.reverse());
    r
}

} // verus!
