//! The model of the dense engine: a matrix of distances, one of
//! predecessors and one of ranks, each row of which is the predecessor
//! record of its source, and what a relaxation pass does to them.

use vstd::prelude::*;
use crate::graph::{
    Edge, Graph, Walk, connects, cost, exact, head, lemma_cost_single, lemma_exact_reversed,
    lemma_exact_unique, lemma_split, lemma_stay, lemma_step_on, lemma_walk_nodes,
    lemma_within_extended, lemma_within_joined, lemma_within_stay, lemma_within_step, stay,
    step_on, tail, within,
};
use crate::record::{
    before, hangs, lemma_tree_extended, lemma_tree_improves, record_ok, supports, tree_ok,
};

verus! {

/// The three matrices, seen as natural numbers and node indices.
pub struct Matrices {
    pub dist: Seq<Seq<nat>>,
    pub pred: Seq<Seq<Option<int>>>,
    pub rank: Seq<Seq<nat>>,
}

impl Matrices {
    /// All three matrices are `n` by `n`.
    pub open spec fn square(self, n: nat) -> bool {
        &&& self.dist.len() == n
        &&& self.pred.len() == n
        &&& self.rank.len() == n
        &&& forall|u: int|
            0 <= u < n ==> (#[trigger] self.dist[u]).len() == n && self.pred[u].len() == n
                && self.rank[u].len() == n
    }

    /// The matrices with the cell of `(u, v)` replaced.
    pub open spec fn with_cell(self, u: int, v: int, d: nat, p: Option<int>, r: nat) -> Matrices {
        Matrices {
            dist: self.dist.update(u, self.dist[u].update(v, d)),
            pred: self.pred.update(u, self.pred[u].update(v, p)),
            rank: self.rank.update(u, self.rank[u].update(v, r)),
        }
    }

    /// The matrices after an edge from `a` to `b` of weight `w` was offered:
    /// it becomes the way from `a` to `b` if it is cheaper than what is there.
    pub open spec fn seeded(self, a: int, b: int, w: nat) -> Matrices {
        if w < self.dist[a][b] {
            self.with_cell(a, b, w, Some(a), self.rank[a][a] + 1)
        } else {
            self
        }
    }
}

/// Every row is a tree rooted at its source.
pub open spec fn trees(g: Graph, cap: nat, m: Matrices) -> bool {
    forall|u: int|
        0 <= u < g.n ==> #[trigger] tree_ok(g, cap, u, m.dist[u], m.pred[u], m.rank[u])
}

/// No distance exceeds the cap.
pub open spec fn capped(g: Graph, cap: nat, m: Matrices) -> bool {
    forall|u: int, v: int| 0 <= u < g.n && 0 <= v < g.n ==> #[trigger] m.dist[u][v] <= cap
}

/// Every distance below the cap is the cost of some walk.
pub open spec fn sound(g: Graph, cap: nat, m: Matrices) -> bool {
    forall|u: int, v: int|
        0 <= u < g.n && 0 <= v < g.n && #[trigger] m.dist[u][v] < cap ==> within(
            g,
            u,
            v,
            m.dist[u][v],
        )
}

/// Every rank lies below the bound.
pub open spec fn ranked(g: Graph, m: Matrices, bound: nat) -> bool {
    forall|u: int, v: int| 0 <= u < g.n && 0 <= v < g.n ==> #[trigger] m.rank[u][v] < bound
}

/// The distance between the ends of edge `i` is at most its weight.
pub open spec fn edge_direct(g: Graph, m: Matrices, i: int) -> bool {
    let e = g.edges[i];
    m.dist[e.a][e.b] <= e.w && m.dist[e.b][e.a] <= e.w
}

/// No edge is cheaper than the distance between its ends.
pub open spec fn direct(g: Graph, m: Matrices) -> bool {
    forall|i: int| 0 <= i < g.edges.len() ==> #[trigger] edge_direct(g, m, i)
}

/// The matrices make sense for the graph, whether or not a pass has run.
pub open spec fn sane(g: Graph, cap: nat, m: Matrices, bound: nat) -> bool {
    &&& g.well_formed()
    &&& m.square(g.n)
    &&& trees(g, cap, m)
    &&& capped(g, cap, m)
    &&& sound(g, cap, m)
    &&& ranked(g, m, bound)
}

/// Every node strictly inside the walk lies below `k`.
pub open spec fn interior_below(p: Walk, k: int) -> bool {
    forall|i: int| 0 < i < p.nodes.len() - 1 ==> #[trigger] p.nodes[i] < k
}

/// No walk whose inner nodes all lie below `k` undercuts the distance between its ends.
pub open spec fn through(g: Graph, m: Matrices, k: int) -> bool {
    forall|p: Walk, u: int, v: int|
        g.has_node(u) && #[trigger] connects(g, p, u, v) && interior_below(p, k)
            ==> m.dist[u][v] <= cost(g, p.steps)
}

/// The matrices are complete: every row is the full record of its source.
pub open spec fn closed(g: Graph, cap: nat, m: Matrices) -> bool {
    &&& g.well_formed()
    &&& m.square(g.n)
    &&& forall|u: int|
        0 <= u < g.n ==> #[trigger] record_ok(g, cap, u, m.dist[u], m.pred[u], m.rank[u])
}

/// Matrices that make sense for a graph do so when edges are added to it.
pub proof fn lemma_sane_extended(g: Graph, cap: nat, m: Matrices, bound: nat, more: Seq<Edge>)
    requires
        sane(g, cap, m, bound),
        g.extended(more).well_formed(),
    ensures
        sane(g.extended(more), cap, m, bound),
{
    let h = g.extended(more);
    assert forall|u: int| 0 <= u < h.n implies #[trigger] tree_ok(
        h,
        cap,
        u,
        m.dist[u],
        m.pred[u],
        m.rank[u],
    ) by {
        assert(tree_ok(g, cap, u, m.dist[u], m.pred[u], m.rank[u]));
        lemma_tree_extended(g, more, cap, u, m.dist[u], m.pred[u], m.rank[u]);
    }
    assert forall|u: int, v: int|
        0 <= u < h.n && 0 <= v < h.n && #[trigger] m.dist[u][v] < cap implies within(
        h,
        u,
        v,
        m.dist[u][v],
    ) by {
        lemma_within_extended(g, more, u, v, m.dist[u][v]);
    }
}

/// Offering an edge of the graph keeps the matrices sane, lowers no
/// distance but that between its ends, and makes that one at most its weight.
pub proof fn lemma_seeded(g: Graph, cap: nat, m: Matrices, bound: nat, a: int, b: int, i: int)
    requires
        sane(g, cap, m, bound),
        g.has_node(a),
        g.has_node(b),
        0 <= i < g.edges.len(),
        g.edges[i].joins(a, b),
    ensures
        sane(g, cap, m.seeded(a, b, g.edges[i].w), bound + 1),
        m.seeded(a, b, g.edges[i].w).dist[a][b] <= g.edges[i].w,
        forall|x: int, y: int|
            0 <= x < g.n && 0 <= y < g.n ==> #[trigger] m.seeded(a, b, g.edges[i].w).dist[x][y]
                <= m.dist[x][y],
{
    let w = g.edges[i].w;
    let next = m.seeded(a, b, w);
    assert(tree_ok(g, cap, a, m.dist[a], m.pred[a], m.rank[a]));
    if w < m.dist[a][b] {
        lemma_tree_improves(g, cap, a, m.dist[a], m.pred[a], m.rank[a], a, b, i);
        assert forall|u: int| 0 <= u < g.n implies #[trigger] tree_ok(
            g,
            cap,
            u,
            next.dist[u],
            next.pred[u],
            next.rank[u],
        ) by {
            assert(tree_ok(g, cap, u, m.dist[u], m.pred[u], m.rank[u]));
        }
        assert(m.dist[a][b] <= cap);
        lemma_within_stay(g, a);
        lemma_within_step(g, a, a, 0, i, b);
        assert forall|u: int, v: int|
            0 <= u < g.n && 0 <= v < g.n && #[trigger] next.dist[u][v] < cap implies within(
            g,
            u,
            v,
            next.dist[u][v],
        ) by {
            if !(u == a && v == b) {
                assert(next.dist[u][v] == m.dist[u][v]);
            }
        }
        assert forall|u: int, v: int| 0 <= u < g.n && 0 <= v < g.n implies #[trigger] next.dist[u][v]
            <= cap by {
            assert(m.dist[u][v] <= cap);
        }
        assert forall|u: int, v: int| 0 <= u < g.n && 0 <= v < g.n implies #[trigger] next.rank[u][v]
            < bound + 1 by {
            assert(m.rank[u][v] < bound);
            assert(m.rank[a][a] < bound);
        }
        assert forall|x: int, y: int| 0 <= x < g.n && 0 <= y < g.n implies #[trigger] next.dist[x][y]
            <= m.dist[x][y] by {}
        assert(next.square(g.n)) by {
            assert forall|u: int| 0 <= u < g.n implies (#[trigger] next.dist[u]).len() == g.n
                && next.pred[u].len() == g.n && next.rank[u].len() == g.n by {
                assert(m.dist[u].len() == g.n);
            }
        }
    } else {
        assert forall|u: int, v: int| 0 <= u < g.n && 0 <= v < g.n implies #[trigger] next.rank[u][v]
            < bound + 1 by {
            assert(m.rank[u][v] < bound);
        }
    }
}

/// With every edge accounted for, no walk without inner nodes undercuts a distance.
pub proof fn lemma_through_nothing(g: Graph, cap: nat, m: Matrices, bound: nat)
    requires
        sane(g, cap, m, bound),
        direct(g, m),
    ensures
        through(g, m, 0),
{
    assert forall|p: Walk, u: int, v: int|
        g.has_node(u) && #[trigger] connects(g, p, u, v) && interior_below(
            p,
            0,
        ) implies m.dist[u][v] <= cost(g, p.steps) by {
        assert(tree_ok(g, cap, u, m.dist[u], m.pred[u], m.rank[u]));
        if p.steps.len() == 0 {
        } else if p.steps.len() == 1 {
            let i = p.steps[0];
            lemma_cost_single(g, p.steps);
            assert(edge_direct(g, m, i));
            assert(g.edges[i].joins(p.nodes[0], p.nodes[0int + 1]));
        } else {
            lemma_walk_nodes(g, p, 1);
            assert(p.nodes[1] < 0);
        }
    }
}

/// Once every node has served as inner node, the matrices are complete.
pub proof fn lemma_through_all(g: Graph, cap: nat, m: Matrices, bound: nat)
    requires
        sane(g, cap, m, bound),
        through(g, m, g.n as int),
    ensures
        closed(g, cap, m),
{
    assert forall|u: int| 0 <= u < g.n implies #[trigger] record_ok(
        g,
        cap,
        u,
        m.dist[u],
        m.pred[u],
        m.rank[u],
    ) by {
        assert(tree_ok(g, cap, u, m.dist[u], m.pred[u], m.rank[u]));
        assert forall|t: int| 0 <= t < g.n implies #[trigger] exact(g, cap, u, t, m.dist[u][t]) by {
            assert(m.dist[u][t] <= cap);
            assert forall|p: Walk| #[trigger] connects(g, p, u, t) implies m.dist[u][t] <= cost(
                g,
                p.steps,
            ) by {
                assert forall|i: int| 0 < i < p.nodes.len() - 1 implies #[trigger] p.nodes[i]
                    < g.n by {
                    lemma_walk_nodes(g, p, i);
                }
            }
        }
    }
}

/// Complete matrices make sense, and account for every edge.
pub proof fn lemma_closed_sane(g: Graph, cap: nat, m: Matrices, bound: nat)
    requires
        closed(g, cap, m),
        ranked(g, m, bound),
    ensures
        sane(g, cap, m, bound),
        direct(g, m),
{
    assert forall|u: int| 0 <= u < g.n implies #[trigger] tree_ok(
        g,
        cap,
        u,
        m.dist[u],
        m.pred[u],
        m.rank[u],
    ) by {
        assert(record_ok(g, cap, u, m.dist[u], m.pred[u], m.rank[u]));
    }
    assert forall|u: int, v: int| 0 <= u < g.n && 0 <= v < g.n implies #[trigger] m.dist[u][v]
        <= cap && (m.dist[u][v] < cap ==> within(g, u, v, m.dist[u][v])) by {
        assert(record_ok(g, cap, u, m.dist[u], m.pred[u], m.rank[u]));
        assert(exact(g, cap, u, v, m.dist[u][v]));
    }
    assert forall|i: int| 0 <= i < g.edges.len() implies #[trigger] edge_direct(g, m, i) by {
        let e = g.edges[i];
        assert(g.has_node(e.a) && g.has_node(e.b));
        assert(record_ok(g, cap, e.a, m.dist[e.a], m.pred[e.a], m.rank[e.a]));
        assert(record_ok(g, cap, e.b, m.dist[e.b], m.pred[e.b], m.rank[e.b]));
        assert(exact(g, cap, e.a, e.b, m.dist[e.a][e.b]));
        assert(exact(g, cap, e.b, e.a, m.dist[e.b][e.a]));
        lemma_stay(g, e.a);
        lemma_step_on(g, stay(e.a), e.a, e.a, i, e.b);
        assert(connects(g, step_on(stay(e.a), i, e.b), e.a, e.b));
        lemma_stay(g, e.b);
        lemma_step_on(g, stay(e.b), e.b, e.b, i, e.a);
        assert(connects(g, step_on(stay(e.b), i, e.a), e.b, e.a));
    }
}


/// The cell of `(u, v)` is the same in both.
pub open spec fn cell_same(m0: Matrices, m1: Matrices, u: int, v: int) -> bool {
    &&& m1.dist[u][v] == m0.dist[u][v]
    &&& m1.pred[u][v] == m0.pred[u][v]
    &&& m1.rank[u][v] == m0.rank[u][v]
}

/// The cell of `(u, v)` has been relaxed through `k`: where the way through
/// `k` was cheaper, the cell holds its cost and the predecessor that `k`
/// knows for `v`; otherwise it is as it was.
pub open spec fn cell_passed(
    m0: Matrices,
    m1: Matrices,
    k: int,
    bound: nat,
    u: int,
    v: int,
) -> bool {
    let c = m0.dist[u][k] + m0.dist[k][v];
    if c < m0.dist[u][v] {
        &&& m1.dist[u][v] == c
        &&& m1.pred[u][v] == m0.pred[k][v]
        &&& m1.rank[u][v] == bound + m0.rank[k][v]
    } else {
        cell_same(m0, m1, u, v)
    }
}

/// The state of the cell of `(u, v)` when a pass through `k` that works row
/// by row has come to the cell of `(at_u, at_v)`.
pub open spec fn cell_at(
    m0: Matrices,
    m1: Matrices,
    k: int,
    bound: nat,
    at_u: int,
    at_v: int,
    u: int,
    v: int,
) -> bool {
    if u < at_u || (u == at_u && v < at_v) {
        cell_passed(m0, m1, k, bound, u, v)
    } else {
        cell_same(m0, m1, u, v)
    }
}

/// A pass through `k` that started from `m0` has brought the matrices to
/// `m1` on its way to the cell of `(at_u, at_v)`.
pub open spec fn passed_upto(
    m0: Matrices,
    m1: Matrices,
    n: nat,
    k: int,
    bound: nat,
    at_u: int,
    at_v: int,
) -> bool {
    forall|u: int, v: int|
        0 <= u < n && 0 <= v < n ==> #[trigger] cell_at(m0, m1, k, bound, at_u, at_v, u, v)
}

/// No distance of `m1` is above that of `m0`.
pub open spec fn no_higher(m1: Matrices, m0: Matrices, n: nat) -> bool {
    forall|u: int, v: int| 0 <= u < n && 0 <= v < n ==> #[trigger] m1.dist[u][v] <= m0.dist[u][v]
}

/// No distance is above that of the way through `k`.
pub open spec fn pivoted(m: Matrices, n: nat, k: int) -> bool {
    forall|u: int, v: int|
        0 <= u < n && 0 <= v < n ==> #[trigger] m.dist[u][v] <= m.dist[u][k] + m.dist[k][v]
}

/// During a pass through `k`, the row and the column of `k` stay as they were.
pub proof fn lemma_pivot_kept(
    g: Graph,
    cap: nat,
    m0: Matrices,
    m1: Matrices,
    bound: nat,
    k: int,
    at_u: int,
    at_v: int,
    x: int,
)
    requires
        sane(g, cap, m0, bound),
        0 <= k < g.n,
        0 <= x < g.n,
        passed_upto(m0, m1, g.n, k, bound, at_u, at_v),
    ensures
        cell_same(m0, m1, x, k),
        cell_same(m0, m1, k, x),
{
    assert(tree_ok(g, cap, k, m0.dist[k], m0.pred[k], m0.rank[k]));
    assert(cell_at(m0, m1, k, bound, at_u, at_v, x, k));
    assert(cell_at(m0, m1, k, bound, at_u, at_v, k, x));
}

proof fn lemma_pass_cell(
    g: Graph,
    cap: nat,
    m0: Matrices,
    m1: Matrices,
    bound: nat,
    k: int,
    u: int,
    v: int,
)
    requires
        sane(g, cap, m0, bound),
        0 <= k < g.n,
        0 <= u < g.n,
        0 <= v < g.n,
        passed_upto(m0, m1, g.n, k, bound, g.n as int, 0),
    ensures
        cell_passed(m0, m1, k, bound, u, v),
        m1.dist[u][v] <= m0.dist[u][v],
        m1.dist[u][v] <= m0.dist[u][k] + m0.dist[k][v],
        m1.dist[u][k] == m0.dist[u][k],
        m1.dist[k][v] == m0.dist[k][v],
{
    assert(cell_at(m0, m1, k, bound, g.n as int, 0, u, v));
    lemma_pivot_kept(g, cap, m0, m1, bound, k, g.n as int, 0, u);
    lemma_pivot_kept(g, cap, m0, m1, bound, k, g.n as int, 0, v);
}

proof fn lemma_pass_hangs(
    g: Graph,
    cap: nat,
    m0: Matrices,
    m1: Matrices,
    bound: nat,
    k: int,
    u: int,
    v: int,
)
    requires
        sane(g, cap, m0, bound),
        0 <= k < g.n,
        0 <= u < g.n,
        0 <= v < g.n,
        passed_upto(m0, m1, g.n, k, bound, g.n as int, 0),
    ensures
        hangs(g, cap, u, m1.dist[u], m1.pred[u], m1.rank[u], v),
{
    if v != u && m1.dist[u][v] < cap {
        lemma_pass_cell(g, cap, m0, m1, bound, k, u, v);
        assert(tree_ok(g, cap, u, m0.dist[u], m0.pred[u], m0.rank[u]));
        assert(tree_ok(g, cap, k, m0.dist[k], m0.pred[k], m0.rank[k]));
        let c = m0.dist[u][k] + m0.dist[k][v];
        if c < m0.dist[u][v] {
            assert(v != k);
            assert(hangs(g, cap, k, m0.dist[k], m0.pred[k], m0.rank[k], v));
            let m = m0.pred[k][v].unwrap();
            let i = choose|i: int| #[trigger] supports(g, m0.dist[k], m, i, v);
            lemma_pass_cell(g, cap, m0, m1, bound, k, u, m);
            assert(m0.rank[u][m] < bound);
            assert(supports(g, m1.dist[u], m, i, v));
            assert(before(m1.dist[u], m1.rank[u], m, v));
        } else {
            assert(hangs(g, cap, u, m0.dist[u], m0.pred[u], m0.rank[u], v));
            let m = m0.pred[u][v].unwrap();
            let i = choose|i: int| #[trigger] supports(g, m0.dist[u], m, i, v);
            lemma_pass_cell(g, cap, m0, m1, bound, k, u, m);
            assert(supports(g, m1.dist[u], m, i, v));
            assert(before(m1.dist[u], m1.rank[u], m, v));
        }
    }
}

/// After a pass through `k`, no walk whose inner nodes lie at or below `k`
/// undercuts the distance between its ends.
proof fn lemma_pivot_walk(g: Graph, m0: Matrices, m1: Matrices, k: int, p: Walk, u: int, v: int)
    requires
        g.well_formed(),
        0 <= k < g.n,
        through(g, m0, k),
        no_higher(m1, m0, g.n),
        pivoted(m1, g.n, k),
        g.has_node(u),
        connects(g, p, u, v),
        interior_below(p, k + 1),
    ensures
        m1.dist[u][v] <= cost(g, p.steps),
    decreases p.steps.len(),
{
    lemma_walk_nodes(g, p, p.nodes.len() - 1);
    if interior_below(p, k) {
        assert(m1.dist[u][v] <= m0.dist[u][v]);
    } else {
        let i = choose|i: int| 0 < i < p.nodes.len() - 1 && !(#[trigger] p.nodes[i] < k);
        assert(p.nodes[i] == k);
        lemma_split(g, p, u, v, i);
        let h = head(p, i);
        let r = tail(p, i);
        assert forall|j: int| 0 < j < h.nodes.len() - 1 implies #[trigger] h.nodes[j] < k + 1 by {
            assert(h.nodes[j] == p.nodes[j]);
        }
        assert forall|j: int| 0 < j < r.nodes.len() - 1 implies #[trigger] r.nodes[j] < k + 1 by {
            assert(r.nodes[j] == p.nodes[i + j]);
        }
        lemma_pivot_walk(g, m0, m1, k, h, u, k);
        lemma_pivot_walk(g, m0, m1, k, r, k, v);
        assert(m1.dist[u][v] <= m1.dist[u][k] + m1.dist[k][v]);
    }
}

/// A full pass through `k` keeps the matrices sane and every edge accounted
/// for, and lets `k` serve as inner node.
pub proof fn lemma_pass(g: Graph, cap: nat, m0: Matrices, m1: Matrices, bound: nat, k: int)
    requires
        sane(g, cap, m0, bound),
        direct(g, m0),
        through(g, m0, k),
        0 <= k < g.n,
        m1.square(g.n),
        passed_upto(m0, m1, g.n, k, bound, g.n as int, 0),
    ensures
        sane(g, cap, m1, 2 * bound),
        direct(g, m1),
        through(g, m1, k + 1),
{
    assert forall|u: int| 0 <= u < g.n implies #[trigger] tree_ok(
        g,
        cap,
        u,
        m1.dist[u],
        m1.pred[u],
        m1.rank[u],
    ) by {
        assert(tree_ok(g, cap, u, m0.dist[u], m0.pred[u], m0.rank[u]));
        lemma_pass_cell(g, cap, m0, m1, bound, k, u, u);
        assert forall|v: int| 0 <= v < g.n implies #[trigger] hangs(
            g,
            cap,
            u,
            m1.dist[u],
            m1.pred[u],
            m1.rank[u],
            v,
        ) by {
            lemma_pass_hangs(g, cap, m0, m1, bound, k, u, v);
        }
    }
    assert forall|u: int, v: int| 0 <= u < g.n && 0 <= v < g.n implies #[trigger] m1.dist[u][v]
        <= cap by {
        lemma_pass_cell(g, cap, m0, m1, bound, k, u, v);
        assert(m0.dist[u][v] <= cap);
    }
    assert forall|u: int, v: int|
        0 <= u < g.n && 0 <= v < g.n && #[trigger] m1.dist[u][v] < cap implies within(
        g,
        u,
        v,
        m1.dist[u][v],
    ) by {
        lemma_pass_cell(g, cap, m0, m1, bound, k, u, v);
        if m0.dist[u][k] + m0.dist[k][v] < m0.dist[u][v] {
            assert(m0.dist[u][k] < cap);
            assert(m0.dist[k][v] < cap);
            lemma_within_joined(g, u, k, v, m0.dist[u][k], m0.dist[k][v]);
        } else {
            assert(m0.dist[u][v] < cap);
        }
    }
    assert forall|u: int, v: int| 0 <= u < g.n && 0 <= v < g.n implies #[trigger] m1.rank[u][v] < 2
        * bound by {
        lemma_pass_cell(g, cap, m0, m1, bound, k, u, v);
        assert(m0.rank[u][v] < bound);
        assert(m0.rank[k][v] < bound);
    }
    assert forall|i: int| 0 <= i < g.edges.len() implies #[trigger] edge_direct(g, m1, i) by {
        let e = g.edges[i];
        assert(edge_direct(g, m0, i));
        lemma_pass_cell(g, cap, m0, m1, bound, k, e.a, e.b);
        lemma_pass_cell(g, cap, m0, m1, bound, k, e.b, e.a);
    }
    assert forall|u: int, v: int| 0 <= u < g.n && 0 <= v < g.n implies #[trigger] m1.dist[u][v]
        <= m0.dist[u][v] by {
        lemma_pass_cell(g, cap, m0, m1, bound, k, u, v);
    }
    assert forall|u: int, v: int| 0 <= u < g.n && 0 <= v < g.n implies #[trigger] m1.dist[u][v]
        <= m1.dist[u][k] + m1.dist[k][v] by {
        lemma_pass_cell(g, cap, m0, m1, bound, k, u, v);
    }
    assert forall|p: Walk, u: int, v: int|
        g.has_node(u) && #[trigger] connects(g, p, u, v) && interior_below(
            p,
            k + 1,
        ) implies m1.dist[u][v] <= cost(g, p.steps) by {
        lemma_pivot_walk(g, m0, m1, k, p, u, v);
    }
}


/// The matrices after an edge between `a` and `b` of weight `w` was offered
/// in both directions.
pub open spec fn offered(m: Matrices, a: int, b: int, w: nat) -> Matrices {
    m.seeded(a, b, w).seeded(b, a, w)
}

/// Offering a new edge in both directions keeps the matrices sane for the
/// graph with that edge, and accounts for it.
pub proof fn lemma_offered(g: Graph, cap: nat, m: Matrices, bound: nat, e: Edge)
    requires
        sane(g, cap, m, bound),
        direct(g, m),
        g.has_node(e.a),
        g.has_node(e.b),
    ensures
        sane(g.extended(seq![e]), cap, offered(m, e.a, e.b, e.w), bound + 2),
        direct(g.extended(seq![e]), offered(m, e.a, e.b, e.w)),
        m.dist[e.a][e.b] <= e.w && m.dist[e.b][e.a] <= e.w ==> offered(m, e.a, e.b, e.w) == m,
{
    let h = g.extended(seq![e]);
    let last = g.edges.len() as int;
    assert(h.edges[last] == e);
    assert(h.well_formed()) by {
        assert forall|i: int| 0 <= i < h.edges.len() implies h.has_node((#[trigger] h.edges[i]).a)
            && h.has_node(h.edges[i].b) by {
            if i < last {
                assert(h.edges[i] == g.edges[i]);
            }
        }
    }
    lemma_sane_extended(g, cap, m, bound, seq![e]);
    let m1 = m.seeded(e.a, e.b, e.w);
    lemma_seeded(h, cap, m, bound, e.a, e.b, last);
    let m2 = m1.seeded(e.b, e.a, e.w);
    lemma_seeded(h, cap, m1, bound + 1, e.b, e.a, last);
    assert forall|i: int| 0 <= i < h.edges.len() implies #[trigger] edge_direct(h, m2, i) by {
        let f = h.edges[i];
        assert(m2.dist[f.a][f.b] <= m1.dist[f.a][f.b]);
        assert(m2.dist[f.b][f.a] <= m1.dist[f.b][f.a]);
        assert(m1.dist[f.a][f.b] <= m.dist[f.a][f.b]);
        assert(m1.dist[f.b][f.a] <= m.dist[f.b][f.a]);
        assert(m2.dist[e.a][e.b] <= m1.dist[e.a][e.b]);
        if i < last {
            assert(f == g.edges[i]);
            assert(edge_direct(g, m, i));
        }
    }
}

/// In complete matrices the distance from `u` to `v` is that from `v` to `u`.
pub proof fn lemma_closed_symmetric(g: Graph, cap: nat, m: Matrices, u: int, v: int)
    requires
        closed(g, cap, m),
        g.has_node(u),
        g.has_node(v),
    ensures
        m.dist[u][v] == m.dist[v][u],
{
    assert(record_ok(g, cap, u, m.dist[u], m.pred[u], m.rank[u]));
    assert(record_ok(g, cap, v, m.dist[v], m.pred[v], m.rank[v]));
    assert(exact(g, cap, u, v, m.dist[u][v]));
    assert(exact(g, cap, v, u, m.dist[v][u]));
    lemma_exact_reversed(g, cap, v, u, m.dist[v][u]);
    lemma_exact_unique(g, cap, u, v, m.dist[u][v], m.dist[v][u]);
}

/// In complete matrices no way through a third node is cheaper than the distance.
pub proof fn lemma_closed_pivoted(g: Graph, cap: nat, m: Matrices, k: int)
    requires
        closed(g, cap, m),
        0 <= k < g.n,
    ensures
        pivoted(m, g.n, k),
{
    assert forall|u: int, v: int| 0 <= u < g.n && 0 <= v < g.n implies #[trigger] m.dist[u][v]
        <= m.dist[u][k] + m.dist[k][v] by {
        assert(record_ok(g, cap, u, m.dist[u], m.pred[u], m.rank[u]));
        assert(record_ok(g, cap, k, m.dist[k], m.pred[k], m.rank[k]));
        assert(exact(g, cap, u, v, m.dist[u][v]));
        assert(exact(g, cap, u, k, m.dist[u][k]));
        assert(exact(g, cap, k, v, m.dist[k][v]));
        if m.dist[u][k] < cap && m.dist[k][v] < cap {
            lemma_within_joined(g, u, k, v, m.dist[u][k], m.dist[k][v]);
            let p = choose|p: Walk| #[trigger]
                connects(g, p, u, v) && cost(g, p.steps) <= m.dist[u][k] + m.dist[k][v];
        }
    }
}

} // verus!
