//! The all-pairs engine: dense matrices of distances and predecessors,
//! brought to completion by relaxing every pair through every node, anew
//! whenever edges are added.

use vstd::prelude::*;
use crate::errors::Error;
use crate::graph::{
    Edge, Graph, exact, lemma_exact_shortest, lemma_within_stay, lemma_within_step, within,
};
use crate::matrix::{
    Matrices, cell_at, closed, direct, edge_direct, lemma_closed_pivoted, lemma_closed_sane,
    lemma_closed_symmetric, lemma_offered, lemma_pass, lemma_pivot_kept, lemma_through_all,
    lemma_through_nothing, offered, passed_upto, pivoted, ranked, sane, through,
};
use crate::record::{
    before, filled, hangs, lemma_chain_traces, pred_view, record_ok, supports, trace_path,
    tree_ok,
};
use crate::shortest_path_algo::{
    EdgeInfo, EdgeWeight, NodeId, PathTrace, ShortestPathAlgo, batch_in_range, batch_view, values,
};

verus! {

/// The largest node universe that the dense engine accepts.
pub const MAX_NODE_ID: NodeId = 500;

/// The distances of a matrix, as the model sees them.
pub open spec fn weights_view<U: EdgeWeight>(dist: Seq<Vec<U>>) -> Seq<Seq<nat>> {
    Seq::new(dist.len(), |u: int| values(dist[u]@))
}

/// The predecessors of a matrix, as the model sees them.
pub open spec fn links_view(trace: Seq<Vec<Option<NodeId>>>) -> Seq<Seq<Option<int>>> {
    Seq::new(trace.len(), |u: int| pred_view(trace[u]@))
}

/// The three matrices of an engine, as the model sees them.
pub open spec fn matrices<U: EdgeWeight>(
    dist: Seq<Vec<U>>,
    trace: Seq<Vec<Option<NodeId>>>,
    rank: Seq<Seq<nat>>,
) -> Matrices {
    Matrices { dist: weights_view(dist), pred: links_view(trace), rank }
}

/// The predecessors before any relaxation: every node hangs from the source of its row.
pub open spec fn fresh_links(n: nat) -> Seq<Seq<Option<int>>> {
    Seq::new(n, |u: int| Seq::new(n, |v: int| Some(u)))
}

/// The ranks before any relaxation: the source of a row comes first in it.
pub open spec fn fresh_ranks(n: nat) -> Seq<Seq<nat>> {
    Seq::new(
        n,
        |u: int|
            Seq::new(
                n,
                |v: int|
                    if u == v {
                        0nat
                    } else {
                        1nat
                    },
            ),
    )
}

/// The weight of the lightest edge that links `u` and `v`, or `cap` where no
/// edge lighter than that links them.
pub open spec fn lightest(edges: Seq<Edge>, cap: nat, u: int, v: int) -> nat
    decreases edges.len(),
{
    if edges.len() == 0 {
        cap
    } else {
        let rest = lightest(edges.drop_last(), cap, u, v);
        if edges.last().joins(u, v) && edges.last().w < rest {
            edges.last().w
        } else {
            rest
        }
    }
}

/// The distance that a pair starts from: 0 from a node to itself, and
/// otherwise the weight of the lightest edge between the two, up to the cap.
pub open spec fn seed(edges: Seq<Edge>, cap: nat, u: int, v: int) -> nat {
    if u == v {
        0
    } else {
        lightest(edges, cap, u, v)
    }
}

proof fn lemma_lightest(edges: Seq<Edge>, cap: nat, u: int, v: int)
    ensures
        lightest(edges, cap, u, v) <= cap,
        lightest(edges, cap, u, v) < cap ==> exists|i: int|
            0 <= i < edges.len() && (#[trigger] edges[i]).joins(u, v) && edges[i].w == lightest(
                edges,
                cap,
                u,
                v,
            ),
        forall|i: int|
            0 <= i < edges.len() && (#[trigger] edges[i]).joins(u, v) ==> lightest(
                edges,
                cap,
                u,
                v,
            ) <= edges[i].w,
    decreases edges.len(),
{
    if edges.len() > 0 {
        let front = edges.drop_last();
        lemma_lightest(front, cap, u, v);
        let rest = lightest(front, cap, u, v);
        if edges.last().joins(u, v) && edges.last().w < rest {
            assert(edges[edges.len() - 1] == edges.last());
        } else if rest < cap {
            let i = choose|i: int|
                0 <= i < front.len() && (#[trigger] front[i]).joins(u, v) && front[i].w == rest;
            assert(edges[i] == front[i]);
        }
        assert forall|i: int| 0 <= i < edges.len() && (#[trigger] edges[i]).joins(
            u,
            v,
        ) implies lightest(edges, cap, u, v) <= edges[i].w by {
            if i < front.len() {
                assert(edges[i] == front[i]);
            }
        }
    }
}

/// Matrices that hold the seed of every pair, with every node hanging from
/// the source of its row, make sense and account for every edge.
proof fn lemma_fresh(g: Graph, cap: nat, m: Matrices)
    requires
        g.well_formed(),
        m.square(g.n),
        m.pred == fresh_links(g.n),
        m.rank == fresh_ranks(g.n),
        forall|u: int, v: int|
            0 <= u < g.n && 0 <= v < g.n ==> #[trigger] m.dist[u][v] == seed(g.edges, cap, u, v),
    ensures
        sane(g, cap, m, 2),
        direct(g, m),
{
    assert forall|u: int, v: int| 0 <= u < g.n && 0 <= v < g.n implies #[trigger] m.dist[u][v]
        <= cap && (m.dist[u][v] < cap ==> within(g, u, v, m.dist[u][v])) && hangs(
        g,
        cap,
        u,
        m.dist[u],
        m.pred[u],
        m.rank[u],
        v,
    ) by {
        lemma_lightest(g.edges, cap, u, v);
        assert(m.dist[u][u] == seed(g.edges, cap, u, u));
        if u == v {
            lemma_within_stay(g, u);
        } else if m.dist[u][v] < cap {
            let i = choose|i: int|
                0 <= i < g.edges.len() && (#[trigger] g.edges[i]).joins(u, v) && g.edges[i].w
                    == lightest(g.edges, cap, u, v);
            lemma_within_stay(g, u);
            lemma_within_step(g, u, u, 0, i, v);
            assert(supports(g, m.dist[u], u, i, v));
            assert(before(m.dist[u], m.rank[u], u, v));
        }
    }
    assert forall|u: int| 0 <= u < g.n implies #[trigger] tree_ok(
        g,
        cap,
        u,
        m.dist[u],
        m.pred[u],
        m.rank[u],
    ) by {
        assert(m.dist[u][u] == seed(g.edges, cap, u, u));
        assert forall|v: int| 0 <= v < g.n implies #[trigger] hangs(
            g,
            cap,
            u,
            m.dist[u],
            m.pred[u],
            m.rank[u],
            v,
        ) by {
            assert(m.dist[u][v] <= cap);
        }
    }
    assert forall|i: int| 0 <= i < g.edges.len() implies #[trigger] edge_direct(g, m, i) by {
        let e = g.edges[i];
        lemma_lightest(g.edges, cap, e.a, e.b);
        lemma_lightest(g.edges, cap, e.b, e.a);
        assert(m.dist[e.a][e.b] == seed(g.edges, cap, e.a, e.b));
        assert(m.dist[e.b][e.a] == seed(g.edges, cap, e.b, e.a));
    }
    assert forall|u: int, v: int| 0 <= u < g.n && 0 <= v < g.n implies #[trigger] m.rank[u][v]
        < 2 by {}
}

/// The matrix has `n` rows of `n` cells.
pub open spec fn is_square<T>(rows: Seq<Vec<T>>, n: nat) -> bool {
    rows.len() == n && forall|u: int| 0 <= u < n ==> (#[trigger] rows[u])@.len() == n
}

/// Relaxing through any node would change nothing.
pub open spec fn steady(m: Matrices, n: nat) -> bool {
    forall|k: int| 0 <= k < n ==> #[trigger] pivoted(m, n, k)
}

/// No edge of the batch is lighter than the distance between its ends.
pub open spec fn improves_nothing(batch: Seq<Edge>, dist: Seq<Seq<nat>>) -> bool {
    forall|i: int| 0 <= i < batch.len() ==> dist[(#[trigger] batch[i]).a][batch[i].b] <= batch[i].w
}

/// The all-pairs engine. It holds the distance between every two nodes and,
/// for every source, the predecessor of every node on a shortest path.
pub struct FloydWarshall<U: EdgeWeight = u128> {
    n: NodeId,
    dist: Vec<Vec<U>>,
    trace: Vec<Vec<Option<NodeId>>>,
    highest_total_weight: U,
    /// Every edge that the engine was given, in the order given.
    edges: Ghost<Seq<Edge>>,
    /// The ranks by which the predecessor links of every row are known to
    /// lead to its source.
    rank: Ghost<Seq<Seq<nat>>>,
    /// A number above every rank.
    bound: Ghost<nat>,
}

impl<U: EdgeWeight> FloydWarshall<U> {
    /// The engine's matrices, as the model sees them.
    pub closed spec fn model(&self) -> Matrices {
        matrices(self.dist@, self.trace@, self.rank@)
    }

    /// The matrix of distances: for every pair the least cost of a walk
    /// between the two, or the cap where that is not below the cap.
    pub closed spec fn distances(&self) -> Seq<Seq<nat>> {
        weights_view(self.dist@)
    }

    /// In a valid engine every cell of the matrix of distances is exact for
    /// the graph as it is now.
    pub proof fn lemma_distances_exact(&self, u: int, v: int)
        requires
            self.inv(),
            0 <= u < self.graph().n,
            0 <= v < self.graph().n,
        ensures
            self.distances().len() == self.graph().n,
            self.distances()[u].len() == self.graph().n,
            exact(self.graph(), self.cap(), u, v, self.distances()[u][v]),
    {
        let m = self.model();
        assert(record_ok(self.graph(), self.cap(), u, m.dist[u], m.pred[u], m.rank[u]));
    }

    /// Builds the engine for the nodes `0..max_node_id` and the given edges.
    /// `highest_total_weight` stands for "no path"; it must exceed the cost
    /// of every path that is to be found. Fails where there are more nodes
    /// than `MAX_NODE_ID`.
    pub fn new(max_node_id: NodeId, edges: &Vec<EdgeInfo<U>>, highest_total_weight: U) -> (r:
        Result<Self, Error>)
        requires
            max_node_id <= MAX_NODE_ID ==> batch_in_range(edges@, max_node_id as nat),
        ensures
            match r {
                Ok(engine) => {
                    &&& max_node_id <= MAX_NODE_ID
                    &&& engine.inv()
                    &&& engine.graph() == (Graph {
                        n: max_node_id as nat,
                        edges: batch_view(edges@),
                    })
                    &&& engine.cap() == highest_total_weight.value()
                },
                Err(e) => max_node_id > MAX_NODE_ID && e == Error::GraphTooLarge,
            },
    {
        if max_node_id > MAX_NODE_ID {
            Err(Error::GraphTooLarge)
        } else {
            let ghost g = Graph { n: max_node_id as nat, edges: batch_view(edges@) };
            let mut trace = Self::init_trace(max_node_id);
            let mut dist = Self::init_dist(max_node_id, edges, highest_total_weight);
            proof {
                let m = matrices(dist@, trace@, fresh_ranks(g.n));
                assert(m.square(g.n));
                assert(g.well_formed()) by {
                    assert forall|i: int| 0 <= i < g.edges.len() implies g.has_node(
                        (#[trigger] g.edges[i]).a,
                    ) && g.has_node(g.edges[i].b) by {
                        assert(g.edges[i] == edges@[i]@);
                    }
                }
                lemma_fresh(g, highest_total_weight.value(), m);
            }
            let closure = Self::run_core(
                max_node_id,
                &mut trace,
                &mut dist,
                highest_total_weight,
                Ghost(g),
                Ghost(fresh_ranks(g.n)),
                Ghost(2),
            );
            Ok(
                Self {
                    n: max_node_id,
                    dist,
                    trace,
                    highest_total_weight,
                    edges: Ghost(g.edges),
                    rank: Ghost(closure@.0),
                    bound: Ghost(closure@.1),
                },
            )
        }
    }

    /// The predecessors before any relaxation: in the row of a source, every
    /// node hangs from the source itself.
    pub fn init_trace(max_node_id: NodeId) -> (trace: Vec<Vec<Option<NodeId>>>)
        ensures
            is_square(trace@, max_node_id as nat),
            links_view(trace@) == fresh_links(max_node_id as nat),
    {
        let mut trace: Vec<Vec<Option<NodeId>>> = Vec::new();
        let mut node: NodeId = 0;
        while node < max_node_id
            invariant
                node <= max_node_id,
                trace@.len() == node,
                forall|u: int|
                    0 <= u < node ==> (#[trigger] trace@[u])@.len() == max_node_id && forall|v: int|
                        0 <= v < max_node_id ==> trace@[u]@[v] == Some(u as usize),
            decreases max_node_id - node,
        {
            trace.push(filled(Some(node), max_node_id));
            node += 1;
        }
        assert(links_view(trace@) =~~= fresh_links(max_node_id as nat));
        trace
    }

    /// The distances before any relaxation: the seed of every pair.
    pub fn init_dist(
        max_node_id: NodeId,
        edges: &Vec<EdgeInfo<U>>,
        highest_total_weight: U,
    ) -> (dist: Vec<Vec<U>>)
        requires
            batch_in_range(edges@, max_node_id as nat),
        ensures
            is_square(dist@, max_node_id as nat),
            forall|u: int, v: int|
                0 <= u < max_node_id && 0 <= v < max_node_id ==> #[trigger] weights_view(
                    dist@,
                )[u][v] == seed(batch_view(edges@), highest_total_weight.value(), u, v),
    {
        let ghost cap = highest_total_weight.value();
        let ghost batch = batch_view(edges@);
        let zero: U = U::zero();
        proof {
            U::lemma_zero_value();
        }
        let mut dist: Vec<Vec<U>> = Vec::new();
        let mut node: NodeId = 0;
        while node < max_node_id
            invariant
                node <= max_node_id,
                dist@.len() == node,
                zero.value() == 0,
                forall|u: int|
                    0 <= u < node ==> (#[trigger] dist@[u])@.len() == max_node_id && forall|v: int|
                        0 <= v < max_node_id ==> dist@[u]@[v] == if u == v {
                            zero
                        } else {
                            highest_total_weight
                        },
            decreases max_node_id - node,
        {
            let mut row: Vec<U> = filled(highest_total_weight, max_node_id);
            row[node] = zero;
            dist.push(row);
            node += 1;
        }
        let mut k: usize = 0;
        assert(batch.take(0) =~= Seq::<Edge>::empty());
        while k < edges.len()
            invariant
                k <= edges.len(),
                batch == batch_view(edges@),
                cap == highest_total_weight.value(),
                batch_in_range(edges@, max_node_id as nat),
                is_square(dist@, max_node_id as nat),
                forall|u: int, v: int|
                    0 <= u < max_node_id && 0 <= v < max_node_id ==> #[trigger] weights_view(
                        dist@,
                    )[u][v] == seed(batch.take(k as int), cap, u, v),
            decreases edges.len() - k,
        {
            let a: NodeId = edges[k].u;
            let b: NodeId = edges[k].v;
            let w: U = edges[k].w;
            let ghost before_dist = weights_view(dist@);
            if w.magnitude() < dist[a][b].magnitude() {
                dist[a][b] = w;
            }
            if w.magnitude() < dist[b][a].magnitude() {
                dist[b][a] = w;
            }
            proof {
                let e = batch[k as int];
                assert(e == edges@[k as int]@);
                assert(batch.take(k + 1).drop_last() =~= batch.take(k as int));
                assert(batch.take(k + 1).last() == e);
                assert forall|u: int, v: int|
                    0 <= u < max_node_id && 0 <= v < max_node_id implies #[trigger] weights_view(
                    dist@,
                )[u][v] == seed(batch.take(k + 1), cap, u, v) by {
                    assert(before_dist[u][v] == seed(batch.take(k as int), cap, u, v));
                    assert(before_dist[a as int][b as int] == seed(
                        batch.take(k as int),
                        cap,
                        a as int,
                        b as int,
                    ));
                    assert(before_dist[b as int][a as int] == seed(
                        batch.take(k as int),
                        cap,
                        b as int,
                        a as int,
                    ));
                }
            }
            k += 1;
        }
        assert(batch.take(k as int) =~= batch);
        dist
    }

    /// Completes the matrices: for every node `k` in turn, every pair `(u, v)`
    /// whose way through `k` is cheaper takes that way, and `v` the predecessor
    /// that `k` knows for it. Returns the ranks that go with the predecessors.
    pub(crate) fn run_core(
        max_node_id: NodeId,
        trace: &mut Vec<Vec<Option<NodeId>>>,
        dist: &mut Vec<Vec<U>>,
        highest_total_weight: U,
        Ghost(g): Ghost<Graph>,
        Ghost(rank): Ghost<Seq<Seq<nat>>>,
        Ghost(bound): Ghost<nat>,
    ) -> (r: Ghost<(Seq<Seq<nat>>, nat)>)
        requires
            max_node_id == g.n,
            is_square(old(dist)@, g.n),
            is_square(old(trace)@, g.n),
            sane(g, highest_total_weight.value(), matrices(old(dist)@, old(trace)@, rank), bound),
            direct(g, matrices(old(dist)@, old(trace)@, rank)),
        ensures
            is_square(final(dist)@, g.n),
            is_square(final(trace)@, g.n),
            closed(g, highest_total_weight.value(), matrices(final(dist)@, final(trace)@, r@.0)),
            ranked(g, matrices(final(dist)@, final(trace)@, r@.0), r@.1),
            steady(matrices(old(dist)@, old(trace)@, rank), g.n) ==> final(dist)@ == old(dist)@
                && final(trace)@ == old(trace)@,
    {
        let n: usize = max_node_id;
        let ghost cap = highest_total_weight.value();
        let ghost first = matrices(dist@, trace@, rank);
        let ghost dist_in = dist@;
        let ghost trace_in = trace@;
        let ghost mut rank = rank;
        let ghost mut bound = bound;
        proof {
            lemma_through_nothing(g, cap, first, bound);
        }
        let mut k: usize = 0;
        while k < n
            invariant
                k <= n,
                n == g.n,
                cap == highest_total_weight.value(),
                is_square(dist@, g.n),
                is_square(trace@, g.n),
                sane(g, cap, matrices(dist@, trace@, rank), bound),
                direct(g, matrices(dist@, trace@, rank)),
                through(g, matrices(dist@, trace@, rank), k as int),
                first == matrices(dist_in, trace_in, first.rank),
                steady(first, g.n) ==> dist@ == dist_in && trace@ == trace_in && rank == first.rank,
            decreases n - k,
        {
            let ghost m0 = matrices(dist@, trace@, rank);
            let mut u: usize = 0;
            while u < n
                invariant
                    u <= n,
                    k < n,
                    n == g.n,
                    cap == highest_total_weight.value(),
                    is_square(dist@, g.n),
                    is_square(trace@, g.n),
                    sane(g, cap, m0, bound),
                    matrices(dist@, trace@, rank).square(g.n),
                    passed_upto(m0, matrices(dist@, trace@, rank), g.n, k as int, bound, u as int, 0),
                    first == matrices(dist_in, trace_in, first.rank),
                    steady(first, g.n) ==> m0 == first,
                    steady(first, g.n) ==> dist@ == dist_in && trace@ == trace_in && rank
                        == first.rank,
                decreases n - u,
            {
                let mut v: usize = 0;
                while v < n
                    invariant
                        v <= n,
                        u < n,
                        k < n,
                        n == g.n,
                        cap == highest_total_weight.value(),
                        is_square(dist@, g.n),
                        is_square(trace@, g.n),
                        sane(g, cap, m0, bound),
                        matrices(dist@, trace@, rank).square(g.n),
                        passed_upto(
                            m0,
                            matrices(dist@, trace@, rank),
                            g.n,
                            k as int,
                            bound,
                            u as int,
                            v as int,
                        ),
                        first == matrices(dist_in, trace_in, first.rank),
                        steady(first, g.n) ==> m0 == first,
                        steady(first, g.n) ==> dist@ == dist_in && trace@ == trace_in && rank
                            == first.rank,
                    decreases n - v,
                {
                    let ghost cur = matrices(dist@, trace@, rank);
                    proof {
                        lemma_pivot_kept(g, cap, m0, cur, bound, k as int, u as int, v as int, u as int);
                        lemma_pivot_kept(g, cap, m0, cur, bound, k as int, u as int, v as int, v as int);
                        assert(cell_at(m0, cur, k as int, bound, u as int, v as int, u as int, v as int));
                        assert(m0.dist[u as int][v as int] <= cap);
                    }
                    let to_pivot: U = dist[u][k];
                    let from_pivot: U = dist[k][v];
                    let through_pivot: U = to_pivot.capped_sum(&from_pivot, &highest_total_weight);
                    if through_pivot.magnitude() < dist[u][v].magnitude() {
                        let link: Option<NodeId> = trace[k][v];
                        dist[u][v] = through_pivot;
                        trace[u][v] = link;
                        proof {
                            rank = rank.update(
                                u as int,
                                rank[u as int].update(v as int, bound + rank[k as int][v as int]),
                            );
                            if steady(first, g.n) {
                                assert(pivoted(first, g.n, k as int));
                                assert(first.dist[u as int][v as int] <= first.dist[u as int][k as int]
                                    + first.dist[k as int][v as int]);
                            }
                        }
                    }
                    proof {
                        let next = matrices(dist@, trace@, rank);
                        assert(next.square(g.n)) by {
                            assert forall|x: int| 0 <= x < g.n implies (#[trigger] next.dist[x]).len()
                                == g.n && next.pred[x].len() == g.n && next.rank[x].len() == g.n by {
                                assert(cur.dist[x].len() == g.n);
                            }
                        }
                        assert forall|x: int, y: int| 0 <= x < g.n && 0 <= y < g.n implies #[trigger] cell_at(
                            m0,
                            next,
                            k as int,
                            bound,
                            u as int,
                            v + 1,
                            x,
                            y,
                        ) by {
                            assert(cell_at(m0, cur, k as int, bound, u as int, v as int, x, y));
                            if !(x == u && y == v) {
                                assert(next.dist[x][y] == cur.dist[x][y]);
                                assert(next.pred[x][y] == cur.pred[x][y]);
                                assert(next.rank[x][y] == cur.rank[x][y]);
                            }
                        }
                    }
                    v += 1;
                }
                proof {
                    let cur = matrices(dist@, trace@, rank);
                    assert forall|x: int, y: int| 0 <= x < g.n && 0 <= y < g.n implies #[trigger] cell_at(
                        m0,
                        cur,
                        k as int,
                        bound,
                        u + 1,
                        0,
                        x,
                        y,
                    ) by {
                        assert(cell_at(m0, cur, k as int, bound, u as int, n as int, x, y));
                    }
                }
                u += 1;
            }
            proof {
                lemma_pass(g, cap, m0, matrices(dist@, trace@, rank), bound, k as int);
                bound = 2 * bound;
            }
            k += 1;
        }
        proof {
            lemma_through_all(g, cap, matrices(dist@, trace@, rank), bound);
        }
        Ghost((rank, bound))
    }
}

impl<U: EdgeWeight> ShortestPathAlgo<U> for FloydWarshall<U> {
    const NAME: &'static str = "Floyd-Warshall";

    closed spec fn inv(&self) -> bool {
        &&& is_square(self.dist@, self.n as nat)
        &&& is_square(self.trace@, self.n as nat)
        &&& closed(self.graph(), self.cap(), self.model())
        &&& ranked(self.graph(), self.model(), self.bound@)
    }

    closed spec fn graph(&self) -> Graph {
        Graph { n: self.n as nat, edges: self.edges@ }
    }

    closed spec fn cap(&self) -> nat {
        self.highest_total_weight.value()
    }

    /// Reads the answer off the matrices; the engine stays as it is.
    fn find(&mut self, u: NodeId, v: NodeId, with_trace: bool) -> (r: Option<PathTrace<U>>)
        ensures
            *final(self) == *old(self),
    {
        let ghost g = self.graph();
        let ghost cap = self.cap();
        let ghost m = self.model();
        proof {
            assert(record_ok(g, cap, u as int, m.dist[u as int], m.pred[u as int], m.rank[u as int]));
            assert(exact(g, cap, u as int, v as int, m.dist[u as int][v as int]));
            lemma_exact_shortest(g, cap, u as int, v as int, m.dist[u as int][v as int]);
        }
        if self.dist[u][v].magnitude() == self.highest_total_weight.magnitude() {
            return None;
        }
        let dist: U = self.dist[u][v];
        let path = if with_trace {
            proof {
                lemma_chain_traces(
                    g,
                    cap,
                    u as int,
                    m.dist[u as int],
                    m.pred[u as int],
                    m.rank[u as int],
                    v as int,
                );
            }
            trace_path(u, v, self.trace[u].as_slice())
        } else {
            None
        };
        Some(PathTrace { dist, path })
    }

    /// Offers every edge of the batch to the pair of its ends, then relaxes
    /// every pair through every node again. A batch that holds no edge
    /// lighter than the distance between its ends leaves the distances as
    /// they were.
    fn add_edges(&mut self, edges: &Vec<EdgeInfo<U>>)
        ensures
            improves_nothing(batch_view(edges@), old(self).distances())
                ==> final(self).distances() == old(self).distances(),
    {
        let ghost g0 = self.graph();
        let ghost cap = self.cap();
        let ghost m_in = self.model();
        let ghost batch = batch_view(edges@);
        let ghost quiet = improves_nothing(batch, m_in.dist);
        let n: NodeId = self.n;
        let sentinel: U = self.highest_total_weight;
        proof {
            lemma_closed_sane(g0, cap, m_in, self.bound@);
            assert(g0.extended(batch.take(0)) == g0) by {
                assert(g0.edges + batch.take(0) =~= g0.edges);
            }
        }
        let mut k: usize = 0;
        while k < edges.len()
            invariant
                k <= edges.len(),
                batch == batch_view(edges@),
                batch_in_range(edges@, g0.n),
                self.n == n,
                n == g0.n,
                self.highest_total_weight == sentinel,
                cap == sentinel.value(),
                self.edges@ == g0.edges,
                closed(g0, cap, m_in),
                quiet == improves_nothing(batch, m_in.dist),
                is_square(self.dist@, g0.n),
                is_square(self.trace@, g0.n),
                sane(g0.extended(batch.take(k as int)), cap, self.model(), self.bound@),
                direct(g0.extended(batch.take(k as int)), self.model()),
                quiet ==> self.model() == m_in && self.dist@ == old(self).dist@ && self.trace@
                    == old(self).trace@,
            decreases edges.len() - k,
        {
            let a: NodeId = edges[k].u;
            let b: NodeId = edges[k].v;
            let w: U = edges[k].w;
            let ghost e = batch[k as int];
            let ghost before_model = self.model();
            let ghost gk = g0.extended(batch.take(k as int));
            proof {
                assert(e == edges@[k as int]@);
                lemma_offered(gk, cap, before_model, self.bound@, e);
                assert(gk.extended(seq![e]) == g0.extended(batch.take(k + 1))) by {
                    assert(gk.edges + seq![e] =~= g0.edges + batch.take(k + 1));
                }
                if quiet {
                    lemma_closed_symmetric(g0, cap, m_in, a as int, b as int);
                }
            }
            if w.magnitude() < self.dist[a][b].magnitude() {
                self.dist[a][b] = w;
                self.trace[a][b] = Some(a);
                self.rank = Ghost(
                    self.rank@.update(
                        a as int,
                        self.rank@[a as int].update(b as int, self.rank@[a as int][a as int] + 1),
                    ),
                );
            }
            proof {
                assert(self.model().dist =~~= before_model.seeded(a as int, b as int, w.value()).dist);
                assert(self.model().pred =~~= before_model.seeded(a as int, b as int, w.value()).pred);
                assert(self.model().rank =~~= before_model.seeded(a as int, b as int, w.value()).rank);
            }
            let ghost half_model = self.model();
            if w.magnitude() < self.dist[b][a].magnitude() {
                self.dist[b][a] = w;
                self.trace[b][a] = Some(b);
                self.rank = Ghost(
                    self.rank@.update(
                        b as int,
                        self.rank@[b as int].update(a as int, self.rank@[b as int][b as int] + 1),
                    ),
                );
            }
            proof {
                assert(self.model().dist =~~= half_model.seeded(b as int, a as int, w.value()).dist);
                assert(self.model().pred =~~= half_model.seeded(b as int, a as int, w.value()).pred);
                assert(self.model().rank =~~= half_model.seeded(b as int, a as int, w.value()).rank);
                assert(self.model() == offered(before_model, a as int, b as int, w.value()));
            }
            self.bound = Ghost(self.bound@ + 2);
            k += 1;
        }
        let ghost g1 = g0.extended(batch);
        proof {
            assert(batch.take(k as int) =~= batch);
            if quiet {
                assert forall|p: int| 0 <= p < g0.n implies #[trigger] pivoted(m_in, g0.n, p) by {
                    lemma_closed_pivoted(g0, cap, m_in, p);
                }
            }
        }
        let closure = Self::run_core(
            n,
            &mut self.trace,
            &mut self.dist,
            sentinel,
            Ghost(g1),
            Ghost(self.rank@),
            Ghost(self.bound@),
        );
        self.rank = Ghost(closure@.0);
        self.bound = Ghost(closure@.1);
        self.edges = Ghost(g1.edges);
    }
}

} // verus!
