//! The search from one source: arcs are relaxed from the queued node of
//! least tentative distance until no node is queued any more.

use vstd::prelude::*;
use crate::adjacency::{
    Adjacency, arcs_view, edge_is, edge_listed, entry_is, linked, lists_edges,
};
use crate::graph::{
    Graph, Walk, connects, cost, exact, head, lemma_cost_single, lemma_split, lemma_walk_nodes,
    lemma_within_stay, lemma_within_step, tail, within,
};
use crate::queue::{NodeQueue, no_entries, queue_entries, queue_new, queue_pop, queue_push};
use crate::record::{filled, hangs, lemma_tree_improves, pred_view, record_ok, tree_ok};
use crate::shortest_path_algo::{EdgeWeight, NodeId, values};

verus! {

/// The node is queued.
pub open spec fn in_queue(q: Map<usize, u128>, u: int) -> bool {
    0 <= u <= usize::MAX && q.contains_key(u as usize)
}

/// Edge `i` cannot lower the distance of its other end from `u`.
pub open spec fn relaxed(g: Graph, dist: Seq<nat>, u: int, i: int) -> bool {
    let e = g.edges[i];
    &&& e.a == u ==> dist[e.b] <= dist[u] + e.w
    &&& e.b == u ==> dist[e.a] <= dist[u] + e.w
}

/// No edge at `u` can lower the distance of a neighbour.
pub open spec fn settled(g: Graph, dist: Seq<nat>, u: int) -> bool {
    forall|i: int| 0 <= i < g.edges.len() ==> #[trigger] relaxed(g, dist, u, i)
}

/// What holds throughout a search from `s`: the record is a tree, every
/// distance below the cap is the cost of some walk, the queue holds nodes
/// under their distances, and every reachable node that is neither queued nor
/// the one being worked on (`hole`) is settled.
pub open spec fn search_inv(
    g: Graph,
    cap: nat,
    s: int,
    dist: Seq<nat>,
    pred: Seq<Option<int>>,
    rank: Seq<nat>,
    q: Map<usize, u128>,
    hole: int,
) -> bool {
    &&& g.well_formed()
    &&& tree_ok(g, cap, s, dist, pred, rank)
    &&& forall|v: int| 0 <= v < g.n ==> #[trigger] dist[v] <= cap
    &&& forall|v: int| 0 <= v < g.n && #[trigger] dist[v] < cap ==> within(g, s, v, dist[v])
    &&& q.dom().finite()
    &&& forall|v: usize| #[trigger] q.contains_key(v) ==> v < g.n && q[v] == dist[v as int]
    &&& forall|u: int|
        0 <= u < g.n && u != hole && !in_queue(q, u) && dist[u] < cap ==> #[trigger] settled(
            g,
            dist,
            u,
        )
}

/// The sum of all distances: what a search lowers with every improvement.
pub open spec fn total(dist: Seq<nat>) -> nat
    decreases dist.len(),
{
    if dist.len() == 0 {
        0
    } else {
        total(dist.drop_last()) + dist.last()
    }
}

proof fn lemma_total_lowered(dist: Seq<nat>, v: int, c: nat)
    requires
        0 <= v < dist.len(),
        c < dist[v],
    ensures
        total(dist.update(v, c)) < total(dist),
    decreases dist.len(),
{
    if v == dist.len() - 1 {
        assert(dist.update(v, c).drop_last() =~= dist.drop_last());
    } else {
        lemma_total_lowered(dist.drop_last(), v, c);
        assert(dist.update(v, c).drop_last() =~= dist.drop_last().update(v, c));
    }
}

/// The record a search starts from: the source at distance 0, queued, and
/// every other node at the cap.
proof fn lemma_search_starts(
    g: Graph,
    cap: nat,
    s: int,
    dist: Seq<nat>,
    pred: Seq<Option<int>>,
    rank: Seq<nat>,
    q: Map<usize, u128>,
)
    requires
        g.well_formed(),
        g.has_node(s),
        s <= usize::MAX,
        dist.len() == g.n,
        pred.len() == g.n,
        rank.len() == g.n,
        dist[s] == 0,
        forall|v: int| 0 <= v < g.n && v != s ==> #[trigger] dist[v] == cap,
        q == no_entries().insert(s as usize, 0),
    ensures
        search_inv(g, cap, s, dist, pred, rank, q, g.n as int),
{
    assert forall|v: int| 0 <= v < g.n implies #[trigger] hangs(g, cap, s, dist, pred, rank, v) by {
        if v != s {
            assert(dist[v] == cap);
        }
    }
    lemma_within_stay(g, s);
    assert forall|v: int| 0 <= v < g.n && #[trigger] dist[v] < cap implies within(
        g,
        s,
        v,
        dist[v],
    ) by {
        if v != s {
            assert(dist[v] == cap);
        }
    }
    assert forall|u: int|
        0 <= u < g.n && u != g.n && !in_queue(q, u) && dist[u] < cap implies #[trigger] settled(
        g,
        dist,
        u,
    ) by {
        if u != s {
            assert(dist[u] == cap);
        }
    }
}

/// Taking a node off the queue makes it the one being worked on.
proof fn lemma_search_pops(
    g: Graph,
    cap: nat,
    s: int,
    dist: Seq<nat>,
    pred: Seq<Option<int>>,
    rank: Seq<nat>,
    q: Map<usize, u128>,
    u: usize,
)
    requires
        search_inv(g, cap, s, dist, pred, rank, q, g.n as int),
        q.contains_key(u),
    ensures
        search_inv(g, cap, s, dist, pred, rank, q.remove(u), u as int),
        q.remove(u).dom().len() < q.dom().len(),
{
    let r = q.remove(u);
    assert forall|x: int|
        0 <= x < g.n && x != u && !in_queue(r, x) && dist[x] < cap implies #[trigger] settled(
        g,
        dist,
        x,
    ) by {
        assert(!in_queue(q, x));
    }
}

/// An arc from the node being worked on that lowers a distance: the
/// neighbour takes the new distance, hangs from that node and is queued.
proof fn lemma_search_improves(
    g: Graph,
    cap: nat,
    s: int,
    dist: Seq<nat>,
    pred: Seq<Option<int>>,
    rank: Seq<nat>,
    q: Map<usize, u128>,
    u: int,
    v: int,
    w: nat,
    c: nat,
)
    requires
        search_inv(g, cap, s, dist, pred, rank, q, u),
        g.has_node(u),
        g.has_node(v),
        linked(g.edges, u, v, w),
        c == dist[u] + w,
        c < dist[v],
        v <= usize::MAX,
        c <= u128::MAX,
    ensures
        search_inv(
            g,
            cap,
            s,
            dist.update(v, c),
            pred.update(v, Some(u)),
            rank.update(v, rank[u] + 1),
            q.insert(v as usize, c as u128),
            u,
        ),
        total(dist.update(v, c)) < total(dist),
        u != v,
{
    let dist2 = dist.update(v, c);
    let pred2 = pred.update(v, Some(u));
    let rank2 = rank.update(v, rank[u] + 1);
    let q2 = q.insert(v as usize, c as u128);
    lemma_total_lowered(dist, v, c);
    assert(dist[v] <= cap);
    let i = choose|i: int| #[trigger] edge_is(g.edges, i, u, v, w);
    lemma_tree_improves(g, cap, s, dist, pred, rank, u, v, i);
    assert(dist[u] < cap);
    assert(within(g, s, u, dist[u]));
    lemma_within_step(g, s, u, dist[u], i, v);
    assert forall|x: int| 0 <= x < g.n && #[trigger] dist2[x] < cap implies within(
        g,
        s,
        x,
        dist2[x],
    ) by {
        if x != v {
            assert(dist[x] < cap);
        }
    }
    assert forall|x: int| 0 <= x < g.n implies #[trigger] dist2[x] <= cap by {
        assert(dist[x] <= cap);
    }
    assert forall|x: usize| #[trigger] q2.contains_key(x) implies x < g.n && q2[x] == dist2[x as int] by {
        if x != v {
            assert(q.contains_key(x));
        }
    }
    assert forall|x: int|
        0 <= x < g.n && x != u && !in_queue(q2, x) && dist2[x] < cap implies #[trigger] settled(
        g,
        dist2,
        x,
    ) by {
        assert(x != v);
        assert(!in_queue(q, x));
        assert(dist[x] < cap);
        assert(settled(g, dist, x));
        assert forall|k: int| 0 <= k < g.edges.len() implies #[trigger] relaxed(
            g,
            dist2,
            x,
            k,
        ) by {
            assert(relaxed(g, dist, x, k));
        }
    }
}

/// Once none of its arcs can lower a distance, the node being worked on is settled.
proof fn lemma_search_settles(
    g: Graph,
    cap: nat,
    s: int,
    dist: Seq<nat>,
    pred: Seq<Option<int>>,
    rank: Seq<nat>,
    q: Map<usize, u128>,
    u: int,
    arcs: Seq<Seq<(int, nat)>>,
)
    requires
        search_inv(g, cap, s, dist, pred, rank, q, u),
        g.has_node(u),
        lists_edges(arcs, g),
        forall|j: int|
            0 <= j < arcs[u].len() ==> dist[(#[trigger] arcs[u][j]).0] <= dist[u] + arcs[u][j].1,
    ensures
        search_inv(g, cap, s, dist, pred, rank, q, g.n as int),
{
    assert forall|i: int| 0 <= i < g.edges.len() implies #[trigger] relaxed(g, dist, u, i) by {
        let e = g.edges[i];
        assert(edge_listed(arcs, g.edges, i));
        if e.a == u {
            let j = choose|j: int| #[trigger] entry_is(arcs, e.a, j, e.b, e.w);
            assert(arcs[u][j] == (e.b, e.w));
        }
        if e.b == u {
            let j = choose|j: int| #[trigger] entry_is(arcs, e.b, j, e.a, e.w);
            assert(arcs[u][j] == (e.a, e.w));
        }
    }
    assert(settled(g, dist, u));
}

/// Where every reachable node is settled, no walk from the source undercuts
/// the distance of the node it ends at.
proof fn lemma_settled_below(g: Graph, cap: nat, s: int, dist: Seq<nat>, p: Walk, t: int)
    requires
        g.well_formed(),
        g.has_node(s),
        dist.len() == g.n,
        dist[s] == 0,
        forall|v: int| 0 <= v < g.n ==> #[trigger] dist[v] <= cap,
        forall|u: int| 0 <= u < g.n && dist[u] < cap ==> #[trigger] settled(g, dist, u),
        connects(g, p, s, t),
    ensures
        g.has_node(t),
        dist[t] <= cost(g, p.steps),
    decreases p.steps.len(),
{
    if p.steps.len() > 0 {
        let k = p.steps.len() - 1;
        let m = p.nodes[k];
        lemma_split(g, p, s, t, k);
        lemma_settled_below(g, cap, s, dist, head(p, k), m);
        let i = p.steps[k];
        lemma_cost_single(g, tail(p, k).steps);
        lemma_walk_nodes(g, p, k + 1);
        assert(g.edges[i].joins(m, p.nodes[k + 1]));
        if dist[m] < cap {
            assert(settled(g, dist, m));
            assert(relaxed(g, dist, m, i));
        }
    }
}

/// A search that ends with an empty queue has found every distance.
proof fn lemma_search_ends(
    g: Graph,
    cap: nat,
    s: int,
    dist: Seq<nat>,
    pred: Seq<Option<int>>,
    rank: Seq<nat>,
    q: Map<usize, u128>,
)
    requires
        search_inv(g, cap, s, dist, pred, rank, q, g.n as int),
        q == no_entries(),
    ensures
        record_ok(g, cap, s, dist, pred, rank),
{
    assert forall|u: int| 0 <= u < g.n && dist[u] < cap implies #[trigger] settled(g, dist, u) by {
        assert(!in_queue(q, u));
    }
    assert forall|t: int| 0 <= t < g.n implies #[trigger] exact(g, cap, s, t, dist[t]) by {
        assert(dist[t] <= cap);
        assert forall|p: Walk| #[trigger] connects(g, p, s, t) implies dist[t] <= cost(
            g,
            p.steps,
        ) by {
            lemma_settled_below(g, cap, s, dist, p, t);
        }
    }
}


/// Searches the graph from `s`: relaxes the arcs of the queued node of least
/// tentative distance until the queue is empty, and returns the distance and
/// the predecessor of every node.
pub(crate) fn search<U: EdgeWeight>(
    adj: &Adjacency<U>,
    s: NodeId,
    cap: U,
    Ghost(g): Ghost<Graph>,
) -> (r: (Vec<U>, Vec<Option<NodeId>>, Ghost<Seq<nat>>))
    requires
        g.well_formed(),
        lists_edges(arcs_view(adj@), g),
        s < g.n,
    ensures
        record_ok(g, cap.value(), s as int, values(r.0@), pred_view(r.1@), r.2@),
{
    let n: usize = adj.len();
    let ghost arcs = arcs_view(adj@);
    let mut dist: Vec<U> = filled(cap, n);
    let mut trace: Vec<Option<NodeId>> = filled(None, n);
    let ghost mut rank: Seq<nat> = Seq::new(n as nat, |i: int| 0nat);
    let zero: U = U::zero();
    proof {
        U::lemma_zero_value();
    }
    dist[s] = zero;
    let mut pq: NodeQueue = queue_new();
    queue_push(&mut pq, s, zero.magnitude());
    proof {
        lemma_search_starts(
            g,
            cap.value(),
            s as int,
            values(dist@),
            pred_view(trace@),
            rank,
            queue_entries(pq),
        );
    }
    loop
        invariant
            n == g.n,
            arcs == arcs_view(adj@),
            lists_edges(arcs, g),
            dist@.len() == n,
            trace@.len() == n,
            search_inv(
                g,
                cap.value(),
                s as int,
                values(dist@),
                pred_view(trace@),
                rank,
                queue_entries(pq),
                n as int,
            ),
        ensures
            queue_entries(pq) == no_entries(),
        decreases total(values(dist@)), queue_entries(pq).dom().len(),
    {
        let ghost dist0 = values(dist@);
        let ghost q0 = queue_entries(pq);
        let popped = queue_pop(&mut pq);
        let (u, du) = match popped {
            None => {
                break ;
            },
            Some(entry) => entry,
        };
        proof {
            lemma_search_pops(g, cap.value(), s as int, dist0, pred_view(trace@), rank, q0, u);
        }
        if du != dist[u].magnitude() {
            continue ;
        }
        let mut j: usize = 0;
        while j < adj[u].len()
            invariant
                n == g.n,
                u < n,
                arcs == arcs_view(adj@),
                lists_edges(arcs, g),
                dist@.len() == n,
                trace@.len() == n,
                dist0.len() == n,
                j <= adj@[u as int]@.len(),
                q0.dom().finite(),
                q0.contains_key(u),
                search_inv(
                    g,
                    cap.value(),
                    s as int,
                    values(dist@),
                    pred_view(trace@),
                    rank,
                    queue_entries(pq),
                    u as int,
                ),
                forall|k: int|
                    0 <= k < j ==> values(dist@)[(#[trigger] arcs[u as int][k]).0] <= values(
                        dist@,
                    )[u as int] + arcs[u as int][k].1,
                total(values(dist@)) < total(dist0) || (values(dist@) == dist0 && queue_entries(pq)
                    == q0.remove(u)),
            decreases adj@[u as int]@.len() - j,
        {
            let v: NodeId = adj[u][j].0;
            let w: U = adj[u][j].1;
            proof {
                assert(arcs[u as int][j as int] == (v as int, w.value()));
                assert(g.has_node(v as int));
            }
            let cand: U = dist[u].capped_sum(&w, &cap);
            if cand.magnitude() < dist[v].magnitude() {
                let ghost before_dist = values(dist@);
                let ghost before_pred = pred_view(trace@);
                proof {
                    assert(before_dist[v as int] <= cap.value());
                    lemma_search_improves(
                        g,
                        cap.value(),
                        s as int,
                        before_dist,
                        before_pred,
                        rank,
                        queue_entries(pq),
                        u as int,
                        v as int,
                        w.value(),
                        cand.value(),
                    );
                }
                dist[v] = cand;
                trace[v] = Some(u);
                queue_push(&mut pq, v, cand.magnitude());
                proof {
                    rank = rank.update(v as int, rank[u as int] + 1);
                    assert(values(dist@) =~= before_dist.update(v as int, cand.value()));
                    assert(pred_view(trace@) =~= before_pred.update(v as int, Some(u as int)));
                    assert forall|k: int| 0 <= k < j + 1 implies values(dist@)[(
                    #[trigger] arcs[u as int][k]).0] <= values(dist@)[u as int]
                        + arcs[u as int][k].1 by {
                        let to = arcs[u as int][k].0;
                        assert(g.has_node(to));
                        assert(values(dist@)[to] <= before_dist[to]);
                    }
                }
            }
            j += 1;
        }
        proof {
            lemma_search_settles(
                g,
                cap.value(),
                s as int,
                values(dist@),
                pred_view(trace@),
                rank,
                queue_entries(pq),
                u as int,
                arcs,
            );
        }
    }
    proof {
        lemma_search_ends(
            g,
            cap.value(),
            s as int,
            values(dist@),
            pred_view(trace@),
            rank,
            queue_entries(pq),
        );
    }
    (dist, trace, Ghost(rank))
}

} // verus!
