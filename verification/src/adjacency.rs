//! Adjacency lists: for every node the arcs that leave it, one in each
//! direction for every edge of the graph.

use vstd::prelude::*;
use crate::graph::{Edge, Graph};
use crate::shortest_path_algo::{EdgeInfo, EdgeWeight, NodeId, batch_in_range, batch_view};

verus! {

/// The arcs that leave each node: the neighbour and the weight of the edge.
pub type Adjacency<U> = Vec<Vec<(NodeId, U)>>;

/// The arcs that leave each node, as the model sees them.
pub open spec fn arcs_view<U: EdgeWeight>(adj: Seq<Vec<(NodeId, U)>>) -> Seq<Seq<(int, nat)>> {
    Seq::new(
        adj.len(),
        |u: int| Seq::new(adj[u]@.len(), |j: int| (adj[u]@[j].0 as int, adj[u]@[j].1.value())),
    )
}

/// Entry `j` of the list of `from` leads to `to` at weight `w`.
pub open spec fn entry_is(arcs: Seq<Seq<(int, nat)>>, from: int, j: int, to: int, w: nat) -> bool {
    0 <= j < arcs[from].len() && arcs[from][j] == (to, w)
}

/// The list of `from` holds an arc to `to` at weight `w`.
pub open spec fn listed(arcs: Seq<Seq<(int, nat)>>, from: int, to: int, w: nat) -> bool {
    exists|j: int| #[trigger] entry_is(arcs, from, j, to, w)
}

/// Edge `i` links `from` and `to` at weight `w`.
pub open spec fn edge_is(edges: Seq<Edge>, i: int, from: int, to: int, w: nat) -> bool {
    0 <= i < edges.len() && edges[i].joins(from, to) && edges[i].w == w
}

/// Some edge links `from` and `to` at weight `w`.
pub open spec fn linked(edges: Seq<Edge>, from: int, to: int, w: nat) -> bool {
    exists|i: int| #[trigger] edge_is(edges, i, from, to, w)
}

/// Every listed arc leads to a node and follows an edge.
pub open spec fn arcs_follow_edges(arcs: Seq<Seq<(int, nat)>>, g: Graph) -> bool {
    forall|u: int, j: int|
        0 <= u < arcs.len() && 0 <= j < arcs[u].len() ==> g.has_node((#[trigger] arcs[u][j]).0)
            && linked(g.edges, u, arcs[u][j].0, arcs[u][j].1)
}

/// Edge `i` is listed as an arc in each direction.
pub open spec fn edge_listed(arcs: Seq<Seq<(int, nat)>>, edges: Seq<Edge>, i: int) -> bool {
    listed(arcs, edges[i].a, edges[i].b, edges[i].w) && listed(
        arcs,
        edges[i].b,
        edges[i].a,
        edges[i].w,
    )
}

/// The lists hold, for every edge, an arc in each direction, and nothing else.
pub open spec fn lists_edges(arcs: Seq<Seq<(int, nat)>>, g: Graph) -> bool {
    &&& arcs.len() == g.n
    &&& arcs_follow_edges(arcs, g)
    &&& forall|i: int| 0 <= i < g.edges.len() ==> #[trigger] edge_listed(arcs, g.edges, i)
}

/// The lists after one more arc from `x` to `y` at weight `w`.
pub open spec fn with_arc(arcs: Seq<Seq<(int, nat)>>, x: int, y: int, w: nat) -> Seq<
    Seq<(int, nat)>,
> {
    arcs.update(x, arcs[x].push((y, w)))
}

proof fn lemma_with_arc_keeps(
    arcs: Seq<Seq<(int, nat)>>,
    x: int,
    y: int,
    w: nat,
    from: int,
    to: int,
    v: nat,
)
    requires
        0 <= x < arcs.len(),
        0 <= from < arcs.len(),
        listed(arcs, from, to, v),
    ensures
        listed(with_arc(arcs, x, y, w), from, to, v),
{
    let j = choose|j: int| #[trigger] entry_is(arcs, from, j, to, v);
    assert(entry_is(with_arc(arcs, x, y, w), from, j, to, v));
}

proof fn lemma_with_arc_lists(arcs: Seq<Seq<(int, nat)>>, x: int, y: int, w: nat)
    requires
        0 <= x < arcs.len(),
    ensures
        listed(with_arc(arcs, x, y, w), x, y, w),
{
    assert(entry_is(with_arc(arcs, x, y, w), x, arcs[x].len() as int, y, w));
}

proof fn lemma_with_arc_follows(arcs: Seq<Seq<(int, nat)>>, g: Graph, x: int, y: int, w: nat)
    requires
        0 <= x < arcs.len(),
        arcs_follow_edges(arcs, g),
        g.has_node(y),
        linked(g.edges, x, y, w),
    ensures
        arcs_follow_edges(with_arc(arcs, x, y, w), g),
{
    let next = with_arc(arcs, x, y, w);
    assert forall|u: int, j: int| 0 <= u < next.len() && 0 <= j < next[u].len() implies g.has_node(
        (#[trigger] next[u][j]).0,
    ) && linked(g.edges, u, next[u][j].0, next[u][j].1) by {
        if u == x && j == arcs[x].len() {
        } else {
            assert(next[u][j] == arcs[u][j]);
        }
    }
}

proof fn lemma_follows_extended(arcs: Seq<Seq<(int, nat)>>, g: Graph, more: Seq<Edge>)
    requires
        arcs_follow_edges(arcs, g),
    ensures
        arcs_follow_edges(arcs, g.extended(more)),
{
    let h = g.extended(more);
    assert forall|u: int, j: int| 0 <= u < arcs.len() && 0 <= j < arcs[u].len() implies h.has_node(
        (#[trigger] arcs[u][j]).0,
    ) && linked(h.edges, u, arcs[u][j].0, arcs[u][j].1) by {
        let i = choose|i: int| #[trigger] edge_is(g.edges, i, u, arcs[u][j].0, arcs[u][j].1);
        assert(edge_is(h.edges, i, u, arcs[u][j].0, arcs[u][j].1));
    }
}

/// One more edge, listed in both directions, keeps the lists in step with the graph.
proof fn lemma_edge_inserted(arcs: Seq<Seq<(int, nat)>>, g: Graph, e: Edge)
    requires
        g.well_formed(),
        lists_edges(arcs, g),
        g.has_node(e.a),
        g.has_node(e.b),
    ensures
        lists_edges(
            with_arc(with_arc(arcs, e.a, e.b, e.w), e.b, e.a, e.w),
            g.extended(seq![e]),
        ),
        g.extended(seq![e]).well_formed(),
{
    let h = g.extended(seq![e]);
    let one = with_arc(arcs, e.a, e.b, e.w);
    let two = with_arc(one, e.b, e.a, e.w);
    let last = g.edges.len() as int;
    assert(h.edges[last] == e);
    assert(edge_is(h.edges, last, e.a, e.b, e.w));
    assert(edge_is(h.edges, last, e.b, e.a, e.w));
    lemma_follows_extended(arcs, g, seq![e]);
    lemma_with_arc_follows(arcs, h, e.a, e.b, e.w);
    lemma_with_arc_follows(one, h, e.b, e.a, e.w);
    assert forall|i: int| 0 <= i < h.edges.len() implies #[trigger] edge_listed(
        two,
        h.edges,
        i,
    ) by {
        let f = h.edges[i];
        if i < last {
            assert(f == g.edges[i]);
            assert(edge_listed(arcs, g.edges, i));
            lemma_with_arc_keeps(arcs, e.a, e.b, e.w, f.a, f.b, f.w);
            lemma_with_arc_keeps(arcs, e.a, e.b, e.w, f.b, f.a, f.w);
            lemma_with_arc_keeps(one, e.b, e.a, e.w, f.a, f.b, f.w);
            lemma_with_arc_keeps(one, e.b, e.a, e.w, f.b, f.a, f.w);
        } else {
            lemma_with_arc_lists(arcs, e.a, e.b, e.w);
            lemma_with_arc_keeps(one, e.b, e.a, e.w, e.a, e.b, e.w);
            lemma_with_arc_lists(one, e.b, e.a, e.w);
        }
    }
    assert forall|i: int| 0 <= i < h.edges.len() implies h.has_node((#[trigger] h.edges[i]).a)
        && h.has_node(h.edges[i].b) by {
        if i < last {
            assert(h.edges[i] == g.edges[i]);
        }
    }
}

/// Adds to the lists an arc in each direction for every edge of the batch.
pub(crate) fn insert_edges<U: EdgeWeight>(
    adj: &mut Adjacency<U>,
    edges: &Vec<EdgeInfo<U>>,
    Ghost(g): Ghost<Graph>,
)
    requires
        g.well_formed(),
        lists_edges(arcs_view(old(adj)@), g),
        batch_in_range(edges@, g.n),
    ensures
        lists_edges(arcs_view(final(adj)@), g.extended(batch_view(edges@))),
        g.extended(batch_view(edges@)).well_formed(),
{
    let ghost batch = batch_view(edges@);
    let mut k: usize = 0;
    assert(g.extended(batch.take(0)) == g) by {
        assert(g.edges + batch.take(0) =~= g.edges);
    }
    while k < edges.len()
        invariant
            k <= edges.len(),
            batch == batch_view(edges@),
            batch_in_range(edges@, g.n),
            g.extended(batch.take(k as int)).well_formed(),
            lists_edges(arcs_view(adj@), g.extended(batch.take(k as int))),
        decreases edges.len() - k,
    {
        let ghost before = g.extended(batch.take(k as int));
        let ghost arcs0 = arcs_view(adj@);
        let a: NodeId = edges[k].u;
        let b: NodeId = edges[k].v;
        let w: U = edges[k].w;
        adj[a].push((b, w));
        let ghost arcs1 = arcs_view(adj@);
        adj[b].push((a, w));
        proof {
            let e = edges@[k as int]@;
            let arcs2 = arcs_view(adj@);
            assert(arcs1 =~~= with_arc(arcs0, e.a, e.b, e.w));
            assert(arcs2 =~~= with_arc(arcs1, e.b, e.a, e.w));
            lemma_edge_inserted(arcs0, before, e);
            assert(before.extended(seq![e]) == g.extended(batch.take(k + 1))) by {
                assert(before.edges + seq![e] =~= g.edges + batch.take(k + 1));
            }
        }
        k += 1;
    }
    assert(batch.take(k as int) =~= batch);
}

} // verus!
