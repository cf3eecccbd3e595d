//! Predecessor records: for one source, the tentative distance of every node
//! and the node before it on a cheapest known walk from the source, and the
//! reconstruction of explicit paths from such a record.

use vstd::prelude::*;
use vstd::set_lib::{lemma_int_range, lemma_len_subset, set_int_range};
use crate::graph::{
    Edge, Graph, Walk, backwards, below_all, connects, cost, exact, lemma_exact_shortest,
    lemma_shortest_symmetric, lemma_stay, lemma_step_on, lemma_traces_backwards, stay, step_on,
    traces,
};
use crate::shortest_path_algo::{EdgeWeight, NodeId, PathTrace, answers, path_view, values};

verus! {

/// The predecessors of a record, as the model sees them.
pub open spec fn pred_view(trace: Seq<Option<NodeId>>) -> Seq<Option<int>> {
    Seq::new(
        trace.len(),
        |i: int|
            match trace[i] {
                Some(m) => Some(m as int),
                None => None,
            },
    )
}

/// The nodes from `s` to `v` that the predecessor links spell out, followed
/// backwards from `v` for at most `fuel` links; nothing if they do not lead
/// to `s` within that.
pub open spec fn chain(pred: Seq<Option<int>>, s: int, v: int, fuel: nat) -> Option<Seq<int>>
    decreases fuel,
{
    if v == s {
        Some(seq![s])
    } else if fuel == 0 || !(0 <= v < pred.len()) {
        None
    } else {
        match pred[v] {
            None => None,
            Some(m) => match chain(pred, s, m, (fuel - 1) as nat) {
                Some(p) => Some(p.push(v)),
                None => None,
            },
        }
    }
}

/// Node `m` comes before node `v`: it is nearer, or as near and of lower rank.
pub open spec fn before(dist: Seq<nat>, rank: Seq<nat>, m: int, v: int) -> bool {
    dist[m] < dist[v] || (dist[m] == dist[v] && rank[m] < rank[v])
}

/// Edge `i` leads from `m` to `v` and accounts for the distance of `v`.
pub open spec fn supports(g: Graph, dist: Seq<nat>, m: int, i: int, v: int) -> bool {
    &&& 0 <= i < g.edges.len()
    &&& g.edges[i].joins(m, v)
    &&& dist[m] + g.edges[i].w <= dist[v]
}

/// Node `v`, where it is known to be reachable, hangs from a predecessor that
/// comes before it and whose distance and an edge account for its own.
pub open spec fn hangs(
    g: Graph,
    cap: nat,
    s: int,
    dist: Seq<nat>,
    pred: Seq<Option<int>>,
    rank: Seq<nat>,
    v: int,
) -> bool {
    v != s && dist[v] < cap ==> {
        &&& pred[v] is Some
        &&& g.has_node(pred[v].unwrap())
        &&& before(dist, rank, pred[v].unwrap(), v)
        &&& exists|i: int| #[trigger] supports(g, dist, pred[v].unwrap(), i, v)
    }
}

/// The record is a tree rooted at `s`: every node known to be reachable hangs
/// from one that comes before it.
pub open spec fn tree_ok(
    g: Graph,
    cap: nat,
    s: int,
    dist: Seq<nat>,
    pred: Seq<Option<int>>,
    rank: Seq<nat>,
) -> bool {
    &&& dist.len() == g.n
    &&& pred.len() == g.n
    &&& rank.len() == g.n
    &&& g.has_node(s)
    &&& dist[s] == 0
    &&& forall|v: int| 0 <= v < g.n ==> #[trigger] hangs(g, cap, s, dist, pred, rank, v)
}

/// The record is complete: a tree whose every distance is exact.
pub open spec fn record_ok(
    g: Graph,
    cap: nat,
    s: int,
    dist: Seq<nat>,
    pred: Seq<Option<int>>,
    rank: Seq<nat>,
) -> bool {
    &&& tree_ok(g, cap, s, dist, pred, rank)
    &&& forall|t: int| 0 <= t < g.n ==> #[trigger] exact(g, cap, s, t, dist[t])
}

/// A tree stays a tree when edges are added to the graph.
pub proof fn lemma_tree_extended(
    g: Graph,
    more: Seq<Edge>,
    cap: nat,
    s: int,
    dist: Seq<nat>,
    pred: Seq<Option<int>>,
    rank: Seq<nat>,
)
    requires
        tree_ok(g, cap, s, dist, pred, rank),
    ensures
        tree_ok(g.extended(more), cap, s, dist, pred, rank),
{
    let h = g.extended(more);
    assert forall|v: int| 0 <= v < h.n implies #[trigger] hangs(h, cap, s, dist, pred, rank, v) by {
        assert(hangs(g, cap, s, dist, pred, rank, v));
        if v != s && dist[v] < cap {
            let m = pred[v].unwrap();
            let i = choose|i: int| #[trigger] supports(g, dist, m, i, v);
            assert(supports(h, dist, m, i, v));
        }
    }
}

/// A tree stays a tree when an edge from `u` lowers the distance of `v` and
/// `v` is hung from `u`.
pub proof fn lemma_tree_improves(
    g: Graph,
    cap: nat,
    s: int,
    dist: Seq<nat>,
    pred: Seq<Option<int>>,
    rank: Seq<nat>,
    u: int,
    v: int,
    i: int,
)
    requires
        tree_ok(g, cap, s, dist, pred, rank),
        g.has_node(u),
        g.has_node(v),
        0 <= i < g.edges.len(),
        g.edges[i].joins(u, v),
        dist[u] + g.edges[i].w < dist[v],
    ensures
        u != v,
        v != s,
        tree_ok(
            g,
            cap,
            s,
            dist.update(v, dist[u] + g.edges[i].w),
            pred.update(v, Some(u)),
            rank.update(v, rank[u] + 1),
        ),
{
    let c = dist[u] + g.edges[i].w;
    let dist2 = dist.update(v, c);
    let pred2 = pred.update(v, Some(u));
    let rank2 = rank.update(v, rank[u] + 1);
    assert forall|x: int| 0 <= x < g.n implies #[trigger] hangs(
        g,
        cap,
        s,
        dist2,
        pred2,
        rank2,
        x,
    ) by {
        if x == v {
            assert(supports(g, dist2, u, i, v));
            assert(before(dist2, rank2, u, v));
        } else if x != s && dist2[x] < cap {
            assert(hangs(g, cap, s, dist, pred, rank, x));
            let m = pred[x].unwrap();
            let k = choose|k: int| #[trigger] supports(g, dist, m, k, x);
            assert(supports(g, dist2, m, k, x));
            assert(before(dist2, rank2, m, x));
        }
    }
}

/// The nodes that come before `v`.
pub open spec fn earlier_nodes(n: nat, dist: Seq<nat>, rank: Seq<nat>, v: int) -> Set<int> {
    Set::new(|x: int| 0 <= x < n && before(dist, rank, x, v))
}

proof fn lemma_earlier_nodes_finite(n: nat, dist: Seq<nat>, rank: Seq<nat>, v: int)
    requires
        0 <= v < n,
    ensures
        earlier_nodes(n, dist, rank, v).finite(),
        earlier_nodes(n, dist, rank, v).len() < n,
{
    let all = set_int_range(0, n as int);
    lemma_int_range(0, n as int);
    let rest = all.remove(v);
    assert(earlier_nodes(n, dist, rank, v).subset_of(rest));
    lemma_len_subset(earlier_nodes(n, dist, rank, v), rest);
}

/// In a tree, the links from a reachable node lead to the source within as
/// many steps as there are nodes before it, along a walk that costs no more
/// than the node's distance.
proof fn lemma_chain_walk(
    g: Graph,
    cap: nat,
    s: int,
    dist: Seq<nat>,
    pred: Seq<Option<int>>,
    rank: Seq<nat>,
    v: int,
    fuel: nat,
) -> (p: Walk)
    requires
        tree_ok(g, cap, s, dist, pred, rank),
        0 <= v < g.n,
        dist[v] < cap,
        earlier_nodes(g.n, dist, rank, v).len() <= fuel,
    ensures
        chain(pred, s, v, fuel) == Some(p.nodes),
        connects(g, p, s, v),
        cost(g, p.steps) <= dist[v],
    decreases fuel,
{
    if v == s {
        lemma_stay(g, s);
        stay(s)
    } else {
        assert(hangs(g, cap, s, dist, pred, rank, v));
        let m = pred[v].unwrap();
        let i = choose|i: int| #[trigger] supports(g, dist, m, i, v);
        let mine = earlier_nodes(g.n, dist, rank, v);
        let theirs = earlier_nodes(g.n, dist, rank, m);
        lemma_earlier_nodes_finite(g.n, dist, rank, v);
        lemma_earlier_nodes_finite(g.n, dist, rank, m);
        assert(mine.contains(m));
        assert(theirs.subset_of(mine.remove(m)));
        lemma_len_subset(theirs, mine.remove(m));
        let q = lemma_chain_walk(g, cap, s, dist, pred, rank, m, (fuel - 1) as nat);
        lemma_step_on(g, q, s, m, i, v);
        step_on(q, i, v)
    }
}

/// In a tree whose distances no walk undercuts, the links from a reachable
/// node spell out a walk from the source that costs exactly its distance.
pub proof fn lemma_chain_traces(
    g: Graph,
    cap: nat,
    s: int,
    dist: Seq<nat>,
    pred: Seq<Option<int>>,
    rank: Seq<nat>,
    t: int,
)
    requires
        tree_ok(g, cap, s, dist, pred, rank),
        0 <= t < g.n,
        dist[t] < cap,
        below_all(g, s, t, dist[t]),
    ensures
        chain(pred, s, t, g.n) is Some,
        traces(g, chain(pred, s, t, g.n).unwrap(), s, t, dist[t]),
{
    lemma_earlier_nodes_finite(g.n, dist, rank, t);
    let p = lemma_chain_walk(g, cap, s, dist, pred, rank, t, g.n);
    assert(connects(g, Walk { nodes: p.nodes, steps: p.steps }, s, t));
}

/// A vector of `n` copies of `x`.
pub fn filled<T: Copy>(x: T, n: usize) -> (v: Vec<T>)
    ensures
        v@.len() == n,
        forall|i: int| 0 <= i < n ==> v@[i] == x,
{
    let mut v: Vec<T> = Vec::new();
    let mut i: usize = 0;
    while i < n
        invariant
            i <= n,
            v@.len() == i,
            forall|j: int| 0 <= j < i ==> v@[j] == x,
        decreases n - i,
    {
        v.push(x);
        i += 1;
    }
    v
}

/// The nodes of `path` in the opposite order.
pub fn reversed_path(path: &Vec<NodeId>) -> (r: Vec<NodeId>)
    ensures
        r@ == backwards(path@),
{
    let mut r: Vec<NodeId> = Vec::new();
    let mut i: usize = path.len();
    while i > 0
        invariant
            i <= path.len(),
            r.len() == path.len() - i,
            forall|j: int| 0 <= j < r.len() ==> r[j] == path[path.len() - 1 - j],
        decreases i,
    {
        i -= 1;
        r.push(path[i]);
    }
    assert(r@ =~= backwards(path@));
    r
}

/// Rebuilds the nodes from `s` to `t` by following the predecessor links
/// backwards from `t`, for at most as many links as the record has entries.
/// Reports nothing where the links do not lead to `s`.
pub fn trace_path(s: NodeId, t: NodeId, trace: &[Option<NodeId>]) -> (r: Option<Vec<NodeId>>)
    ensures
        match chain(pred_view(trace@), s as int, t as int, trace@.len()) {
            Some(nodes) => r is Some && path_view(r.unwrap()@) == nodes,
            None => r is None,
        },
{
    let ghost pred = pred_view(trace@);
    let ghost whole = chain(pred, s as int, t as int, trace@.len());
    let mut path: Vec<NodeId> = Vec::new();
    let mut v: NodeId = t;
    let mut fuel: usize = trace.len();
    while v != s
        invariant
            pred == pred_view(trace@),
            whole == chain(pred, s as int, t as int, trace@.len()),
            fuel <= trace@.len(),
            whole == match chain(pred, s as int, v as int, fuel as nat) {
                Some(p) => Some(p + backwards(path_view(path@))),
                None => None,
            },
        decreases fuel,
    {
        if fuel == 0 || v >= trace.len() {
            return None;
        }
        match trace[v] {
            None => {
                return None;
            },
            Some(m) => {
                proof {
                    let before = path_view(path@);
                    let after = path_view(path@.push(v));
                    assert(pred[v as int] == Some(m as int));
                    assert(backwards(after) =~= seq![v as int] + backwards(before));
                    if let Some(p) = chain(pred, s as int, m as int, (fuel - 1) as nat) {
                        assert(p.push(v as int) + backwards(before) =~= p + backwards(after));
                    }
                }
                path.push(v);
                v = m;
                fuel -= 1;
            },
        }
    }
    proof {
        let before = path_view(path@);
        let after = path_view(path@.push(s));
        assert(backwards(after) =~= seq![s as int] + backwards(before));
    }
    path.push(s);
    let r = reversed_path(&path);
    assert(path_view(r@) =~= backwards(path_view(path@)));
    Some(r)
}


/// Answers a query from the source of a complete record to `t`: nothing
/// where the distance of `t` is the cap, and otherwise its distance, with
/// the path that the predecessors spell out where one is asked for.
pub(crate) fn read_record<U: EdgeWeight>(
    s: NodeId,
    t: NodeId,
    with_trace: bool,
    dist: &Vec<U>,
    trace: &Vec<Option<NodeId>>,
    highest_total_weight: U,
    Ghost(g): Ghost<Graph>,
    Ghost(rank): Ghost<Seq<nat>>,
) -> (r: Option<PathTrace<U>>)
    requires
        record_ok(
            g,
            highest_total_weight.value(),
            s as int,
            values(dist@),
            pred_view(trace@),
            rank,
        ),
        t < g.n,
    ensures
        answers(g, highest_total_weight.value(), s as int, t as int, with_trace, r),
{
    let ghost cap = highest_total_weight.value();
    proof {
        assert(exact(g, cap, s as int, t as int, values(dist@)[t as int]));
        lemma_exact_shortest(g, cap, s as int, t as int, values(dist@)[t as int]);
    }
    if dist[t].magnitude() == highest_total_weight.magnitude() {
        return None;
    }
    let path = if with_trace {
        proof {
            lemma_chain_traces(g, cap, s as int, values(dist@), pred_view(trace@), rank, t as int);
        }
        trace_path(s, t, trace.as_slice())
    } else {
        None
    };
    Some(PathTrace { dist: dist[t], path })
}

/// Turns the answer to a query from `t` to `s` into the answer to the query
/// from `s` to `t`: the same distance, and the path the other way round.
pub(crate) fn turned<U: EdgeWeight>(
    found: Option<PathTrace<U>>,
    Ghost(g): Ghost<Graph>,
    Ghost(cap): Ghost<nat>,
    Ghost(s): Ghost<int>,
    Ghost(t): Ghost<int>,
    Ghost(with_trace): Ghost<bool>,
) -> (r: Option<PathTrace<U>>)
    requires
        answers(g, cap, t, s, with_trace, found),
    ensures
        answers(g, cap, s, t, with_trace, r),
{
    proof {
        lemma_shortest_symmetric(g, cap, s, t);
    }
    match found {
        None => None,
        Some(there) => {
            let path = match there.path {
                Some(nodes) => {
                    let back = reversed_path(&nodes);
                    proof {
                        assert(path_view(back@) =~= backwards(path_view(nodes@)));
                        lemma_traces_backwards(g, path_view(nodes@), s, t, there.dist.value());
                    }
                    Some(back)
                },
                None => None,
            };
            Some(PathTrace { dist: there.dist, path })
        },
    }
}

} // verus!
