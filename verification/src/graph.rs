//! The mathematical model of an undirected weighted multigraph, of walks in
//! it, and of the distance between two of its nodes.

use vstd::prelude::*;

verus! {

/// An undirected edge between `a` and `b` of weight `w`.
pub struct Edge {
    pub a: int,
    pub b: int,
    pub w: nat,
}

impl Edge {
    /// Whether the edge links `x` and `y`, in either direction.
    pub open spec fn joins(self, x: int, y: int) -> bool {
        (self.a == x && self.b == y) || (self.a == y && self.b == x)
    }
}

/// A graph over the nodes `0..n`. Parallel edges and self-loops are allowed.
pub struct Graph {
    pub n: nat,
    pub edges: Seq<Edge>,
}

impl Graph {
    /// Whether `x` is a node of the graph.
    pub open spec fn has_node(self, x: int) -> bool {
        0 <= x < self.n
    }

    /// Every edge has both endpoints among the nodes.
    pub open spec fn well_formed(self) -> bool {
        forall|i: int|
            0 <= i < self.edges.len() ==> self.has_node((#[trigger] self.edges[i]).a)
                && self.has_node(self.edges[i].b)
    }

    /// The graph with the edges of `more` added after its own.
    pub open spec fn extended(self, more: Seq<Edge>) -> Graph {
        Graph { n: self.n, edges: self.edges + more }
    }
}

/// A walk: the nodes visited, and for each step the index of the edge taken.
pub struct Walk {
    pub nodes: Seq<int>,
    pub steps: Seq<int>,
}

/// The walk's steps all follow edges of the graph.
pub open spec fn is_walk(g: Graph, p: Walk) -> bool {
    &&& p.nodes.len() == p.steps.len() + 1
    &&& forall|i: int|
        0 <= i < p.steps.len() ==> 0 <= #[trigger] p.steps[i] < g.edges.len()
            && g.edges[p.steps[i]].joins(p.nodes[i], p.nodes[i + 1])
}

/// The walk leads from `s` to `t`.
pub open spec fn connects(g: Graph, p: Walk, s: int, t: int) -> bool {
    is_walk(g, p) && p.nodes[0] == s && p.nodes[p.nodes.len() - 1] == t
}

/// The sum of the weights of the edges taken.
pub open spec fn cost(g: Graph, steps: Seq<int>) -> nat
    decreases steps.len(),
{
    if steps.len() == 0 {
        0
    } else {
        cost(g, steps.drop_last()) + g.edges[steps.last()].w
    }
}

/// Some walk from `s` to `t` costs at most `d`.
pub open spec fn within(g: Graph, s: int, t: int, d: nat) -> bool {
    exists|p: Walk| #[trigger] connects(g, p, s, t) && cost(g, p.steps) <= d
}

/// No walk from `s` to `t` costs less than `d`.
pub open spec fn below_all(g: Graph, s: int, t: int, d: nat) -> bool {
    forall|p: Walk| #[trigger] connects(g, p, s, t) ==> d <= cost(g, p.steps)
}

/// `d` is the least cost of a walk from `s` to `t`.
pub open spec fn is_distance(g: Graph, s: int, t: int, d: nat) -> bool {
    within(g, s, t, d) && below_all(g, s, t, d)
}

/// The least cost of a walk from `s` to `t`, if there is a walk at all.
pub open spec fn distance(g: Graph, s: int, t: int) -> Option<nat> {
    if exists|d: nat| is_distance(g, s, t, d) {
        Some(choose|d: nat| is_distance(g, s, t, d))
    } else {
        None
    }
}

/// What a query from `s` to `t` has to report when `cap` stands for "no
/// path": the distance where it lies below `cap`, and nothing otherwise.
pub open spec fn shortest(g: Graph, cap: nat, s: int, t: int) -> Option<nat> {
    match distance(g, s, t) {
        Some(d) => if d < cap { Some(d) } else { None },
        None => None,
    }
}

/// `nodes` is a walk from `s` to `t` whose traversed edges weigh `d` in all.
pub open spec fn traces(g: Graph, nodes: Seq<int>, s: int, t: int, d: nat) -> bool {
    exists|steps: Seq<int>| #[trigger]
        connects(g, Walk { nodes, steps }, s, t) && cost(g, steps) == d
}


/// The sequence read backwards.
pub open spec fn backwards<A>(a: Seq<A>) -> Seq<A> {
    Seq::new(a.len(), |i: int| a[a.len() - 1 - i])
}

/// The walk that stays at `s`.
pub open spec fn stay(s: int) -> Walk {
    Walk { nodes: seq![s], steps: Seq::empty() }
}

/// The walk `p` followed by one more step along edge `i` to node `t`.
pub open spec fn step_on(p: Walk, i: int, t: int) -> Walk {
    Walk { nodes: p.nodes.push(t), steps: p.steps.push(i) }
}

/// The walk `p` followed by the walk `q`, which starts where `p` ends.
pub open spec fn joined(p: Walk, q: Walk) -> Walk {
    Walk { nodes: p.nodes + q.nodes.skip(1), steps: p.steps + q.steps }
}

/// The walk taken in the other direction.
pub open spec fn reversed(p: Walk) -> Walk {
    Walk { nodes: backwards(p.nodes), steps: backwards(p.steps) }
}

/// The first `k` steps of the walk.
pub open spec fn head(p: Walk, k: int) -> Walk {
    Walk { nodes: p.nodes.take(k + 1), steps: p.steps.take(k) }
}

/// The walk without its first `k` steps.
pub open spec fn tail(p: Walk, k: int) -> Walk {
    Walk { nodes: p.nodes.skip(k), steps: p.steps.skip(k) }
}

/// One more step adds the weight of its edge to the cost.
pub proof fn lemma_cost_push(g: Graph, a: Seq<int>, i: int)
    ensures
        cost(g, a.push(i)) == cost(g, a) + g.edges[i].w,
{
    assert(a.push(i).drop_last() =~= a);
}

/// A single step costs the weight of its edge.
pub proof fn lemma_cost_single(g: Graph, steps: Seq<int>)
    requires
        steps.len() == 1,
    ensures
        cost(g, steps) == g.edges[steps[0]].w,
{
    assert(steps.drop_last() =~= Seq::<int>::empty());
    assert(cost(g, steps.drop_last()) == 0);
}

/// The cost of steps in a row is the sum of their costs.
pub proof fn lemma_cost_append(g: Graph, a: Seq<int>, b: Seq<int>)
    ensures
        cost(g, a + b) == cost(g, a) + cost(g, b),
    decreases b.len(),
{
    if b.len() == 0 {
        assert(a + b =~= a);
    } else {
        lemma_cost_append(g, a, b.drop_last());
        assert((a + b).drop_last() =~= a + b.drop_last());
    }
}

/// Steps taken backwards cost the same.
pub proof fn lemma_cost_backwards(g: Graph, a: Seq<int>)
    ensures
        cost(g, backwards(a)) == cost(g, a),
    decreases a.len(),
{
    if a.len() == 0 {
        assert(backwards(a) =~= a);
    } else {
        let front = seq![a.last()];
        lemma_cost_backwards(g, a.drop_last());
        lemma_cost_append(g, front, backwards(a.drop_last()));
        assert(backwards(a) =~= front + backwards(a.drop_last()));
        lemma_cost_push(g, Seq::empty(), a.last());
        assert(Seq::<int>::empty().push(a.last()) =~= front);
    }
}

/// Edges added to a graph leave the cost of a walk through the old ones as it was.
pub proof fn lemma_cost_extended(g: Graph, more: Seq<Edge>, steps: Seq<int>)
    requires
        forall|i: int| 0 <= i < steps.len() ==> 0 <= #[trigger] steps[i] < g.edges.len(),
    ensures
        cost(g.extended(more), steps) == cost(g, steps),
    decreases steps.len(),
{
    if steps.len() > 0 {
        lemma_cost_extended(g, more, steps.drop_last());
    }
}

/// Staying at a node is a walk of cost 0.
pub proof fn lemma_stay(g: Graph, s: int)
    ensures
        connects(g, stay(s), s, s),
        cost(g, stay(s).steps) == 0,
{
}

/// A walk followed by a step along an edge is a walk, and costs the weight of the edge more.
pub proof fn lemma_step_on(g: Graph, p: Walk, s: int, m: int, i: int, t: int)
    requires
        connects(g, p, s, m),
        0 <= i < g.edges.len(),
        g.edges[i].joins(m, t),
    ensures
        connects(g, step_on(p, i, t), s, t),
        cost(g, step_on(p, i, t).steps) == cost(g, p.steps) + g.edges[i].w,
{
    lemma_cost_push(g, p.steps, i);
}

/// Two walks in a row are a walk, and cost the sum of their costs.
pub proof fn lemma_joined(g: Graph, p: Walk, q: Walk, s: int, m: int, t: int)
    requires
        connects(g, p, s, m),
        connects(g, q, m, t),
    ensures
        connects(g, joined(p, q), s, t),
        cost(g, joined(p, q).steps) == cost(g, p.steps) + cost(g, q.steps),
{
    lemma_cost_append(g, p.steps, q.steps);
    let r = joined(p, q);
    let k = p.steps.len() as int;
    assert forall|i: int| 0 <= i < r.steps.len() implies 0 <= #[trigger] r.steps[i]
        < g.edges.len() && g.edges[r.steps[i]].joins(r.nodes[i], r.nodes[i + 1]) by {
        if i < k {
            assert(r.steps[i] == p.steps[i]);
            assert(r.nodes[i] == p.nodes[i]);
            if i + 1 <= k {
                assert(r.nodes[i + 1] == p.nodes[i + 1]);
            }
        } else {
            assert(r.steps[i] == q.steps[i - k]);
            assert(r.nodes[i + 1] == q.nodes[i - k + 1]);
            if i == k {
                assert(r.nodes[i] == p.nodes[k]);
            } else {
                assert(r.nodes[i] == q.nodes[i - k]);
            }
        }
    }
}

/// A walk taken in the other direction is a walk of the same cost.
pub proof fn lemma_reversed(g: Graph, p: Walk, s: int, t: int)
    requires
        connects(g, p, s, t),
    ensures
        connects(g, reversed(p), t, s),
        cost(g, reversed(p).steps) == cost(g, p.steps),
{
    lemma_cost_backwards(g, p.steps);
    let r = reversed(p);
    let k = p.steps.len() as int;
    assert forall|i: int| 0 <= i < r.steps.len() implies 0 <= #[trigger] r.steps[i]
        < g.edges.len() && g.edges[r.steps[i]].joins(r.nodes[i], r.nodes[i + 1]) by {
        assert(r.steps[i] == p.steps[k - 1 - i]);
        assert(r.nodes[i] == p.nodes[k - i]);
        assert(r.nodes[i + 1] == p.nodes[k - 1 - i]);
    }
}

/// A walk falls into its first `k` steps and the rest, and so does its cost.
pub proof fn lemma_split(g: Graph, p: Walk, s: int, t: int, k: int)
    requires
        connects(g, p, s, t),
        0 <= k <= p.steps.len(),
    ensures
        connects(g, head(p, k), s, p.nodes[k]),
        connects(g, tail(p, k), p.nodes[k], t),
        cost(g, p.steps) == cost(g, head(p, k).steps) + cost(g, tail(p, k).steps),
{
    lemma_cost_append(g, p.steps.take(k), p.steps.skip(k));
    assert(p.steps.take(k) + p.steps.skip(k) =~= p.steps);
    let h = head(p, k);
    assert forall|i: int| 0 <= i < h.steps.len() implies 0 <= #[trigger] h.steps[i]
        < g.edges.len() && g.edges[h.steps[i]].joins(h.nodes[i], h.nodes[i + 1]) by {
        assert(h.steps[i] == p.steps[i]);
    }
    let r = tail(p, k);
    assert forall|i: int| 0 <= i < r.steps.len() implies 0 <= #[trigger] r.steps[i]
        < g.edges.len() && g.edges[r.steps[i]].joins(r.nodes[i], r.nodes[i + 1]) by {
        assert(r.steps[i] == p.steps[i + k]);
        assert(r.nodes[i] == p.nodes[i + k]);
        assert(r.nodes[i + 1] == p.nodes[i + k + 1]);
    }
}

/// A walk stays a walk, at the same cost, when edges are added to the graph.
pub proof fn lemma_walk_extended(g: Graph, more: Seq<Edge>, p: Walk, s: int, t: int)
    requires
        connects(g, p, s, t),
    ensures
        connects(g.extended(more), p, s, t),
        cost(g.extended(more), p.steps) == cost(g, p.steps),
{
    lemma_cost_extended(g, more, p.steps);
    let e = g.extended(more);
    assert forall|i: int| 0 <= i < p.steps.len() implies 0 <= #[trigger] p.steps[i]
        < e.edges.len() && e.edges[p.steps[i]].joins(p.nodes[i], p.nodes[i + 1]) by {
        assert(e.edges[p.steps[i]] == g.edges[p.steps[i]]);
    }
}

/// A walk that starts at a node of a well-formed graph visits only its nodes.
pub proof fn lemma_walk_nodes(g: Graph, p: Walk, i: int)
    requires
        g.well_formed(),
        is_walk(g, p),
        g.has_node(p.nodes[0]),
        0 <= i < p.nodes.len(),
    ensures
        g.has_node(p.nodes[i]),
{
    if i > 0 {
        let e = g.edges[p.steps[i - 1]];
        assert(e.joins(p.nodes[i - 1], p.nodes[i - 1 + 1]));
    }
}

/// Every node reaches itself at cost 0.
pub proof fn lemma_within_stay(g: Graph, s: int)
    ensures
        within(g, s, s, 0),
{
    lemma_stay(g, s);
}

/// What reaches `m` within `d` reaches a neighbour of `m` within `d` and the weight of the edge.
pub proof fn lemma_within_step(g: Graph, s: int, m: int, d: nat, i: int, t: int)
    requires
        within(g, s, m, d),
        0 <= i < g.edges.len(),
        g.edges[i].joins(m, t),
    ensures
        within(g, s, t, d + g.edges[i].w),
{
    let p = choose|p: Walk| #[trigger] connects(g, p, s, m) && cost(g, p.steps) <= d;
    lemma_step_on(g, p, s, m, i, t);
}

/// What reaches `m` within `d1`, where `m` reaches `t` within `d2`, reaches `t` within the sum.
pub proof fn lemma_within_joined(g: Graph, s: int, m: int, t: int, d1: nat, d2: nat)
    requires
        within(g, s, m, d1),
        within(g, m, t, d2),
    ensures
        within(g, s, t, d1 + d2),
{
    let p = choose|p: Walk| #[trigger] connects(g, p, s, m) && cost(g, p.steps) <= d1;
    let q = choose|q: Walk| #[trigger] connects(g, q, m, t) && cost(g, q.steps) <= d2;
    lemma_joined(g, p, q, s, m, t);
}

/// What `s` reaches within `d` reaches `s` within `d`.
pub proof fn lemma_within_reversed(g: Graph, s: int, t: int, d: nat)
    requires
        within(g, s, t, d),
    ensures
        within(g, t, s, d),
{
    let p = choose|p: Walk| #[trigger] connects(g, p, s, t) && cost(g, p.steps) <= d;
    lemma_reversed(g, p, s, t);
}

/// What no walk from `s` to `t` undercuts, no walk from `t` to `s` undercuts.
pub proof fn lemma_below_all_reversed(g: Graph, s: int, t: int, d: nat)
    requires
        below_all(g, s, t, d),
    ensures
        below_all(g, t, s, d),
{
    assert forall|p: Walk| #[trigger] connects(g, p, t, s) implies d <= cost(g, p.steps) by {
        lemma_reversed(g, p, t, s);
    }
}

/// What is reached within `d` stays so when edges are added.
pub proof fn lemma_within_extended(g: Graph, more: Seq<Edge>, s: int, t: int, d: nat)
    requires
        within(g, s, t, d),
    ensures
        within(g.extended(more), s, t, d),
{
    let p = choose|p: Walk| #[trigger] connects(g, p, s, t) && cost(g, p.steps) <= d;
    lemma_walk_extended(g, more, p, s, t);
}

/// Two nodes have at most one distance.
pub proof fn lemma_distance_unique(g: Graph, s: int, t: int, d1: nat, d2: nat)
    requires
        is_distance(g, s, t, d1),
        is_distance(g, s, t, d2),
    ensures
        d1 == d2,
{
    let p = choose|p: Walk| #[trigger] connects(g, p, s, t) && cost(g, p.steps) <= d1;
    let q = choose|q: Walk| #[trigger] connects(g, q, s, t) && cost(g, q.steps) <= d2;
}

/// A value below the cap that is the distance is what a query reports.
pub proof fn lemma_shortest_found(g: Graph, cap: nat, s: int, t: int, d: nat)
    requires
        is_distance(g, s, t, d),
        d < cap,
    ensures
        shortest(g, cap, s, t) == Some(d),
{
    let c = choose|c: nat| is_distance(g, s, t, c);
    lemma_distance_unique(g, s, t, c, d);
}

/// Where no walk costs less than the cap, a query reports nothing.
pub proof fn lemma_shortest_absent(g: Graph, cap: nat, s: int, t: int)
    requires
        below_all(g, s, t, cap),
    ensures
        shortest(g, cap, s, t) is None,
{
    if exists|d: nat| is_distance(g, s, t, d) {
        let c = choose|c: nat| is_distance(g, s, t, c);
        let p = choose|p: Walk| #[trigger] connects(g, p, s, t) && cost(g, p.steps) <= c;
    }
}

/// An exact cell: `d` is the distance from `s` to `t` where that lies below
/// `cap`, and `cap` otherwise.
pub open spec fn exact(g: Graph, cap: nat, s: int, t: int, d: nat) -> bool {
    &&& d <= cap
    &&& below_all(g, s, t, d)
    &&& d < cap ==> within(g, s, t, d)
}

/// An exact cell holds what a query reports.
pub proof fn lemma_exact_shortest(g: Graph, cap: nat, s: int, t: int, d: nat)
    requires
        exact(g, cap, s, t, d),
    ensures
        shortest(g, cap, s, t) == if d < cap {
            Some(d)
        } else {
            None
        },
{
    if d < cap {
        lemma_shortest_found(g, cap, s, t, d);
    } else {
        lemma_shortest_absent(g, cap, s, t);
    }
}

/// Two exact cells for the same pair of nodes hold the same value.
pub proof fn lemma_exact_unique(g: Graph, cap: nat, s: int, t: int, d1: nat, d2: nat)
    requires
        exact(g, cap, s, t, d1),
        exact(g, cap, s, t, d2),
    ensures
        d1 == d2,
{
    if d1 < cap {
        let p = choose|p: Walk| #[trigger] connects(g, p, s, t) && cost(g, p.steps) <= d1;
    }
    if d2 < cap {
        let q = choose|q: Walk| #[trigger] connects(g, q, s, t) && cost(g, q.steps) <= d2;
    }
}


/// An exact cell for a pair of nodes is exact for the pair taken the other way round.
pub proof fn lemma_exact_reversed(g: Graph, cap: nat, s: int, t: int, d: nat)
    requires
        exact(g, cap, s, t, d),
    ensures
        exact(g, cap, t, s, d),
{
    lemma_below_all_reversed(g, s, t, d);
    if d < cap {
        lemma_within_reversed(g, s, t, d);
    }
}


/// The distance from `s` to `t` is the distance from `t` to `s`.
pub proof fn lemma_distance_symmetric(g: Graph, s: int, t: int)
    ensures
        distance(g, s, t) == distance(g, t, s),
{
    assert forall|d: nat| is_distance(g, s, t, d) implies is_distance(g, t, s, d) by {
        lemma_within_reversed(g, s, t, d);
        lemma_below_all_reversed(g, s, t, d);
    }
    assert forall|d: nat| is_distance(g, t, s, d) implies is_distance(g, s, t, d) by {
        lemma_within_reversed(g, t, s, d);
        lemma_below_all_reversed(g, t, s, d);
    }
    if exists|d: nat| is_distance(g, s, t, d) {
        let d1 = choose|d: nat| is_distance(g, s, t, d);
        let d2 = choose|d: nat| is_distance(g, t, s, d);
        lemma_distance_unique(g, s, t, d1, d2);
    }
}

/// A query from `s` to `t` reports what a query from `t` to `s` reports.
pub proof fn lemma_shortest_symmetric(g: Graph, cap: nat, s: int, t: int)
    ensures
        shortest(g, cap, s, t) == shortest(g, cap, t, s),
{
    lemma_distance_symmetric(g, s, t);
}

/// The nodes of a walk from `t` to `s`, read backwards, are a walk from `s`
/// to `t` over the same edges.
pub proof fn lemma_traces_backwards(g: Graph, nodes: Seq<int>, s: int, t: int, d: nat)
    requires
        traces(g, nodes, t, s, d),
    ensures
        traces(g, backwards(nodes), s, t, d),
{
    let steps = choose|steps: Seq<int>| #[trigger]
        connects(g, Walk { nodes, steps }, t, s) && cost(g, steps) == d;
    lemma_reversed(g, Walk { nodes, steps }, t, s);
    assert(connects(g, Walk { nodes: backwards(nodes), steps: backwards(steps) }, s, t));
}


/// Where some walk leads from `s` to `t`, the two have a distance, and it is
/// at most the cost of that walk.
pub proof fn lemma_distance_exists(g: Graph, s: int, t: int, d: nat)
    requires
        within(g, s, t, d),
    ensures
        exists|m: nat| m <= d && is_distance(g, s, t, m),
    decreases d,
{
    if below_all(g, s, t, d) {
        assert(is_distance(g, s, t, d));
    } else {
        let p = choose|p: Walk| #[trigger] connects(g, p, s, t) && !(d <= cost(g, p.steps));
        lemma_distance_exists(g, s, t, cost(g, p.steps));
    }
}

/// A query reports a value exactly where that value is the distance and lies below the cap.
pub proof fn lemma_shortest_is_distance(g: Graph, cap: nat, s: int, t: int, d: nat)
    ensures
        shortest(g, cap, s, t) == Some(d) <==> d < cap && is_distance(g, s, t, d),
{
    if d < cap && is_distance(g, s, t, d) {
        lemma_shortest_found(g, cap, s, t, d);
    }
}

/// A query reports nothing exactly where no walk costs less than the cap.
pub proof fn lemma_shortest_none(g: Graph, cap: nat, s: int, t: int)
    ensures
        shortest(g, cap, s, t) is None <==> below_all(g, s, t, cap),
{
    if below_all(g, s, t, cap) {
        lemma_shortest_absent(g, cap, s, t);
    }
    if shortest(g, cap, s, t) is None {
        assert forall|p: Walk| #[trigger] connects(g, p, s, t) implies cap <= cost(g, p.steps) by {
            if cost(g, p.steps) < cap {
                lemma_distance_exists(g, s, t, cost(g, p.steps));
                let m = choose|m: nat| m <= cost(g, p.steps) && is_distance(g, s, t, m);
                lemma_shortest_found(g, cap, s, t, m);
            }
        }
    }
}

/// Some edge links `x` and `y`.
pub open spec fn adjacent(g: Graph, x: int, y: int) -> bool {
    exists|j: int| 0 <= j < g.edges.len() && (#[trigger] g.edges[j]).joins(x, y)
}

/// Nodes that trace a walk from `s` to `t` start at `s`, end at `t`, and
/// every two in a row are linked by an edge.
pub proof fn lemma_traces_path(g: Graph, nodes: Seq<int>, s: int, t: int, d: nat)
    requires
        traces(g, nodes, s, t, d),
    ensures
        nodes.len() >= 1,
        nodes[0] == s,
        nodes[nodes.len() - 1] == t,
        forall|i: int| 0 <= i < nodes.len() - 1 ==> adjacent(g, #[trigger] nodes[i], nodes[i + 1]),
{
    let steps = choose|steps: Seq<int>| #[trigger]
        connects(g, Walk { nodes, steps }, s, t) && cost(g, steps) == d;
    assert forall|i: int| 0 <= i < nodes.len() - 1 implies adjacent(
        g,
        #[trigger] nodes[i],
        nodes[i + 1],
    ) by {
        assert(g.edges[steps[i]].joins(nodes[i], nodes[i + 1]));
    }
}

} // verus!
