//! What holds of every right answer to a query, whichever engine gave it.

use vstd::prelude::*;
use crate::graph::{
    Graph, Walk, adjacent, below_all, connects, is_distance, lemma_shortest_is_distance,
    lemma_shortest_none, lemma_shortest_symmetric, lemma_traces_path, traces,
};
use crate::shortest_path_algo::{EdgeWeight, PathTrace, ShortestPathAlgo, answers, path_view};

verus! {

/// Between two nodes that no walk connects, a query finds nothing.
pub proof fn lemma_unconnected_is_absent<U: EdgeWeight>(
    g: Graph,
    cap: nat,
    s: int,
    t: int,
    with_trace: bool,
    r: Option<PathTrace<U>>,
)
    requires
        answers(g, cap, s, t, with_trace, r),
        forall|p: Walk| !connects(g, p, s, t),
    ensures
        r is None,
{
    lemma_shortest_none(g, cap, s, t);
}

/// A query finds nothing exactly where no walk between the two nodes costs
/// less than the cap.
pub proof fn lemma_absent_iff_nothing_below_cap<U: EdgeWeight>(
    g: Graph,
    cap: nat,
    s: int,
    t: int,
    with_trace: bool,
    r: Option<PathTrace<U>>,
)
    requires
        answers(g, cap, s, t, with_trace, r),
    ensures
        r is None <==> below_all(g, s, t, cap),
{
    lemma_shortest_none(g, cap, s, t);
}

/// The distance that a query finds lies below the cap, is the cost of some
/// walk between the two nodes, and no walk between them costs less.
pub proof fn lemma_found_is_least<U: EdgeWeight>(
    g: Graph,
    cap: nat,
    s: int,
    t: int,
    with_trace: bool,
    r: Option<PathTrace<U>>,
)
    requires
        answers(g, cap, s, t, with_trace, r),
        r is Some,
    ensures
        r.unwrap().dist.value() < cap,
        is_distance(g, s, t, r.unwrap().dist.value()),
{
    lemma_shortest_is_distance(g, cap, s, t, r.unwrap().dist.value());
}

/// A path that a query returns starts at the source and ends at the target,
/// every two nodes in a row are linked by an edge of the graph, and the
/// edges traversed weigh the distance found in all.
pub proof fn lemma_path_is_valid<U: EdgeWeight>(
    g: Graph,
    cap: nat,
    s: int,
    t: int,
    with_trace: bool,
    r: Option<PathTrace<U>>,
)
    requires
        answers(g, cap, s, t, with_trace, r),
        r is Some,
        r.unwrap().path is Some,
    ensures
        ({
            let nodes = path_view(r.unwrap().path.unwrap()@);
            &&& nodes.len() >= 1
            &&& nodes[0] == s
            &&& nodes[nodes.len() - 1] == t
            &&& forall|i: int|
                0 <= i < nodes.len() - 1 ==> adjacent(g, #[trigger] nodes[i], nodes[i + 1])
            &&& traces(g, nodes, s, t, r.unwrap().dist.value())
        }),
{
    lemma_traces_path(g, path_view(r.unwrap().path.unwrap()@), s, t, r.unwrap().dist.value());
}

/// Two right answers to the same query agree: both find nothing, or both
/// find the same distance, and the paths they return cost the same.
pub proof fn lemma_answers_agree<U: EdgeWeight>(
    g: Graph,
    cap: nat,
    s: int,
    t: int,
    with_trace: bool,
    a: Option<PathTrace<U>>,
    b: Option<PathTrace<U>>,
)
    requires
        answers(g, cap, s, t, with_trace, a),
        answers(g, cap, s, t, with_trace, b),
    ensures
        a is Some <==> b is Some,
        a is Some ==> a.unwrap().dist.value() == b.unwrap().dist.value(),
        a is Some && with_trace ==> exists|d: nat|
            #![trigger traces(g, path_view(a.unwrap().path.unwrap()@), s, t, d)]
            traces(g, path_view(a.unwrap().path.unwrap()@), s, t, d) && traces(
                g,
                path_view(b.unwrap().path.unwrap()@),
                s,
                t,
                d,
            ),
{
    if a is Some && with_trace {
        assert(traces(g, path_view(a.unwrap().path.unwrap()@), s, t, a.unwrap().dist.value()));
    }
}

/// Two engines that stand for the same graph under the same cap answer
/// every query alike, whatever their kind.
pub proof fn lemma_engines_agree<U: EdgeWeight, A: ShortestPathAlgo<U>, B: ShortestPathAlgo<U>>(
    one: &A,
    other: &B,
    s: int,
    t: int,
    with_trace: bool,
    a: Option<PathTrace<U>>,
    b: Option<PathTrace<U>>,
)
    requires
        one.graph() == other.graph(),
        one.cap() == other.cap(),
        answers(one.graph(), one.cap(), s, t, with_trace, a),
        answers(other.graph(), other.cap(), s, t, with_trace, b),
    ensures
        a is Some <==> b is Some,
        a is Some ==> a.unwrap().dist.value() == b.unwrap().dist.value(),
        a is Some && with_trace ==> exists|d: nat|
            #![trigger traces(one.graph(), path_view(a.unwrap().path.unwrap()@), s, t, d)]
            traces(one.graph(), path_view(a.unwrap().path.unwrap()@), s, t, d) && traces(
                one.graph(),
                path_view(b.unwrap().path.unwrap()@),
                s,
                t,
                d,
            ),
{
    lemma_answers_agree(one.graph(), one.cap(), s, t, with_trace, a, b);
}

/// The answer to the query from `s` to `t` and the answer to the query from
/// `t` to `s` find the same distance, or both nothing.
pub proof fn lemma_answers_symmetric<U: EdgeWeight>(
    g: Graph,
    cap: nat,
    s: int,
    t: int,
    forth_with_trace: bool,
    back_with_trace: bool,
    forth: Option<PathTrace<U>>,
    back: Option<PathTrace<U>>,
)
    requires
        answers(g, cap, s, t, forth_with_trace, forth),
        answers(g, cap, t, s, back_with_trace, back),
    ensures
        forth is Some <==> back is Some,
        forth is Some ==> forth.unwrap().dist.value() == back.unwrap().dist.value(),
{
    lemma_shortest_symmetric(g, cap, s, t);
}

} // verus!
