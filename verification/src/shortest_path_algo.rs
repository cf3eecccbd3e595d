//! The types shared by the engines and the contract that both of them meet.

use vstd::prelude::*;
use crate::graph::{Edge, Graph, shortest, traces};

verus! {

pub type NodeId = usize;

/// A weight type with an additive identity.
pub trait ZeroWeight: Sized {
    /// The additive identity, for use in specifications.
    spec fn zero_spec() -> Self;

    /// The additive identity.
    fn zero() -> (z: Self)
        ensures
            z == Self::zero_spec(),
    ;
}

/// What an edge weight must offer: a non-negative magnitude by which weights
/// are ordered, a zero of magnitude 0, and an addition that stops at a cap.
///
/// Weights are never negative: shortest-path search by priority queue is
/// unsound otherwise.
pub trait EdgeWeight: Copy + ZeroWeight {
    /// The weight as a natural number.
    spec fn value(&self) -> nat;

    /// The additive identity has magnitude 0.
    proof fn lemma_zero_value()
        ensures
            Self::zero_spec().value() == 0,
    ;

    /// The weight as a machine integer; weights are ordered by it.
    fn magnitude(&self) -> (m: u128)
        ensures
            m == self.value(),
    ;

    /// `self + other`, or `cap` where the sum would reach or exceed it.
    fn capped_sum(&self, other: &Self, cap: &Self) -> (s: Self)
        ensures
            s.value() == if self.value() + other.value() < cap.value() {
                self.value() + other.value()
            } else {
                cap.value()
            },
    ;
}

impl ZeroWeight for u128 {
    open spec fn zero_spec() -> Self {
        0
    }

    fn zero() -> Self {
        0
    }
}

impl EdgeWeight for u128 {
    open spec fn value(&self) -> nat {
        *self as nat
    }

    /// The additive identity has magnitude 0.
    proof fn lemma_zero_value() {
    }

    fn magnitude(&self) -> u128 {
        *self
    }

    fn capped_sum(&self, other: &Self, cap: &Self) -> Self {
        match self.checked_add(*other) {
            Some(s) => if s < *cap {
                s
            } else {
                *cap
            },
            None => *cap,
        }
    }
}

/// The answer to a query: the distance and, where it was asked for, the nodes
/// of a shortest path from source to target, both included.
#[derive(Debug, PartialEq)]
pub struct PathTrace<U: EdgeWeight> {
    pub dist: U,
    pub path: Option<Vec<NodeId>>,
}

/// An undirected edge between `u` and `v` of weight `w`.
pub struct EdgeInfo<U: EdgeWeight> {
    pub u: NodeId,
    pub v: NodeId,
    pub w: U,
}

impl<U: EdgeWeight> View for EdgeInfo<U> {
    type V = Edge;

    open spec fn view(&self) -> Edge {
        Edge { a: self.u as int, b: self.v as int, w: self.w.value() }
    }
}

/// The edges of a batch, as the model sees them.
pub open spec fn batch_view<U: EdgeWeight>(edges: Seq<EdgeInfo<U>>) -> Seq<Edge> {
    Seq::new(edges.len(), |i: int| edges[i]@)
}

/// The magnitudes of a vector of weights.
pub open spec fn values<U: EdgeWeight>(weights: Seq<U>) -> Seq<nat> {
    Seq::new(weights.len(), |i: int| weights[i].value())
}

/// The nodes of a path, as the model sees them.
pub open spec fn path_view(path: Seq<NodeId>) -> Seq<int> {
    Seq::new(path.len(), |i: int| path[i] as int)
}

/// Every edge of the batch has both endpoints below `n`.
pub open spec fn batch_in_range<U: EdgeWeight>(edges: Seq<EdgeInfo<U>>, n: nat) -> bool {
    forall|i: int| 0 <= i < edges.len() ==> (#[trigger] edges[i]).u < n && edges[i].v < n
}

/// Whether `r` is the right answer to a query from `s` to `t` in `g`, where
/// `cap` stands for "no path": nothing if no walk costs less than `cap`, and
/// otherwise the distance, with a shortest path exactly when one was asked for.
pub open spec fn answers<U: EdgeWeight>(
    g: Graph,
    cap: nat,
    s: int,
    t: int,
    with_trace: bool,
    r: Option<PathTrace<U>>,
) -> bool {
    match r {
        None => shortest(g, cap, s, t) is None,
        Some(found) => {
            &&& shortest(g, cap, s, t) == Some(found.dist.value())
            &&& found.path is Some <==> with_trace
            &&& found.path matches Some(nodes) ==> traces(
                g,
                path_view(nodes@),
                s,
                t,
                found.dist.value(),
            )
        },
    }
}

/// A shortest-path engine over the nodes `0..n` of a graph that only grows.
pub trait ShortestPathAlgo<U: EdgeWeight> {
    /// The name of the algorithm.
    const NAME: &'static str;

    /// The engine's internal consistency.
    spec fn inv(&self) -> bool;

    /// The graph that the engine answers for.
    spec fn graph(&self) -> Graph;

    /// The magnitude of the weight that stands for "no path".
    spec fn cap(&self) -> nat;

    /// Answers the query from `u` to `v`: nothing where no walk between the
    /// two costs less than the cap, and otherwise the distance, with the
    /// nodes of a shortest path where `with_trace` asks for them. The graph
    /// stays as it is.
    fn find(&mut self, u: NodeId, v: NodeId, with_trace: bool) -> (r: Option<PathTrace<U>>)
        requires
            old(self).inv(),
            u < old(self).graph().n,
            v < old(self).graph().n,
        ensures
            final(self).inv(),
            final(self).graph() == old(self).graph(),
            final(self).cap() == old(self).cap(),
            answers(old(self).graph(), old(self).cap(), u as int, v as int, with_trace, r),
    ;

    /// Adds the edges of the batch to the graph; every later answer holds
    /// for the larger graph.
    fn add_edges(&mut self, edges: &Vec<EdgeInfo<U>>)
        requires
            old(self).inv(),
            batch_in_range(edges@, old(self).graph().n),
        ensures
            final(self).inv(),
            final(self).graph() == old(self).graph().extended(batch_view(edges@)),
            final(self).cap() == old(self).cap(),
    ;
}

} // verus!
