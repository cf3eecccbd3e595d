//! The single-source engine: a search from one source driven by a priority
//! queue, whose full result is kept per source in a bounded cache.

use vstd::prelude::*;
use crate::adjacency::{Adjacency, arcs_view, insert_edges, lists_edges};
use crate::graph::{Edge, Graph, exact};
use crate::record::{chain, pred_view, read_record, record_ok, trace_path, turned};
use crate::search::search;
use crate::shortest_path_algo::{
    EdgeInfo, EdgeWeight, NodeId, PathTrace, ShortestPathAlgo, answers, batch_in_range,
    batch_view, path_view, values,
};

verus! {

/// The full result of one search: the distance and the predecessor of every
/// node, and how often the result has served.
struct PathCache<U: EdgeWeight> {
    count: usize,
    dist: Vec<U>,
    trace: Vec<Option<NodeId>>,
    /// The ranks by which the predecessor links are known to lead to the source.
    rank: Ghost<Seq<nat>>,
}

/// The single-source engine. It searches from a source the first time a
/// query names it and keeps the result for later queries, for at most
/// `max_caches` sources at a time.
pub struct Dijkstra<U: EdgeWeight> {
    n: NodeId,
    caches: Vec<Option<PathCache<U>>>,
    adj: Adjacency<U>,
    highest_total_weight: U,
    max_caches: usize,
    cached_nodes: Vec<NodeId>,
    /// Every edge that the engine was given, in the order given.
    edges: Ghost<Seq<Edge>>,
}

/// The list of cached sources names exactly the sources that have a cache,
/// each once, and is no longer than the capacity.
spec fn listing_ok<U: EdgeWeight>(
    caches: Seq<Option<PathCache<U>>>,
    cached: Seq<NodeId>,
    capacity: nat,
) -> bool {
    &&& cached.len() <= capacity
    &&& forall|i: int|
        0 <= i < cached.len() ==> (#[trigger] cached[i]) < caches.len()
            && caches[cached[i] as int] is Some
    &&& forall|i: int, j: int|
        0 <= i < cached.len() && 0 <= j < cached.len() && i != j ==> cached[i] != cached[j]
    &&& forall|s: int|
        0 <= s < caches.len() && (#[trigger] caches[s]) is Some ==> exists|i: int|
            0 <= i < cached.len() && #[trigger] cached[i] == s
}

/// Every cache is the complete record of its source.
spec fn records_ok<U: EdgeWeight>(
    caches: Seq<Option<PathCache<U>>>,
    g: Graph,
    cap: nat,
) -> bool {
    forall|s: int|
        0 <= s < caches.len() && (#[trigger] caches[s]) is Some ==> {
            let c = caches[s].unwrap();
            &&& c.dist@.len() == g.n
            &&& c.trace@.len() == g.n
            &&& record_ok(g, cap, s, values(c.dist@), pred_view(c.trace@), c.rank@)
        }
}

impl<U: EdgeWeight> Dijkstra<U> {
    /// The number of sources whose result can be kept at a time.
    pub closed spec fn capacity(&self) -> nat {
        self.max_caches as nat
    }

    /// The sources whose result is kept, oldest first.
    pub closed spec fn cached_sources(&self) -> Seq<NodeId> {
        self.cached_nodes@
    }

    /// Whether the result of a search from `s` is kept.
    pub open spec fn is_cached(&self, s: int) -> bool {
        0 <= s <= usize::MAX && self.cached_sources().contains(s as usize)
    }

    /// Whether the place of `s` holds a result.
    closed spec fn has_cache(&self, s: int) -> bool {
        0 <= s < self.caches@.len() && self.caches@[s] is Some
    }

    /// In a valid engine the places that hold a result are those of the listed sources.
    proof fn lemma_listed(&self, s: int)
        requires
            self.inv(),
        ensures
            self.is_cached(s) <==> self.has_cache(s),
    {
        if self.has_cache(s) {
            let i = choose|i: int|
                0 <= i < self.cached_nodes@.len() && #[trigger] self.cached_nodes@[i] == s;
            assert(self.cached_nodes@[i] == s as usize);
        }
    }

    /// How often the kept result of `s` has served; 0 where none is kept.
    pub closed spec fn usage(&self, s: int) -> nat {
        if self.has_cache(s) {
            self.caches@[s].unwrap().count as nat
        } else {
            0
        }
    }

    /// The source at place `i` of the list has served no more often than any other.
    pub open spec fn least_used(&self, i: int) -> bool {
        &&& 0 <= i < self.cached_sources().len()
        &&& forall|j: int|
            0 <= j < self.cached_sources().len() ==> self.usage(self.cached_sources()[i] as int)
                <= self.usage(#[trigger] self.cached_sources()[j] as int)
    }

    /// `post` is `self` after the kept result of `s` has served once more.
    pub open spec fn after_hit(&self, post: &Self, s: int) -> bool {
        &&& post.cached_sources() == self.cached_sources()
        &&& post.usage(s) == if self.usage(s) < usize::MAX {
            self.usage(s) + 1
        } else {
            self.usage(s)
        }
        &&& forall|x: int| x != s ==> post.usage(x) == self.usage(x)
    }

    /// `post` is `self` after the result of a search from `s` was to be
    /// kept: not at all where the capacity is 0; in a free place where there
    /// is one; and otherwise in place of a source that has served least.
    pub open spec fn after_miss(&self, post: &Self, s: int) -> bool {
        if self.capacity() == 0 {
            post.cached_sources() == self.cached_sources() && forall|x: int|
                post.usage(x) == self.usage(x)
        } else if self.cached_sources().len() < self.capacity() {
            &&& post.cached_sources() == self.cached_sources().push(s as usize)
            &&& post.usage(s) == 1
            &&& forall|x: int| x != s ==> post.usage(x) == self.usage(x)
        } else {
            exists|i: int| #[trigger] self.after_swap(post, s, i)
        }
    }

    /// `post` is `self` after the source at place `i` of the list, which has
    /// served least, gave up its place to `s`.
    pub open spec fn after_swap(&self, post: &Self, s: int, i: int) -> bool {
        &&& self.least_used(i)
        &&& post.cached_sources() == self.cached_sources().remove(i).push(s as usize)
        &&& post.usage(s) == 1
        &&& post.usage(self.cached_sources()[i] as int) == 0
        &&& forall|x: int|
            x != s && x != self.cached_sources()[i] ==> post.usage(x) == self.usage(x)
    }

    /// A valid engine keeps the results of nodes of its graph only, lists
    /// each source once, and never keeps more results than its capacity.
    pub proof fn lemma_cache_bounded(&self)
        requires
            self.inv(),
        ensures
            self.cached_sources().len() <= self.capacity(),
            self.cached_sources().no_duplicates(),
            forall|s: int| #[trigger] self.is_cached(s) ==> 0 <= s < self.graph().n,
    {
    }

    /// The distance from `s` to `t` in the kept result of `s`.
    pub closed spec fn kept_distance(&self, s: int, t: int) -> nat {
        self.caches@[s].unwrap().dist@[t].value()
    }

    /// In a valid engine every kept result holds for the graph as it is now:
    /// each of its distances is exact.
    pub proof fn lemma_kept_results_fresh(&self, s: int, t: int)
        requires
            self.inv(),
            self.is_cached(s),
            0 <= t < self.graph().n,
        ensures
            exact(self.graph(), self.cap(), s, t, self.kept_distance(s, t)),
    {
        self.lemma_listed(s);
        let c = self.caches@[s].unwrap();
        assert(values(c.dist@)[t] == c.dist@[t].value());
    }

    /// The number of sources whose result is kept.
    pub fn cached_count(&self) -> (count: usize)
        ensures
            count == self.cached_sources().len(),
    {
        self.cached_nodes.len()
    }

    /// How often the kept result of `s` has served; 0 where none is kept.
    pub fn usage_count(&self, s: NodeId) -> (count: usize)
        ensures
            count == self.usage(s as int),
    {
        if s < self.caches.len() {
            self.count_of(s)
        } else {
            0
        }
    }

    /// Builds the engine for the nodes `0..max_node_id` and the given edges.
    /// `highest_total_weight` stands for "no path"; it must exceed the cost
    /// of every path that is to be found. The results of at most
    /// `max_caches` sources are kept at a time.
    pub fn new(
        max_node_id: NodeId,
        edges: &Vec<EdgeInfo<U>>,
        highest_total_weight: U,
        max_caches: usize,
    ) -> (engine: Dijkstra<U>)
        requires
            batch_in_range(edges@, max_node_id as nat),
        ensures
            engine.inv(),
            engine.graph() == (Graph { n: max_node_id as nat, edges: batch_view(edges@) }),
            engine.cap() == highest_total_weight.value(),
            engine.capacity() == max_caches,
            engine.cached_sources().len() == 0,
    {
        let ghost empty = Graph { n: max_node_id as nat, edges: Seq::empty() };
        let mut adj: Adjacency<U> = Vec::new();
        let mut caches: Vec<Option<PathCache<U>>> = Vec::new();
        let mut node: NodeId = 0;
        while node < max_node_id
            invariant
                node <= max_node_id,
                adj@.len() == node,
                caches@.len() == node,
                forall|u: int| 0 <= u < node ==> (#[trigger] adj@[u])@.len() == 0,
                forall|u: int| 0 <= u < node ==> (#[trigger] caches@[u]) is None,
            decreases max_node_id - node,
        {
            adj.push(Vec::new());
            caches.push(None);
            node += 1;
        }
        proof {
            assert(lists_edges(arcs_view(adj@), empty));
            assert(empty.extended(batch_view(edges@)).edges =~= batch_view(edges@));
        }
        insert_edges(&mut adj, edges, Ghost(empty));
        Dijkstra {
            n: max_node_id,
            caches,
            adj,
            highest_total_weight,
            max_caches,
            cached_nodes: Vec::new(),
            edges: Ghost(batch_view(edges@)),
        }
    }

    /// Rebuilds the nodes from `s` to `t` by following the predecessor links
    /// of a record backwards from `t`; nothing where they do not lead to `s`.
    pub fn get_trace_path(s: NodeId, t: NodeId, trace: &[Option<NodeId>]) -> (r: Option<
        Vec<NodeId>,
    >)
        ensures
            match chain(pred_view(trace@), s as int, t as int, trace@.len()) {
                Some(nodes) => r is Some && path_view(r.unwrap()@) == nodes,
                None => r is None,
            },
    {
        trace_path(s, t, trace)
    }

    /// How often the kept result of `s` has served.
    fn count_of(&self, s: NodeId) -> (count: usize)
        requires
            s < self.caches@.len(),
        ensures
            count == self.usage(s as int),
    {
        match &self.caches[s] {
            Some(cache) => cache.count,
            None => 0,
        }
    }

    /// Answers a query from `s` to `t` from the kept result of `s`, which
    /// has then served once more; reports a miss where none is kept.
    fn read_cache(&mut self, s: NodeId, t: NodeId, with_trace: bool) -> (r: Option<
        Option<PathTrace<U>>,
    >)
        requires
            old(self).inv(),
            s < old(self).graph().n,
            t < old(self).graph().n,
        ensures
            final(self).inv(),
            final(self).graph() == old(self).graph(),
            final(self).cap() == old(self).cap(),
            final(self).capacity() == old(self).capacity(),
            match r {
                None => !old(self).is_cached(s as int) && *final(self) == *old(self),
                Some(found) => {
                    &&& old(self).is_cached(s as int)
                    &&& old(self).after_hit(final(self), s as int)
                    &&& answers(
                        old(self).graph(),
                        old(self).cap(),
                        s as int,
                        t as int,
                        with_trace,
                        found,
                    )
                },
            },
    {
        let ghost g = self.graph();
        let ghost before = self.caches@;
        proof {
            self.lemma_listed(s as int);
        }
        if self.caches[s].is_none() {
            return None;
        }
        match &mut self.caches[s] {
            Some(cache) => {
                if cache.count < usize::MAX {
                    cache.count += 1;
                }
            },
            None => {},
        }
        proof {
            assert forall|x: int| 0 <= x < self.caches@.len() && x != s implies self.caches@[x]
                == before[x] by {}
        }
        match &self.caches[s] {
            Some(cache) => Some(
                read_record(
                    s,
                    t,
                    with_trace,
                    &cache.dist,
                    &cache.trace,
                    self.highest_total_weight,
                    Ghost(g),
                    Ghost(cache.rank@),
                ),
            ),
            None => None,
        }
    }

    /// Keeps the result of a search from `s`. Where every place is taken, the
    /// source that has served least often gives up its own; with no places
    /// at all, nothing is kept.
    fn add_cache(
        &mut self,
        s: NodeId,
        dist: Vec<U>,
        trace: Vec<Option<NodeId>>,
        Ghost(rank): Ghost<Seq<nat>>,
    )
        requires
            old(self).inv(),
            s < old(self).graph().n,
            !old(self).is_cached(s as int),
            dist@.len() == old(self).graph().n,
            trace@.len() == old(self).graph().n,
            record_ok(
                old(self).graph(),
                old(self).cap(),
                s as int,
                values(dist@),
                pred_view(trace@),
                rank,
            ),
        ensures
            final(self).inv(),
            final(self).graph() == old(self).graph(),
            final(self).cap() == old(self).cap(),
            final(self).capacity() == old(self).capacity(),
            old(self).after_miss(final(self), s as int),
    {
        proof {
            self.lemma_listed(s as int);
        }
        if self.max_caches == 0 {
            return ;
        }
        let ghost caches0 = self.caches@;
        let ghost listed0 = self.cached_nodes@;
        let ghost mut victim_at: int = -1;
        if self.cached_nodes.len() >= self.max_caches {
            let mut best: usize = 0;
            let mut i: usize = 1;
            while i < self.cached_nodes.len()
                invariant
                    *self == *old(self),
                    self.inv(),
                    1 <= i <= self.cached_nodes@.len(),
                    best < i,
                    forall|j: int|
                        0 <= j < i ==> self.usage(self.cached_nodes@[best as int] as int)
                            <= self.usage(#[trigger] self.cached_nodes@[j] as int),
                decreases self.cached_nodes@.len() - i,
            {
                if self.count_of(self.cached_nodes[i]) < self.count_of(self.cached_nodes[best]) {
                    best = i;
                }
                i += 1;
            }
            assert(old(self).least_used(best as int));
            let useless: NodeId = self.cached_nodes.remove(best);
            self.caches[useless] = None;
            proof {
                victim_at = best as int;
                let caches1 = self.caches@;
                let listed1 = self.cached_nodes@;
                assert forall|k: int| 0 <= k < listed1.len() implies (#[trigger] listed1[k])
                    < caches1.len() && caches1[listed1[k] as int] is Some by {
                    if k < best {
                        assert(listed1[k] == listed0[k]);
                    } else {
                        assert(listed1[k] == listed0[k + 1]);
                    }
                }
                assert forall|x: int|
                    0 <= x < caches1.len() && (#[trigger] caches1[x]) is Some implies exists|
                    k: int,
                | 0 <= k < listed1.len() && #[trigger] listed1[k] == x by {
                    assert(caches0[x] is Some);
                    let k0 = choose|k: int| 0 <= k < listed0.len() && #[trigger] listed0[k] == x;
                    if k0 < best {
                        assert(listed1[k0] == x);
                    } else {
                        assert(listed1[k0 - 1] == x);
                    }
                }
                assert(listing_ok(caches1, listed1, self.max_caches as nat));
                assert(records_ok(caches1, self.graph(), self.cap())) by {
                    assert forall|x: int|
                        0 <= x < caches1.len() && (#[trigger] caches1[x]) is Some implies caches1[x]
                        == caches0[x] by {}
                }
            }
        }
        let ghost caches1 = self.caches@;
        let ghost listed1 = self.cached_nodes@;
        assert(caches1[s as int] is None);
        self.caches[s] = Some(PathCache { count: 1, dist, trace, rank: Ghost(rank) });
        self.cached_nodes.push(s);
        proof {
            let caches2 = self.caches@;
            let listed2 = self.cached_nodes@;
            assert forall|k: int| 0 <= k < listed2.len() implies (#[trigger] listed2[k])
                < caches2.len() && caches2[listed2[k] as int] is Some by {
                if k < listed1.len() {
                    assert(listed2[k] == listed1[k]);
                }
            }
            assert forall|x: int|
                0 <= x < caches2.len() && (#[trigger] caches2[x]) is Some implies exists|k: int|
                0 <= k < listed2.len() && #[trigger] listed2[k] == x by {
                if x == s {
                    assert(listed2[listed1.len() as int] == x);
                } else {
                    assert(caches1[x] is Some);
                    let k1 = choose|k: int| 0 <= k < listed1.len() && #[trigger] listed1[k] == x;
                    assert(listed2[k1] == x);
                }
            }
            assert(listing_ok(caches2, listed2, self.max_caches as nat));
            assert(records_ok(caches2, self.graph(), self.cap())) by {
                assert forall|x: int|
                    0 <= x < caches2.len() && x != s && (#[trigger] caches2[x]) is Some implies caches2[x]
                    == caches1[x] by {}
            }
            if victim_at >= 0 {
                assert(old(self).least_used(victim_at));
                assert(listed2 == listed0.remove(victim_at).push(s));
                assert(old(self).after_swap(final(self), s as int, victim_at));
            }
        }
    }
}

impl<U: EdgeWeight> ShortestPathAlgo<U> for Dijkstra<U> {
    const NAME: &'static str = "Dijkstra";

    closed spec fn inv(&self) -> bool {
        &&& self.caches@.len() == self.n
        &&& self.graph().well_formed()
        &&& lists_edges(arcs_view(self.adj@), self.graph())
        &&& listing_ok(self.caches@, self.cached_nodes@, self.max_caches as nat)
        &&& records_ok(self.caches@, self.graph(), self.cap())
    }

    closed spec fn graph(&self) -> Graph {
        Graph { n: self.n as nat, edges: self.edges@ }
    }

    closed spec fn cap(&self) -> nat {
        self.highest_total_weight.value()
    }

    /// Answers from the kept result of `s` where there is one, else from
    /// that of `t`, read the other way round; else searches from `s`, keeps
    /// the result and answers from it.
    fn find(&mut self, s: NodeId, t: NodeId, with_trace: bool) -> (r: Option<PathTrace<U>>)
        ensures
            final(self).capacity() == old(self).capacity(),
            if old(self).is_cached(s as int) {
                old(self).after_hit(final(self), s as int)
            } else if old(self).is_cached(t as int) {
                old(self).after_hit(final(self), t as int)
            } else {
                old(self).after_miss(final(self), s as int)
            },
    {
        let ghost g = self.graph();
        let ghost cap = self.cap();
        match self.read_cache(s, t, with_trace) {
            Some(found) => {
                return found;
            },
            None => {},
        }
        match self.read_cache(t, s, with_trace) {
            Some(found) => {
                return turned(
                    found,
                    Ghost(g),
                    Ghost(cap),
                    Ghost(s as int),
                    Ghost(t as int),
                    Ghost(with_trace),
                );
            },
            None => {},
        }
        let (dist, trace, rank) = search(&self.adj, s, self.highest_total_weight, Ghost(g));
        let result = read_record(
            s,
            t,
            with_trace,
            &dist,
            &trace,
            self.highest_total_weight,
            Ghost(g),
            Ghost(rank@),
        );
        self.add_cache(s, dist, trace, rank);
        result
    }

    /// Lists every edge of the batch in both directions, then drops every
    /// kept result: none of them is known to hold for the larger graph.
    fn add_edges(&mut self, edges: &Vec<EdgeInfo<U>>)
        ensures
            final(self).capacity() == old(self).capacity(),
            final(self).cached_sources().len() == 0,
    {
        let ghost g0 = self.graph();
        insert_edges(&mut self.adj, edges, Ghost(g0));
        self.edges = Ghost(g0.edges + batch_view(edges@));
        let ghost listed = self.cached_nodes@;
        let mut i: usize = 0;
        while i < self.cached_nodes.len()
            invariant
                i <= listed.len(),
                self.cached_nodes@ == listed,
                self.n == old(self).n,
                self.max_caches == old(self).max_caches,
                self.highest_total_weight == old(self).highest_total_weight,
                self.edges@ == g0.edges + batch_view(edges@),
                self.caches@.len() == self.n,
                lists_edges(arcs_view(self.adj@), g0.extended(batch_view(edges@))),
                forall|j: int| 0 <= j < listed.len() ==> (#[trigger] listed[j]) < self.caches@.len(),
                forall|x: int|
                    0 <= x < self.caches@.len() && (#[trigger] self.caches@[x]) is Some
                        ==> exists|j: int| i <= j < listed.len() && #[trigger] listed[j] == x,
            decreases listed.len() - i,
        {
            let node: NodeId = self.cached_nodes[i];
            let ghost before = self.caches@;
            self.caches[node] = None;
            proof {
                assert forall|x: int|
                    0 <= x < self.caches@.len() && (#[trigger] self.caches@[x]) is Some implies exists|
                    j: int,
                | i + 1 <= j < listed.len() && #[trigger] listed[j] == x by {
                    assert(before[x] is Some);
                    let j = choose|j: int| i <= j < listed.len() && #[trigger] listed[j] == x;
                    assert(j != i);
                }
            }
            i += 1;
        }
        self.cached_nodes.clear();
    }
}

} // verus!
