use std::collections::HashSet;
use std::collections::VecDeque;
use vstd::multiset::Multiset;
use vstd::prelude::*;

verus! {

broadcast use vstd::std_specs::hash::group_hash_axioms;

/// Position of a node in creation order.
pub type NodeIndex = usize;

/// Position of an edge in creation order.
pub type EdgeIndex = usize;

/// One node of the arena: the head of its outgoing-edge list and the distance
/// recorded for it by the relaxing traversal, if any.
#[derive(Debug)]
pub struct NodeData {
    first_outgoing_edge: Option<EdgeIndex>,
    shortest_path: Option<u32>,
}

/// One edge of the arena: where it leads, and the edge that was the head of
/// the same source's list before this one was added.
pub struct EdgeData {
    target: NodeIndex,
    next_outgoing_edge: Option<EdgeIndex>,
}

/// An append-only directed graph: two arenas, with every node's outgoing edges
/// threaded through the edge arena as a list of indices, newest edge first.
pub struct Graph {
    nodes: Vec<NodeData>,
    edges: Vec<EdgeData>,
}

/// A cursor over the outgoing edges of one node of a graph.
pub struct Successors<'graph> {
    graph: &'graph Graph,
    current_edge_index: Option<EdgeIndex>,
}

/// The targets of the edge list that starts at `head`, head first.
spec fn chain(edges: Seq<EdgeData>, head: Option<EdgeIndex>) -> Seq<NodeIndex>
    decreases
        (match head {
            Some(e) => e + 1,
            None => 0,
        }),
{
    match head {
        None => Seq::empty(),
        Some(e) => {
            if e < edges.len() && (edges[e as int].next_outgoing_edge matches Some(x) ==> x < e) {
                seq![edges[e as int].target] + chain(edges, edges[e as int].next_outgoing_edge)
            } else {
                Seq::empty()
            }
        },
    }
}

/// Every link of the edge arena points to an older edge.
spec fn links_descend(edges: Seq<EdgeData>) -> bool {
    forall|e: int|
        0 <= e < edges.len() ==> ((#[trigger] edges[e]).next_outgoing_edge matches Some(x) ==> x
            < e)
}

/// A list that lies within the arena reads the same after the arena has grown.
proof fn lemma_chain_after_push(edges: Seq<EdgeData>, added: EdgeData, head: Option<EdgeIndex>)
    requires
        links_descend(edges),
        head matches Some(e) ==> e < edges.len(),
    ensures
        chain(edges.push(added), head) == chain(edges, head),
    decreases
        (match head {
            Some(e) => e + 1,
            None => 0,
        }),
{
    match head {
        None => {},
        Some(e) => {
            assert(edges.push(added)[e as int] == edges[e as int]);
            lemma_chain_after_push(edges, added, edges[e as int].next_outgoing_edge);
        },
    }
}

/// Some entry of the work queue is for node `v`.
spec fn queued(queue: Seq<(NodeIndex, u32)>, v: NodeIndex) -> bool {
    exists|i: int| 0 <= i < queue.len() && (#[trigger] queue[i]).0 == v
}

/// A finite set of indices below `n` has at most `n` members.
proof fn lemma_bounded_set_len(s: Set<NodeIndex>, n: nat)
    requires
        s.finite(),
        forall|x: NodeIndex| s.contains(x) ==> x < n,
    ensures
        s.len() <= n,
    decreases n,
{
    if n == 0 {
        assert(s =~= Set::<NodeIndex>::empty());
    } else {
        let top = (n - 1) as NodeIndex;
        lemma_bounded_set_len(s.remove(top), (n - 1) as nat);
    }
}

impl Graph {
    /// The arena invariant: every list head lies in the edge arena, and every
    /// link of a list points to an older edge.
    pub closed spec fn wf(self) -> bool {
        &&& forall|n: int|
            0 <= n < self.nodes@.len() ==> ((#[trigger] self.nodes@[n]).first_outgoing_edge matches Some(
                e,
            ) ==> e < self.edges@.len())
        &&& links_descend(self.edges@)
    }

    /// Number of nodes added so far.
    pub closed spec fn node_count(self) -> nat {
        self.nodes@.len()
    }

    /// The nodes that `source` has an edge to, one entry per edge, the edge
    /// added last first.
    pub closed spec fn successors_of(self, source: NodeIndex) -> Seq<NodeIndex> {
        if source < self.nodes@.len() {
            chain(self.edges@, self.nodes@[source as int].first_outgoing_edge)
        } else {
            Seq::empty()
        }
    }

    /// The distance that the relaxing traversal has left at `node`, if any.
    pub closed spec fn recorded(self, node: NodeIndex) -> Option<u32> {
        if node < self.nodes@.len() {
            self.nodes@[node as int].shortest_path
        } else {
            None
        }
    }

    /// Every edge leads to a node of this graph.
    pub open spec fn targets_valid(self) -> bool {
        forall|a: NodeIndex, i: int|
            a < self.node_count() && 0 <= i < self.successors_of(a).len() ==> (
            #[trigger] self.successors_of(a)[i]) < self.node_count()
    }

    /// There is an edge from `a` to `b`.
    pub open spec fn has_edge(self, a: NodeIndex, b: NodeIndex) -> bool {
        self.successors_of(a).contains(b)
    }

    /// What `add_node` does: `after` has one node more, and every node has
    /// the edges it had; the new node has none.
    pub open spec fn with_node(self, after: Graph) -> bool {
        &&& after.node_count() == self.node_count() + 1
        &&& forall|n: NodeIndex| #[trigger] after.successors_of(n) == self.successors_of(n)
    }

    /// What `add_edge` does: `after` has the same nodes, `source` has the
    /// edge to `target` before the edges it had, and every other node has the
    /// edges it had.
    pub open spec fn with_edge(self, after: Graph, source: NodeIndex, target: NodeIndex) -> bool {
        &&& after.node_count() == self.node_count()
        &&& after.successors_of(source) == seq![target] + self.successors_of(source)
        &&& forall|n: NodeIndex|
            n != source ==> #[trigger] after.successors_of(n) == self.successors_of(n)
    }

    /// What one call does that adds to the graph: `None` stands for a call of
    /// `add_node`, a pair for a call of `add_edge` with that source and
    /// target.
    pub open spec fn changed_by(self, after: Graph, call: Option<(NodeIndex, NodeIndex)>) -> bool {
        match call {
            None => self.with_node(after),
            Some((source, target)) => self.with_edge(after, source, target),
        }
    }

    /// What `bfs` does: the graph is as it was, and `found` is the distance
    /// from `start` to `end`.
    pub open spec fn searched(
        self,
        after: Graph,
        start: NodeIndex,
        end: NodeIndex,
        found: Option<u32>,
    ) -> bool {
        &&& after == self
        &&& match found {
            Some(d) => self.distance(start, end) == Some(d as nat),
            None => self.distance(start, end) is None,
        }
    }

    /// `p` is a non-empty sequence of nodes, each joined to the next by an edge.
    pub open spec fn is_walk(self, p: Seq<NodeIndex>) -> bool {
        &&& p.len() > 0
        &&& forall|i: int| 0 <= i < p.len() - 1 ==> #[trigger] self.steps(p, i)
    }

    /// An edge joins the node at place `i` of `p` to the next.
    pub open spec fn steps(self, p: Seq<NodeIndex>, i: int) -> bool {
        self.has_edge(p[i], p[i + 1])
    }

    /// `p` is a directed path from `a` to `b`; it has `p.len() - 1` edges.
    pub open spec fn is_path(self, p: Seq<NodeIndex>, a: NodeIndex, b: NodeIndex) -> bool {
        &&& self.is_walk(p)
        &&& p[0] == a
        &&& p[p.len() - 1] == b
    }

    /// Some path from `a` to `b` has exactly `d` edges, and none has fewer.
    pub open spec fn is_distance(self, a: NodeIndex, b: NodeIndex, d: nat) -> bool {
        &&& exists|p: Seq<NodeIndex>| #[trigger] self.is_path(p, a, b) && p.len() == d + 1
        &&& forall|q: Seq<NodeIndex>| #[trigger] self.is_path(q, a, b) ==> q.len() >= d + 1
    }

    /// `b` can be reached from `a` along edges.
    pub open spec fn reachable(self, a: NodeIndex, b: NodeIndex) -> bool {
        exists|p: Seq<NodeIndex>| #[trigger] self.is_path(p, a, b)
    }

    /// The least number of edges on a path from `a` to `b`; `None` where there
    /// is no path.
    pub open spec fn distance(self, a: NodeIndex, b: NodeIndex) -> Option<nat> {
        if exists|d: nat| self.is_distance(a, b, d) {
            Some(choose|d: nat| self.is_distance(a, b, d))
        } else {
            None
        }
    }

    /// The distance recorded at `v` is unset or greater than `d`: a visit of
    /// `v` at distance `d` lowers it.
    pub open spec fn can_lower(self, v: NodeIndex, d: nat) -> bool {
        self.recorded(v) matches Some(x) ==> d < x
    }

    /// `p` is a walk on which every node but the last can be lowered to its
    /// position in the walk. The relaxing traversal passes on from a node only
    /// when it has lowered that node's distance.
    pub open spec fn is_lowering_walk(self, p: Seq<NodeIndex>) -> bool {
        &&& self.is_walk(p)
        &&& forall|i: int| 0 <= i < p.len() - 1 ==> self.can_lower(#[trigger] p[i], i as nat)
    }

    /// `p` is a lowering walk from `a` to `b`.
    pub open spec fn is_lowering_path(self, p: Seq<NodeIndex>, a: NodeIndex, b: NodeIndex) -> bool {
        &&& self.is_lowering_walk(p)
        &&& p[0] == a
        &&& p[p.len() - 1] == b
    }

    /// Some lowering walk from `a` to `b` has exactly `d` edges, and none has
    /// fewer.
    pub open spec fn is_lowering_distance(self, a: NodeIndex, b: NodeIndex, d: nat) -> bool {
        &&& exists|p: Seq<NodeIndex>| #[trigger] self.is_lowering_path(p, a, b) && p.len() == d + 1
        &&& forall|q: Seq<NodeIndex>| #[trigger] self.is_lowering_path(q, a, b) ==> q.len() >= d + 1
    }

    /// The least number of edges on a lowering walk from `a` to `b`; `None`
    /// where there is none.
    pub open spec fn lowering_distance(self, a: NodeIndex, b: NodeIndex) -> Option<nat> {
        if exists|d: nat| self.is_lowering_distance(a, b, d) {
            Some(choose|d: nat| self.is_lowering_distance(a, b, d))
        } else {
            None
        }
    }

    /// What the relaxing traversal from `start` leaves at `v`: the smaller of
    /// what was recorded there and the least length of a lowering walk from
    /// `start` to `v`, an unset distance and a missing walk counting as
    /// infinite.
    pub open spec fn relaxed(self, start: NodeIndex, v: NodeIndex) -> Option<u32> {
        match (self.recorded(v), self.lowering_distance(start, v)) {
            (rec, None) => rec,
            (None, Some(d)) => Some(d as u32),
            (Some(x), Some(d)) => if d < x {
                Some(d as u32)
            } else {
                Some(x)
            },
        }
    }

    /// An empty graph.
    pub fn new() -> (g: Graph)
        ensures
            g.wf(),
            g.node_count() == 0,
            g.targets_valid(),
    {
        Graph { nodes: Vec::new(), edges: Vec::new() }
    }

    /// Appends a node without edges and without a recorded distance, and
    /// returns its index.
    pub fn add_node(&mut self) -> (index: NodeIndex)
        requires
            old(self).wf(),
        ensures
            final(self).wf(),
            index == old(self).node_count(),
            final(self).node_count() == old(self).node_count() + 1,
            old(self).with_node(*final(self)),
            final(self).successors_of(index) == Seq::<NodeIndex>::empty(),
            final(self).recorded(index) is None,
            forall|n: NodeIndex|
                n < old(self).node_count() ==> #[trigger] final(self).successors_of(n) == old(
                    self,
                ).successors_of(n),
            forall|n: NodeIndex|
                n < old(self).node_count() ==> #[trigger] final(self).recorded(n) == old(
                    self,
                ).recorded(n),
    {
        let index = self.nodes.len();
        self.nodes.push(NodeData { first_outgoing_edge: None, shortest_path: None });
        index
    }

    /// Appends an edge from `source` to `target` and makes it the head of
    /// `source`'s list. `target` need not exist yet.
    pub fn add_edge(&mut self, source: NodeIndex, target: NodeIndex)
        requires
            old(self).wf(),
            source < old(self).node_count(),
        ensures
            final(self).wf(),
            final(self).node_count() == old(self).node_count(),
            old(self).with_edge(*final(self), source, target),
            final(self).successors_of(source) == seq![target] + old(self).successors_of(source),
            final(self).successors_of(source).to_multiset() == old(self).successors_of(
                source,
            ).to_multiset().insert(target),
            forall|n: NodeIndex|
                n != source ==> #[trigger] final(self).successors_of(n) == old(self).successors_of(
                    n,
                ),
            forall|n: NodeIndex| #[trigger] final(self).recorded(n) == old(self).recorded(n),
    {
        let edge_index = self.edges.len();
        let first = self.nodes[source].first_outgoing_edge;
        let recorded = self.nodes[source].shortest_path;
        let added = EdgeData { target: target, next_outgoing_edge: first };
        proof {
            assert forall|n: int| 0 <= n < self.nodes@.len() implies chain(
                self.edges@.push(added),
                #[trigger] self.nodes@[n].first_outgoing_edge,
            ) == chain(self.edges@, self.nodes@[n].first_outgoing_edge) by {
                lemma_chain_after_push(self.edges@, added, self.nodes@[n].first_outgoing_edge);
            }
        }
        self.edges.push(added);
        self.nodes.set(
            source,
            NodeData { first_outgoing_edge: Some(edge_index), shortest_path: recorded },
        );
        proof {
            let before = old(self).successors_of(source);
            assert(self.successors_of(source) == seq![target] + before);
            assert((seq![target] + before).to_multiset() =~= before.to_multiset().insert(target))
                by {
                vstd::seq_lib::lemma_multiset_commutative(seq![target], before);
                assert(seq![target] =~= Seq::<NodeIndex>::empty().push(target));
                Seq::<NodeIndex>::empty().to_multiset_ensures();
            }
        }
    }

    /// A cursor over the nodes that `source` has an edge to.
    pub fn successors(&self, source: NodeIndex) -> (it: Successors<'_>)
        requires
            self.wf(),
            source < self.node_count(),
        ensures
            it.wf(),
            it@ == self.successors_of(source),
    {
        let first_outgoing_edge = self.nodes[source].first_outgoing_edge;
        Successors { graph: self, current_edge_index: first_outgoing_edge }
    }

    /// Every successor of `v` has been reached, at most one step further out
    /// than `v`.
    spec fn settled(self, dist: Map<NodeIndex, nat>, v: NodeIndex) -> bool {
        forall|j: int|
            0 <= j < self.successors_of(v).len() ==> dist.dom().contains(
                #[trigger] self.successors_of(v)[j],
            ) && dist[self.successors_of(v)[j]] <= dist[v] + 1
    }

    /// What the breadth-first search knows between two steps: `dist` and
    /// `path` hold, for every node reached so far, the distance it was queued
    /// with and a path of that many edges; the queue is ordered by distance
    /// and spans at most two distances; and every reached node is in the
    /// queue, is the node in hand, or has had all its successors reached.
    spec fn search_inv(
        self,
        start: NodeIndex,
        end: NodeIndex,
        queue: Seq<(NodeIndex, u32)>,
        dist: Map<NodeIndex, nat>,
        path: Map<NodeIndex, Seq<NodeIndex>>,
        in_hand: Option<NodeIndex>,
    ) -> bool {
        &&& dist.dom().finite()
        &&& path.dom() == dist.dom()
        &&& dist.dom().contains(start)
        &&& dist[start] == 0
        &&& forall|v: NodeIndex| #[trigger]
            dist.dom().contains(v) ==> v < self.node_count() && self.is_path(path[v], start, v)
                && path[v].len() == dist[v] + 1
        &&& forall|i: int|
            0 <= i < queue.len() ==> dist.dom().contains((#[trigger] queue[i]).0) && dist[queue[i].0]
                == queue[i].1 && queue[i].1 + 1 <= dist.dom().len()
        &&& forall|i: int, j: int|
            0 <= i <= j < queue.len() ==> (#[trigger] queue[i]).1 <= (#[trigger] queue[j]).1
                <= queue[i].1 + 1
        &&& forall|v: NodeIndex| #[trigger]
            dist.dom().contains(v) ==> in_hand == Some(v) || queued(queue, v) || self.settled(
                dist,
                v,
            )
        &&& dist.dom().contains(end) ==> queued(queue, end) || in_hand == Some(end)
        &&& forall|v: NodeIndex, i: int|
            #[trigger] dist.dom().contains(v) && 0 <= i < queue.len() ==> dist[v] <= (
            #[trigger] queue[i]).1 + 1
    }

    /// Along a walk from the start, as long as every reached node nearer than
    /// `bound` is settled, the node at position `i <= bound` has been reached
    /// with a distance of at most `i`.
    proof fn lemma_walk_reached(
        self,
        start: NodeIndex,
        dist: Map<NodeIndex, nat>,
        bound: nat,
        q: Seq<NodeIndex>,
        i: int,
    )
        requires
            self.is_walk(q),
            q[0] == start,
            dist.dom().contains(start),
            dist[start] == 0,
            forall|v: NodeIndex| #[trigger]
                dist.dom().contains(v) && dist[v] < bound ==> self.settled(dist, v),
            0 <= i < q.len(),
            i <= bound,
        ensures
            dist.dom().contains(q[i]),
            dist[q[i]] <= i,
        decreases i,
    {
        if i > 0 {
            self.lemma_walk_reached(start, dist, bound, q, i - 1);
            let u = q[i - 1];
            assert(self.steps(q, i - 1));
            assert(self.settled(dist, u));
            let j = choose|j: int|
                0 <= j < self.successors_of(u).len() && self.successors_of(u)[j] == q[i];
            assert(dist.dom().contains(self.successors_of(u)[j]));
        }
    }

    /// What is not a node of the graph has no successors.
    pub proof fn lemma_no_successors_outside(self, n: NodeIndex)
        requires
            n >= self.node_count(),
        ensures
            self.successors_of(n) == Seq::<NodeIndex>::empty(),
    {
    }

    /// Where a path leads from `a` to `b`, there is a distance.
    pub proof fn lemma_path_gives_distance(self, p: Seq<NodeIndex>, a: NodeIndex, b: NodeIndex)
        requires
            self.is_path(p, a, b),
        ensures
            self.distance(a, b) is Some,
            self.distance(a, b)->0 + 1 <= p.len(),
        decreases p.len(),
    {
        if exists|q: Seq<NodeIndex>| #[trigger] self.is_path(q, a, b) && q.len() < p.len() {
            let q = choose|q: Seq<NodeIndex>| #[trigger] self.is_path(q, a, b) && q.len() < p.len();
            self.lemma_path_gives_distance(q, a, b);
        } else {
            assert(self.is_distance(a, b, (p.len() - 1) as nat));
            self.lemma_distance_unique(a, b, (p.len() - 1) as nat);
        }
    }

    /// A relation holds for at most one distance.
    pub proof fn lemma_distance_unique(self, a: NodeIndex, b: NodeIndex, d: nat)
        requires
            self.is_distance(a, b, d),
        ensures
            self.distance(a, b) == Some(d),
    {
        let c = choose|c: nat| self.is_distance(a, b, c);
        let p = choose|p: Seq<NodeIndex>| #[trigger] self.is_path(p, a, b) && p.len() == d + 1;
        let q = choose|q: Seq<NodeIndex>| #[trigger] self.is_path(q, a, b) && q.len() == c + 1;
        assert(p.len() >= c + 1);
        assert(q.len() >= d + 1);
    }

    /// Where no path leads from `a` to `b`, there is no distance.
    pub proof fn lemma_distance_none(self, a: NodeIndex, b: NodeIndex)
        requires
            !self.reachable(a, b),
        ensures
            self.distance(a, b) is None,
    {
        if exists|d: nat| self.is_distance(a, b, d) {
            let d = choose|d: nat| self.is_distance(a, b, d);
            let p = choose|p: Seq<NodeIndex>| #[trigger] self.is_path(p, a, b) && p.len() == d + 1;
            assert(self.reachable(a, b));
        }
    }

    /// Two graphs with the same edges have the same distances.
    pub proof fn lemma_same_edges(self, other: Graph, a: NodeIndex, b: NodeIndex)
        requires
            forall|u: NodeIndex, v: NodeIndex| #[trigger] self.has_edge(u, v) == other.has_edge(u, v),
        ensures
            self.reachable(a, b) == other.reachable(a, b),
            self.distance(a, b) == other.distance(a, b),
    {
        assert forall|p: Seq<NodeIndex>| #[trigger] self.is_path(p, a, b) == other.is_path(p, a, b) by {
            if self.is_path(p, a, b) {
                assert forall|i: int| 0 <= i < p.len() - 1 implies #[trigger] other.steps(p, i) by {
                    assert(self.steps(p, i));
                }
            }
            if other.is_path(p, a, b) {
                assert forall|i: int| 0 <= i < p.len() - 1 implies #[trigger] self.steps(p, i) by {
                    assert(other.steps(p, i));
                }
            }
        }
        if self.reachable(a, b) {
            let p = choose|p: Seq<NodeIndex>| #[trigger] self.is_path(p, a, b);
            assert(other.is_path(p, a, b));
            self.lemma_path_gives_distance(p, a, b);
            let d = self.distance(a, b)->0;
            assert(self.is_distance(a, b, d));
            let q = choose|q: Seq<NodeIndex>| #[trigger] self.is_path(q, a, b) && q.len() == d + 1;
            assert(other.is_path(q, a, b));
            assert forall|x: Seq<NodeIndex>| #[trigger] other.is_path(x, a, b) implies x.len() >= d
                + 1 by {
                assert(self.is_path(x, a, b));
            }
            other.lemma_distance_unique(a, b, d);
        } else {
            if other.reachable(a, b) {
                let p = choose|p: Seq<NodeIndex>| #[trigger] other.is_path(p, a, b);
                assert(self.is_path(p, a, b));
            }
            self.lemma_distance_none(a, b);
            other.lemma_distance_none(a, b);
        }
    }

    /// A search that follows another on the same graph with the same nodes
    /// finds the same, and leaves the graph as the first search found it.
    pub proof fn lemma_bfs_repeats(
        self,
        second: Graph,
        third: Graph,
        start: NodeIndex,
        end: NodeIndex,
        first_found: Option<u32>,
        second_found: Option<u32>,
    )
        requires
            self.searched(second, start, end, first_found),
            second.searched(third, start, end, second_found),
        ensures
            first_found == second_found,
            third == self,
    {
    }

    /// What the search knows while it passes on from the node `current`, which
    /// it took from the queue at distance `k`: the first `done` successors of
    /// `current` have been reached.
    spec fn expanding(
        self,
        start: NodeIndex,
        end: NodeIndex,
        queue: Seq<(NodeIndex, u32)>,
        dist: Map<NodeIndex, nat>,
        path: Map<NodeIndex, Seq<NodeIndex>>,
        current: NodeIndex,
        k: u32,
        done: int,
    ) -> bool {
        &&& self.search_inv(start, end, queue, dist, path, Some(current))
        &&& current != end
        &&& dist.dom().contains(current)
        &&& dist[current] == k
        &&& k + 1 <= dist.dom().len()
        &&& forall|v: NodeIndex| #[trigger] dist.dom().contains(v) ==> dist[v] <= k + 1
        &&& 0 <= done <= self.successors_of(current).len()
        &&& forall|j: int|
            0 <= j < done ==> dist.dom().contains(#[trigger] self.successors_of(current)[j])
                && dist[self.successors_of(current)[j]] <= k + 1
        &&& forall|i: int| 0 <= i < queue.len() ==> k <= (#[trigger] queue[i]).1 <= k + 1
    }

    /// With an empty queue, whatever can be reached has been reached, and
    /// `end` has not.
    proof fn lemma_search_exhausted(
        self,
        start: NodeIndex,
        end: NodeIndex,
        dist: Map<NodeIndex, nat>,
        path: Map<NodeIndex, Seq<NodeIndex>>,
    )
        requires
            self.search_inv(start, end, Seq::empty(), dist, path, None),
        ensures
            !self.reachable(start, end),
            self.distance(start, end) is None,
    {
        assert forall|q: Seq<NodeIndex>| !self.is_path(q, start, end) by {
            if self.is_path(q, start, end) {
                self.lemma_walk_reached(start, dist, q.len() as nat, q, q.len() - 1);
            }
        }
        self.lemma_distance_none(start, end);
    }

    /// When `end` comes out of the queue, the distance it was queued with is
    /// its distance from `start`.
    proof fn lemma_search_found(
        self,
        start: NodeIndex,
        end: NodeIndex,
        queue: Seq<(NodeIndex, u32)>,
        dist: Map<NodeIndex, nat>,
        path: Map<NodeIndex, Seq<NodeIndex>>,
    )
        requires
            self.search_inv(start, end, queue, dist, path, None),
            queue.len() > 0,
            queue[0].0 == end,
        ensures
            self.is_distance(start, end, queue[0].1 as nat),
            self.distance(start, end) == Some(queue[0].1 as nat),
            self.reachable(start, end),
            start == end ==> queue[0].1 == 0,
    {
        let k = queue[0].1 as nat;
        assert(self.is_path(path[end], start, end));
        assert forall|v: NodeIndex| #[trigger]
            dist.dom().contains(v) && dist[v] < k implies self.settled(dist, v) by {
            if queued(queue, v) {
                let i = choose|i: int| 0 <= i < queue.len() && (#[trigger] queue[i]).0 == v;
                assert(queue[0].1 <= queue[i].1);
            }
        }
        assert forall|q: Seq<NodeIndex>| #[trigger] self.is_path(q, start, end) implies q.len() >= k
            + 1 by {
            if q.len() < k + 1 {
                self.lemma_walk_reached(start, dist, k, q, q.len() - 1);
            }
        }
        assert(self.is_distance(start, end, k));
        self.lemma_distance_unique(start, end, k);
    }

    /// Taking a node other than `end` from the queue.
    proof fn lemma_search_pop(
        self,
        start: NodeIndex,
        end: NodeIndex,
        queue: Seq<(NodeIndex, u32)>,
        dist: Map<NodeIndex, nat>,
        path: Map<NodeIndex, Seq<NodeIndex>>,
    )
        requires
            self.search_inv(start, end, queue, dist, path, None),
            queue.len() > 0,
            queue[0].0 != end,
        ensures
            self.expanding(
                start,
                end,
                queue.subrange(1, queue.len() as int),
                dist,
                path,
                queue[0].0,
                queue[0].1,
                0,
            ),
    {
        let rest = queue.subrange(1, queue.len() as int);
        let current = queue[0].0;
        assert forall|i: int| 0 <= i < rest.len() implies rest[i] == queue[i + 1] by {}
        assert forall|v: NodeIndex| #[trigger] dist.dom().contains(v) implies Some(current) == Some(
            v,
        ) || queued(rest, v) || self.settled(dist, v) by {
            if v != current && queued(queue, v) {
                let i = choose|i: int| 0 <= i < queue.len() && (#[trigger] queue[i]).0 == v;
                assert(rest[i - 1] == queue[i]);
            }
        }
        if dist.dom().contains(end) {
            let i = choose|i: int| 0 <= i < queue.len() && (#[trigger] queue[i]).0 == end;
            assert(rest[i - 1] == queue[i]);
        }
        assert forall|i: int| 0 <= i < rest.len() implies queue[0].1 <= (#[trigger] rest[i]).1
            <= queue[0].1 + 1 by {
            assert(queue[0].1 <= queue[i + 1].1);
        }
        assert forall|i: int, j: int| 0 <= i <= j < rest.len() implies (#[trigger] rest[i]).1 <= (
        #[trigger] rest[j]).1 <= rest[i].1 + 1 by {
            assert(queue[i + 1].1 <= queue[j + 1].1);
        }
        assert forall|v: NodeIndex| #[trigger] dist.dom().contains(v) implies dist[v] <= queue[0].1
            + 1 by {
            assert(dist[v] <= queue[0].1 + 1);
        }
    }

    /// Passing over a successor that has been reached before.
    proof fn lemma_search_skip(
        self,
        start: NodeIndex,
        end: NodeIndex,
        queue: Seq<(NodeIndex, u32)>,
        dist: Map<NodeIndex, nat>,
        path: Map<NodeIndex, Seq<NodeIndex>>,
        current: NodeIndex,
        k: u32,
        done: int,
    )
        requires
            self.expanding(start, end, queue, dist, path, current, k, done),
            done < self.successors_of(current).len(),
            dist.dom().contains(self.successors_of(current)[done]),
        ensures
            self.expanding(start, end, queue, dist, path, current, k, done + 1),
    {
    }

    /// Reaching a successor for the first time.
    proof fn lemma_search_push(
        self,
        start: NodeIndex,
        end: NodeIndex,
        queue: Seq<(NodeIndex, u32)>,
        dist: Map<NodeIndex, nat>,
        path: Map<NodeIndex, Seq<NodeIndex>>,
        current: NodeIndex,
        k: u32,
        done: int,
    )
        requires
            self.expanding(start, end, queue, dist, path, current, k, done),
            done < self.successors_of(current).len(),
            !dist.dom().contains(self.successors_of(current)[done]),
            self.successors_of(current)[done] < self.node_count(),
            k < u32::MAX,
        ensures
            self.expanding(
                start,
                end,
                queue.push((self.successors_of(current)[done], (k + 1) as u32)),
                dist.insert(self.successors_of(current)[done], (k + 1) as nat),
                path.insert(
                    self.successors_of(current)[done],
                    path[current].push(self.successors_of(current)[done]),
                ),
                current,
                k,
                done + 1,
            ),
    {
        let w = self.successors_of(current)[done];
        let walk = path[current].push(w);
        let queue2 = queue.push((w, (k + 1) as u32));
        let dist2 = dist.insert(w, (k + 1) as nat);
        let path2 = path.insert(w, walk);
        assert(path2.dom() =~= dist2.dom());
        assert(self.has_edge(current, w));
        assert(self.is_path(walk, start, w)) by {
            assert forall|i: int| 0 <= i < walk.len() - 1 implies #[trigger] self.steps(walk, i) by {
                if i < path[current].len() - 1 {
                    assert(self.steps(path[current], i));
                    assert(walk[i] == path[current][i]);
                    assert(walk[i + 1] == path[current][i + 1]);
                }
            }
        }
        assert(queue2[queue2.len() - 1] == (w, (k + 1) as u32));
        assert(queued(queue2, w));
        assert forall|v: NodeIndex| #[trigger] dist2.dom().contains(v) implies Some(current)
            == Some(v) || queued(queue2, v) || self.settled(dist2, v) by {
            if v != w && v != current {
                if queued(queue, v) {
                    let i = choose|i: int| 0 <= i < queue.len() && (#[trigger] queue[i]).0 == v;
                    assert(queue2[i] == queue[i]);
                } else {
                    assert(self.settled(dist, v));
                }
            }
        }
        if dist.dom().contains(end) {
            let i = choose|i: int| 0 <= i < queue.len() && (#[trigger] queue[i]).0 == end;
            assert(queue2[i] == queue[i]);
        }
        assert forall|i: int| 0 <= i < queue2.len() implies dist2.dom().contains(
            (#[trigger] queue2[i]).0,
        ) && dist2[queue2[i].0] == queue2[i].1 && queue2[i].1 + 1 <= dist2.dom().len() by {
            if i < queue.len() {
                assert(queue2[i] == queue[i]);
            }
        }
        assert forall|i: int, j: int| 0 <= i <= j < queue2.len() implies (#[trigger] queue2[i]).1
            <= (#[trigger] queue2[j]).1 <= queue2[i].1 + 1 by {
            if i < queue.len() {
                assert(queue2[i] == queue[i]);
            }
            if j < queue.len() {
                assert(queue2[j] == queue[j]);
            }
        }
        assert forall|v: NodeIndex, i: int|
            #[trigger] dist2.dom().contains(v) && 0 <= i < queue2.len() implies dist2[v] <= (
        #[trigger] queue2[i]).1 + 1 by {
            if i < queue.len() {
                assert(queue2[i] == queue[i]);
            }
        }
        assert forall|i: int| 0 <= i < queue2.len() implies k <= (#[trigger] queue2[i]).1 <= k
            + 1 by {
            if i < queue.len() {
                assert(queue2[i] == queue[i]);
            }
        }
        assert(self.search_inv(start, end, queue2, dist2, path2, Some(current)));
    }

    /// Once all successors of the node in hand have been reached, the node is
    /// settled.
    proof fn lemma_search_settle(
        self,
        start: NodeIndex,
        end: NodeIndex,
        queue: Seq<(NodeIndex, u32)>,
        dist: Map<NodeIndex, nat>,
        path: Map<NodeIndex, Seq<NodeIndex>>,
        current: NodeIndex,
        k: u32,
    )
        requires
            self.expanding(
                start,
                end,
                queue,
                dist,
                path,
                current,
                k,
                self.successors_of(current).len() as int,
            ),
        ensures
            self.search_inv(start, end, queue, dist, path, None),
    {
        assert(self.settled(dist, current));
    }

    /// The least number of edges on a directed path from `start` to `end`,
    /// every edge counting one; `None` where `end` cannot be reached. The
    /// graph is left as it was.
    pub fn bfs(&mut self, start: NodeIndex, end: NodeIndex) -> (r: Option<u32>)
        requires
            old(self).wf(),
            old(self).targets_valid(),
            start < old(self).node_count(),
            old(self).node_count() <= u32::MAX,
        ensures
            *final(self) == *old(self),
            old(self).searched(*final(self), start, end, r),
            match r {
                Some(d) => old(self).distance(start, end) == Some(d as nat),
                None => old(self).distance(start, end) is None,
            },
            r is Some <==> old(self).reachable(start, end),
            r matches Some(d) ==> old(self).is_distance(start, end, d as nat),
            start == end ==> r == Some(0u32),
    {
        let mut queue: VecDeque<(NodeIndex, u32)> = VecDeque::new();
        queue.push_back((start, 0));
        let mut visited: HashSet<NodeIndex> = HashSet::new();
        visited.insert(start);
        let ghost mut dist: Map<NodeIndex, nat> = Map::empty().insert(start, 0nat);
        let ghost mut path: Map<NodeIndex, Seq<NodeIndex>> = Map::empty().insert(
            start,
            seq![start],
        );
        proof {
            assert(dist.dom() =~= set![start]);
            assert(path.dom() =~= dist.dom());
            assert(queue@[0] == (start, 0u32));
            assert(queued(queue@, start));
        }
        loop
            invariant
                *self == *old(self),
                self.wf(),
                self.targets_valid(),
                self.node_count() <= u32::MAX,
                visited@ == dist.dom(),
                self.search_inv(start, end, queue@, dist, path, None),
                start == end ==> queue@.len() > 0 && queue@[0] == (start, 0u32),
            decreases self.node_count() - visited@.len() + queue@.len(),
        {
            proof {
                lemma_bounded_set_len(visited@, self.node_count());
            }
            let ghost before = queue@;
            let (current, current_distance) = match queue.pop_front() {
                None => {
                    proof {
                        assert(queue@ =~= Seq::empty());
                        self.lemma_search_exhausted(start, end, dist, path);
                    }
                    return None;
                },
                Some(x) => x,
            };
            if current == end {
                proof {
                    self.lemma_search_found(start, end, before, dist, path);
                }
                return Some(current_distance);
            }
            proof {
                self.lemma_search_pop(start, end, before, dist, path);
            }
            let mut it = self.successors(current);
            let ghost mut done: int = 0;
            let ghost budget = self.node_count() - visited@.len() + queue@.len();
            loop
                invariant
                    *self == *old(self),
                    self.wf(),
                    self.targets_valid(),
                    self.node_count() <= u32::MAX,
                    current < self.node_count(),
                    visited@ == dist.dom(),
                    self.expanding(start, end, queue@, dist, path, current, current_distance, done),
                    it.wf(),
                    it@ == self.successors_of(current).skip(done),
                    self.node_count() - visited@.len() + queue@.len() == budget,
                ensures
                    self.search_inv(start, end, queue@, dist, path, None),
                decreases it@.len(),
            {
                let successor_node = match it.next() {
                    None => {
                        proof {
                            self.lemma_search_settle(
                                start,
                                end,
                                queue@,
                                dist,
                                path,
                                current,
                                current_distance,
                            );
                        }
                        break ;
                    },
                    Some(x) => x,
                };
                proof {
                    assert(successor_node == self.successors_of(current)[done]);
                    assert(self.successors_of(current).skip(done).skip(1)
                        =~= self.successors_of(current).skip(done + 1));
                }
                if !visited.contains(&successor_node) {
                    proof {
                        lemma_bounded_set_len(visited@, self.node_count());
                        lemma_bounded_set_len(
                            visited@.insert(successor_node),
                            self.node_count(),
                        );
                        self.lemma_search_push(
                            start,
                            end,
                            queue@,
                            dist,
                            path,
                            current,
                            current_distance,
                            done,
                        );
                    }
                    visited.insert(successor_node);
                    queue.push_back((successor_node, current_distance + 1));
                    proof {
                        path = path.insert(successor_node, path[current].push(successor_node));
                        dist = dist.insert(successor_node, (current_distance + 1) as nat);
                    }
                } else {
                    proof {
                        self.lemma_search_skip(
                            start,
                            end,
                            queue@,
                            dist,
                            path,
                            current,
                            current_distance,
                            done,
                        );
                    }
                }
                proof {
                    done = done + 1;
                }
            }
        }
    }

    /// Node `w` has been dealt with at a distance of at most `m`: lowered to
    /// at most `m`, or left alone because it held at most `m` from the outset.
    spec fn resolved(self, before: Graph, upd: Set<NodeIndex>, w: NodeIndex, m: int) -> bool {
        ||| upd.contains(w) && (self.recorded(w) matches Some(x) && x <= m)
        ||| (before.recorded(w) matches Some(x) && x <= m)
    }

    /// Node `w` waits in the queue at a distance of at most `m`, or has been
    /// dealt with at one.
    spec fn covered(
        self,
        before: Graph,
        queue: Seq<(NodeIndex, u32)>,
        upd: Set<NodeIndex>,
        w: NodeIndex,
        m: int,
    ) -> bool {
        ||| exists|i: int| 0 <= i < queue.len() && (#[trigger] queue[i]).0 == w && queue[i].1 <= m
        ||| self.resolved(before, upd, w, m)
    }

    /// The nodes and edges are those of `before`; only recorded distances may
    /// differ.
    spec fn same_shape(self, before: Graph) -> bool {
        &&& self.edges@ == before.edges@
        &&& self.nodes@.len() == before.nodes@.len()
        &&& forall|n: int|
            0 <= n < self.nodes@.len() ==> (#[trigger] self.nodes@[n]).first_outgoing_edge
                == before.nodes@[n].first_outgoing_edge
    }

    /// What the relaxing traversal knows between two steps. `upd` holds the
    /// nodes lowered so far and `path` a lowering walk for each; `walks` holds
    /// a lowering walk for each queue entry.
    spec fn relax_inv(
        self,
        before: Graph,
        start: NodeIndex,
        queue: Seq<(NodeIndex, u32)>,
        walks: Seq<Seq<NodeIndex>>,
        upd: Set<NodeIndex>,
        path: Map<NodeIndex, Seq<NodeIndex>>,
        in_hand: Option<NodeIndex>,
    ) -> bool {
        &&& self.same_shape(before)
        &&& upd.finite()
        &&& path.dom() == upd
        &&& forall|v: NodeIndex| #[trigger]
            upd.contains(v) ==> v < self.node_count() && self.recorded(v) is Some
                && before.can_lower(v, self.recorded(v)->0 as nat) && before.is_lowering_path(
                path[v],
                start,
                v,
            ) && path[v].len() == self.recorded(v)->0 + 1
        &&& forall|v: NodeIndex|
            !upd.contains(v) ==> #[trigger] self.recorded(v) == before.recorded(v)
        &&& walks.len() == queue.len()
        &&& forall|i: int|
            0 <= i < queue.len() ==> (#[trigger] queue[i]).0 < self.node_count()
                && before.is_lowering_path(walks[i], start, queue[i].0) && walks[i].len()
                == queue[i].1 + 1 && queue[i].1 <= upd.len()
        &&& forall|i: int, j: int|
            0 <= i <= j < queue.len() ==> (#[trigger] queue[i]).1 <= (#[trigger] queue[j]).1
                <= queue[i].1 + 1
        &&& forall|v: NodeIndex, i: int|
            #[trigger] upd.contains(v) && 0 <= i < queue.len() ==> self.recorded(v)->0 <= (
            #[trigger] queue[i]).1
        &&& forall|u: NodeIndex, j: int|
            #[trigger] upd.contains(u) && in_hand != Some(u) && 0 <= j < before.successors_of(
                u,
            ).len() ==> self.covered(
                before,
                queue,
                upd,
                #[trigger] before.successors_of(u)[j],
                self.recorded(u)->0 + 1,
            )
        &&& self.covered(before, queue, upd, start, 0)
    }

    /// Once the queue is empty, every node on a lowering walk from the start
    /// has been dealt with at its position in the walk.
    proof fn lemma_walk_resolved(
        self,
        before: Graph,
        start: NodeIndex,
        upd: Set<NodeIndex>,
        path: Map<NodeIndex, Seq<NodeIndex>>,
        q: Seq<NodeIndex>,
        i: int,
    )
        requires
            self.relax_inv(before, start, Seq::empty(), Seq::empty(), upd, path, None),
            before.is_lowering_walk(q),
            q[0] == start,
            0 <= i < q.len(),
        ensures
            self.resolved(before, upd, q[i], i),
        decreases i,
    {
        if i > 0 {
            self.lemma_walk_resolved(before, start, upd, path, q, i - 1);
            let u = q[i - 1];
            assert(before.can_lower(u, (i - 1) as nat));
            assert(upd.contains(u));
            assert(before.steps(q, i - 1));
            let j = choose|j: int|
                0 <= j < before.successors_of(u).len() && before.successors_of(u)[j] == q[i];
            assert(self.covered(
                before,
                Seq::empty(),
                upd,
                before.successors_of(u)[j],
                self.recorded(u)->0 + 1,
            ));
        }
    }

    /// Once the queue is empty, every node holds what `relaxed` says.
    proof fn lemma_relaxed_at_end(
        self,
        before: Graph,
        start: NodeIndex,
        upd: Set<NodeIndex>,
        path: Map<NodeIndex, Seq<NodeIndex>>,
        v: NodeIndex,
    )
        requires
            self.relax_inv(before, start, Seq::empty(), Seq::empty(), upd, path, None),
        ensures
            self.recorded(v) == before.relaxed(start, v),
    {
        assert forall|q: Seq<NodeIndex>| #[trigger]
            before.is_lowering_path(q, start, v) implies self.resolved(
            before,
            upd,
            v,
            q.len() - 1,
        ) by {
            self.lemma_walk_resolved(before, start, upd, path, q, q.len() - 1);
        }
        if upd.contains(v) {
            let d = self.recorded(v)->0 as nat;
            assert(before.is_lowering_path(path[v], start, v));
            assert(before.is_lowering_distance(start, v, d));
            before.lemma_lowering_distance_unique(start, v, d);
        } else {
            if before.lowering_distance(start, v) is Some {
                let d = before.lowering_distance(start, v)->0;
                let p = choose|p: Seq<NodeIndex>| #[trigger]
                    before.is_lowering_path(p, start, v) && p.len() == d + 1;
                assert(self.resolved(before, upd, v, p.len() - 1));
            }
        }
    }

    /// A relation holds for at most one lowering distance.
    pub proof fn lemma_lowering_distance_unique(self, a: NodeIndex, b: NodeIndex, d: nat)
        requires
            self.is_lowering_distance(a, b, d),
        ensures
            self.lowering_distance(a, b) == Some(d),
    {
        let c = choose|c: nat| self.is_lowering_distance(a, b, c);
        let p = choose|p: Seq<NodeIndex>| #[trigger]
            self.is_lowering_path(p, a, b) && p.len() == d + 1;
        let q = choose|q: Seq<NodeIndex>| #[trigger]
            self.is_lowering_path(q, a, b) && q.len() == c + 1;
        assert(p.len() >= c + 1);
        assert(q.len() >= d + 1);
    }

    /// On a graph in which no distance is recorded, every walk is a lowering
    /// walk, so the relaxing traversal leaves at every node its distance from
    /// the start.
    pub proof fn lemma_relaxed_on_fresh_graph(self, a: NodeIndex, b: NodeIndex)
        requires
            forall|v: NodeIndex| self.recorded(v) is None,
        ensures
            self.lowering_distance(a, b) == self.distance(a, b),
            self.relaxed(a, b) == match self.distance(a, b) {
                Some(d) => Some(d as u32),
                None => None,
            },
    {
        assert forall|p: Seq<NodeIndex>|
            self.is_lowering_path(p, a, b) == self.is_path(p, a, b) by {
            if self.is_path(p, a, b) {
                assert forall|i: int| 0 <= i < p.len() - 1 implies self.can_lower(
                    #[trigger] p[i],
                    i as nat,
                ) by {
                    assert(self.recorded(p[i]) is None);
                }
            }
        }
        assert forall|d: nat| self.is_lowering_distance(a, b, d) == self.is_distance(a, b, d) by {
            if self.is_lowering_distance(a, b, d) {
                let p = choose|p: Seq<NodeIndex>| #[trigger]
                    self.is_lowering_path(p, a, b) && p.len() == d + 1;
                assert(self.is_path(p, a, b));
            }
            if self.is_distance(a, b, d) {
                let p = choose|p: Seq<NodeIndex>| #[trigger]
                    self.is_path(p, a, b) && p.len() == d + 1;
                assert(self.is_lowering_path(p, a, b));
            }
        }
        if exists|d: nat| self.is_distance(a, b, d) {
            let d = choose|d: nat| self.is_distance(a, b, d);
            assert(self.is_lowering_distance(a, b, d));
            self.lemma_lowering_distance_unique(a, b, d);
        } else {
            if exists|d: nat| self.is_lowering_distance(a, b, d) {
                let d = choose|d: nat| self.is_lowering_distance(a, b, d);
                assert(self.is_distance(a, b, d));
            }
        }
        assert(self.recorded(b) is None);
    }

    /// The relaxing traversal: visits nodes in first-in-first-out order from
    /// `start`, lowers the distance recorded at a node whenever a visit
    /// arrives with a smaller one, and passes on to the successors only then.
    /// Returns what is recorded at `end` afterwards; `None` where nothing is.
    /// What was recorded before the call takes part: see `relaxed`.
    pub fn shortest_path(&mut self, start: NodeIndex, end: NodeIndex) -> (r: Option<u32>)
        requires
            old(self).wf(),
            old(self).targets_valid(),
            start < old(self).node_count(),
            end < old(self).node_count(),
            old(self).node_count() <= u32::MAX,
        ensures
            final(self).wf(),
            final(self).node_count() == old(self).node_count(),
            forall|n: NodeIndex| #[trigger]
                final(self).successors_of(n) == old(self).successors_of(n),
            forall|v: NodeIndex| #[trigger] final(self).recorded(v) == old(self).relaxed(start, v),
            r == old(self).relaxed(start, end),
    {
        let mut queue: VecDeque<(NodeIndex, u32)> = VecDeque::new();
        queue.push_back((start, 0));
        let ghost before = *self;
        let ghost mut walks: Seq<Seq<NodeIndex>> = seq![seq![start]];
        let ghost mut upd: Set<NodeIndex> = Set::empty();
        let ghost mut path: Map<NodeIndex, Seq<NodeIndex>> = Map::empty();
        proof {
            assert(queue@[0] == (start, 0u32));
            assert(before.is_lowering_path(walks[0], start, start));
            assert(self.covered(before, queue@, upd, start, 0));
            assert(path.dom() =~= upd);
        }
        loop
            invariant
                before == *old(self),
                before.wf(),
                before.targets_valid(),
                before.node_count() <= u32::MAX,
                self.relax_inv(before, start, queue@, walks, upd, path, None),
            ensures
                queue@.len() == 0,
            decreases before.node_count() - upd.len(), queue@.len(),
        {
            proof {
                lemma_bounded_set_len(upd, self.node_count());
            }
            let ghost queue_before = queue@;
            let ghost walks_before = walks;
            let (current, current_distance) = match queue.pop_front() {
                None => {
                    break ;
                },
                Some(x) => x,
            };
            proof {
                walks = walks.skip(1);
                assert(queue_before[0] == (current, current_distance));
                assert forall|i: int| 0 <= i < queue@.len() implies queue@[i] == queue_before[i
                    + 1] && walks[i] == walks_before[i + 1] by {}
                assert forall|i: int| 0 <= i < queue@.len() implies current_distance <= (
                #[trigger] queue@[i]).1 <= current_distance + 1 by {
                    assert(queue_before[0].1 <= queue_before[i + 1].1);
                }
            }
            let first = self.nodes[current].first_outgoing_edge;
            let update_current = match self.nodes[current].shortest_path {
                None => true,
                Some(x) => x > current_distance,
            };
            if update_current {
                let ghost prior = *self;
                let ghost upd_before = upd;
                proof {
                    assert(!upd.contains(current)) by {
                        if upd.contains(current) {
                            assert(self.recorded(current)->0 <= queue_before[0].1);
                        }
                    }
                    lemma_bounded_set_len(upd.insert(current), self.node_count());
                }
                self.nodes.set(
                    current,
                    NodeData { first_outgoing_edge: first, shortest_path: Some(current_distance) },
                );
                proof {
                    upd = upd.insert(current);
                    path = path.insert(current, walks_before[0]);
                    assert(path.dom() =~= upd);
                    assert forall|n: NodeIndex| #[trigger]
                        self.successors_of(n) == before.successors_of(n) by {}
                    assert(self.wf());
                    assert forall|v: NodeIndex| v != current implies #[trigger] self.recorded(v)
                        == prior.recorded(v) by {}
                    assert(before.can_lower(current, current_distance as nat));
                    assert forall|w: NodeIndex, m: int|
                        prior.covered(before, queue_before, upd_before, w, m) implies self.covered(
                        before,
                        queue@,
                        upd,
                        w,
                        m,
                    ) by {
                        if prior.resolved(before, upd_before, w, m) {
                            assert(self.resolved(before, upd, w, m));
                        } else {
                            let i = choose|i: int|
                                0 <= i < queue_before.len() && (#[trigger] queue_before[i]).0 == w
                                    && queue_before[i].1 <= m;
                            if i == 0 {
                                assert(self.resolved(before, upd, w, m));
                            } else {
                                assert(queue@[i - 1] == queue_before[i]);
                            }
                        }
                    }
                    assert forall|u: NodeIndex, j: int|
                        #[trigger] upd.contains(u) && Some(current) != Some(u) && 0 <= j
                            < before.successors_of(u).len() implies self.covered(
                        before,
                        queue@,
                        upd,
                        #[trigger] before.successors_of(u)[j],
                        self.recorded(u)->0 + 1,
                    ) by {
                        assert(upd_before.contains(u));
                        assert(prior.covered(
                            before,
                            queue_before,
                            upd_before,
                            before.successors_of(u)[j],
                            prior.recorded(u)->0 + 1,
                        ));
                    }
                    assert(prior.covered(before, queue_before, upd_before, start, 0));
                    assert(self.relax_inv(before, start, queue@, walks, upd, path, Some(current)));
                }
                let mut it = self.successors(current);
                let ghost mut done: int = 0;
                loop
                    invariant
                        before.wf(),
                        before.targets_valid(),
                        before.node_count() <= u32::MAX,
                        self.wf(),
                        self.relax_inv(before, start, queue@, walks, upd, path, Some(current)),
                        upd.contains(current),
                        self.recorded(current) == Some(current_distance),
                        current_distance + 1 <= upd.len() <= before.node_count(),
                        forall|v: NodeIndex| #[trigger]
                            upd.contains(v) ==> self.recorded(v)->0 <= current_distance,
                        forall|i: int|
                            0 <= i < queue@.len() ==> current_distance <= (#[trigger] queue@[i]).1
                                <= current_distance + 1,
                        it.wf(),
                        0 <= done <= before.successors_of(current).len(),
                        it@ == before.successors_of(current).skip(done),
                        forall|j: int|
                            0 <= j < done ==> self.covered(
                                before,
                                queue@,
                                upd,
                                #[trigger] before.successors_of(current)[j],
                                current_distance + 1,
                            ),
                    ensures
                        self.relax_inv(before, start, queue@, walks, upd, path, None),
                    decreases it@.len(),
                {
                    let successor_node = match it.next() {
                        None => {
                            break ;
                        },
                        Some(x) => x,
                    };
                    let ghost queue_then = queue@;
                    proof {
                        assert(successor_node == before.successors_of(current)[done]);
                        assert(before.successors_of(current).skip(done).skip(1)
                            =~= before.successors_of(current).skip(done + 1));
                    }
                    queue.push_back((successor_node, current_distance + 1));
                    proof {
                        let walk = path[current].push(successor_node);
                        walks = walks.push(walk);
                        assert(before.has_edge(current, successor_node));
                        assert(before.is_lowering_path(walk, start, successor_node)) by {
                            assert forall|i: int| 0 <= i < walk.len() - 1 implies #[trigger] before.steps(
                                walk,
                                i,
                            ) && before.can_lower(walk[i], i as nat) by {
                                if i < path[current].len() - 1 {
                                    assert(before.steps(path[current], i));
                                    assert(walk[i] == path[current][i]);
                                    assert(walk[i + 1] == path[current][i + 1]);
                                }
                            }
                        }
                        assert forall|w: NodeIndex, m: int|
                            self.covered(before, queue_then, upd, w, m) implies self.covered(
                            before,
                            queue@,
                            upd,
                            w,
                            m,
                        ) by {
                            if !self.resolved(before, upd, w, m) {
                                let i = choose|i: int|
                                    0 <= i < queue_then.len() && (#[trigger] queue_then[i]).0 == w
                                        && queue_then[i].1 <= m;
                                assert(queue@[i] == queue_then[i]);
                            }
                        }
                        assert(queue@[queue@.len() - 1] == (
                            successor_node,
                            (current_distance + 1) as u32,
                        ));
                        assert(self.covered(
                            before,
                            queue@,
                            upd,
                            successor_node,
                            current_distance + 1,
                        ));
                        done = done + 1;
                    }
                }
            } else {
                proof {
                    assert forall|w: NodeIndex, m: int|
                        self.covered(before, queue_before, upd, w, m) implies self.covered(
                        before,
                        queue@,
                        upd,
                        w,
                        m,
                    ) by {
                        if !self.resolved(before, upd, w, m) {
                            let i = choose|i: int|
                                0 <= i < queue_before.len() && (#[trigger] queue_before[i]).0 == w
                                    && queue_before[i].1 <= m;
                            if i == 0 {
                                assert(self.resolved(before, upd, w, m));
                            } else {
                                assert(queue@[i - 1] == queue_before[i]);
                            }
                        }
                    }
                }
            }
        }
        proof {
            assert(queue@ =~= Seq::empty());
            assert(walks =~= Seq::empty());
            assert forall|v: NodeIndex| #[trigger] self.recorded(v) == before.relaxed(start, v) by {
                self.lemma_relaxed_at_end(before, start, upd, path, v);
            }
            assert forall|n: NodeIndex| #[trigger]
                self.successors_of(n) == before.successors_of(n) by {}
            assert(self.recorded(end) == before.relaxed(start, end));
        }
        self.nodes[end].shortest_path
    }
}

/// The targets that the calls of `add_edge` among `calls` gave for `source`,
/// one entry per call.
pub open spec fn targets_given(calls: Seq<Option<(NodeIndex, NodeIndex)>>, source: NodeIndex) -> Multiset<
    NodeIndex,
>
    decreases calls.len(),
{
    if calls.len() == 0 {
        Multiset::empty()
    } else {
        let before = targets_given(calls.drop_last(), source);
        match calls.last() {
            Some((s, target)) => if s == source {
                before.insert(target)
            } else {
                before
            },
            None => before,
        }
    }
}

/// Call `i` leads from graph `i` to the next.
pub open spec fn step_at(graphs: Seq<Graph>, calls: Seq<Option<(NodeIndex, NodeIndex)>>, i: int) -> bool {
    graphs[i].changed_by(graphs[i + 1], calls[i])
}

/// `graphs` are the states that a graph passes through under `calls`, each
/// a call of `add_node` or of `add_edge`.
pub open spec fn grown_by(graphs: Seq<Graph>, calls: Seq<Option<(NodeIndex, NodeIndex)>>) -> bool {
    &&& graphs.len() == calls.len() + 1
    &&& forall|i: int| 0 <= i < calls.len() ==> #[trigger] step_at(graphs, calls, i)
}

/// Whatever the order of the calls, a node's successors after them are those
/// it had before together with the targets that `add_edge` was given for it.
pub proof fn lemma_successors_grow(
    graphs: Seq<Graph>,
    calls: Seq<Option<(NodeIndex, NodeIndex)>>,
    source: NodeIndex,
)
    requires
        grown_by(graphs, calls),
    ensures
        graphs.last().successors_of(source).to_multiset() == graphs[0].successors_of(
            source,
        ).to_multiset().add(targets_given(calls, source)),
    decreases calls.len(),
{
    if calls.len() == 0 {
        assert(graphs[0].successors_of(source).to_multiset().add(Multiset::empty())
            =~= graphs[0].successors_of(source).to_multiset());
    } else {
        let n = calls.len() as int;
        let earlier = graphs.drop_last();
        let given = calls.drop_last();
        assert forall|i: int| 0 <= i < given.len() implies #[trigger] step_at(earlier, given, i) by {
            assert(step_at(graphs, calls, i));
        }
        lemma_successors_grow(earlier, given, source);
        assert(step_at(graphs, calls, n - 1));
        let before = graphs[n - 1];
        let after = graphs[n];
        assert(earlier.last() == before);
        assert(earlier[0] == graphs[0]);
        let had = graphs[0].successors_of(source).to_multiset();
        match calls.last() {
            Some((s, target)) => {
                if s == source {
                    let held = before.successors_of(source);
                    assert((seq![target] + held).to_multiset() =~= held.to_multiset().insert(
                        target,
                    )) by {
                        vstd::seq_lib::lemma_multiset_commutative(seq![target], held);
                        assert(seq![target] =~= Seq::<NodeIndex>::empty().push(target));
                        Seq::<NodeIndex>::empty().to_multiset_ensures();
                    }
                    assert(had.add(targets_given(given, source)).insert(target) =~= had.add(
                        targets_given(given, source).insert(target),
                    ));
                }
            },
            None => {},
        }
    }
}

/// On a graph that was built from nothing, a node's successors are exactly
/// the targets that `add_edge` was given for it, each as often as it was
/// given, whatever calls for other nodes came in between.
pub proof fn lemma_successors_are_the_targets_given(
    graphs: Seq<Graph>,
    calls: Seq<Option<(NodeIndex, NodeIndex)>>,
    source: NodeIndex,
)
    requires
        grown_by(graphs, calls),
        graphs[0].node_count() == 0,
    ensures
        graphs.last().successors_of(source).to_multiset() == targets_given(calls, source),
{
    lemma_successors_grow(graphs, calls, source);
    graphs[0].lemma_no_successors_outside(source);
    assert(Seq::<NodeIndex>::empty().to_multiset().add(targets_given(calls, source))
        =~= targets_given(calls, source)) by {
        Seq::<NodeIndex>::empty().to_multiset_ensures();
    }
}

impl<'graph> View for Successors<'graph> {
    type V = Seq<NodeIndex>;

    /// The nodes still to come, in the order in which `next` hands them out.
    closed spec fn view(&self) -> Seq<NodeIndex> {
        chain(self.graph.edges@, self.current_edge_index)
    }
}

impl<'graph> Successors<'graph> {
    /// The cursor stands on an edge of a well-formed graph, or at the end.
    pub closed spec fn wf(self) -> bool {
        &&& self.graph.wf()
        &&& self.current_edge_index matches Some(e) ==> e < self.graph.edges@.len()
    }

    /// Hands out the next successor, or `None` once all have been handed out.
    pub fn next(&mut self) -> (r: Option<NodeIndex>)
        requires
            old(self).wf(),
        ensures
            final(self).wf(),
            old(self)@.len() == 0 ==> r is None && final(self)@ == old(self)@,
            old(self)@.len() > 0 ==> r == Some(old(self)@[0]) && final(self)@ == old(self)@.skip(1),
    {
        match self.current_edge_index {
            None => None,
            Some(edge_num) => {
                let edge = &self.graph.edges[edge_num];
                proof {
                    let rest = chain(self.graph.edges@, edge.next_outgoing_edge);
                    assert((seq![edge.target] + rest).skip(1) =~= rest);
                }
                self.current_edge_index = edge.next_outgoing_edge;
                Some(edge.target)
            },
        }
    }
}

} // verus!
