//! [`Graph`]: `Vec`-backed store of nodes, edges and adjacency lists.
//!
//! Node and edge ids are unique; every edge joins two stored nodes; each node's
//! outgoing (incoming) list holds the ids of the edges leaving (entering) it,
//! in insertion order. Self loops and parallel edges are allowed.

use vstd::prelude::*;
use crate::graph::edge::{Edge, EdgeId};
use crate::graph::error::{GraphError, GraphResult};
use crate::graph::node::{Node, NodeId};

verus! {

/// Node and edge counts.
#[derive(Clone, Copy, Debug, Default, PartialEq, Eq, Structural)]
pub struct GraphStats {
    /// Number of nodes.
    pub node_count: usize,
    /// Number of edges.
    pub edge_count: usize,
}

/// Ids of the edges of `es` (id, src, dst) whose source is `n`, in order.
pub open spec fn edges_from(es: Seq<(EdgeId, NodeId, NodeId)>, n: NodeId) -> Seq<EdgeId>
    decreases es.len(),
{
    if es.len() == 0 {
        Seq::empty()
    } else {
        let rest = edges_from(es.drop_last(), n);
        if es.last().1 == n {
            rest.push(es.last().0)
        } else {
            rest
        }
    }
}

/// Ids of the edges of `es` (id, src, dst) whose target is `n`, in order.
pub open spec fn edges_to(es: Seq<(EdgeId, NodeId, NodeId)>, n: NodeId) -> Seq<EdgeId>
    decreases es.len(),
{
    if es.len() == 0 {
        Seq::empty()
    } else {
        let rest = edges_to(es.drop_last(), n);
        if es.last().2 == n {
            rest.push(es.last().0)
        } else {
            rest
        }
    }
}


/// `s` without repeats, keeping first occurrences in order.
pub open spec fn dedup(s: Seq<NodeId>) -> Seq<NodeId>
    decreases s.len(),
{
    if s.len() == 0 {
        Seq::empty()
    } else {
        let rest = dedup(s.drop_last());
        if rest.contains(s.last()) {
            rest
        } else {
            rest.push(s.last())
        }
    }
}

/// Position of `x` in `s` (`-1` when absent); the first one if it repeats.
pub open spec fn pos_of<A>(s: Seq<A>, x: A) -> int
    decreases s.len(),
{
    if s.len() == 0 {
        -1
    } else if s[0] == x {
        0
    } else {
        let p = pos_of(s.drop_first(), x);
        if p < 0 {
            -1
        } else {
            p + 1
        }
    }
}

/// `pos_of` finds `x` exactly when `x` occurs, at an index holding `x`, and
/// no earlier index holds `x`.
pub proof fn lemma_pos_of<A>(s: Seq<A>, x: A)
    ensures
        s.contains(x) <==> pos_of(s, x) >= 0,
        pos_of(s, x) >= 0 ==> pos_of(s, x) < s.len() && s[pos_of(s, x)] == x,
        pos_of(s, x) >= 0 ==> forall|j: int| 0 <= j < pos_of(s, x) ==> s[j] != x,
        pos_of(s, x) >= -1,
    decreases s.len(),
{
    if s.len() > 0 {
        lemma_pos_of(s.drop_first(), x);
        if s[0] != x {
            if s.contains(x) {
                let k = choose|k: int| 0 <= k < s.len() && s[k] == x;
                assert(s.drop_first()[k - 1] == x);
            }
            if s.drop_first().contains(x) {
                let k = choose|k: int| 0 <= k < s.drop_first().len() && s.drop_first()[k] == x;
                assert(s[k + 1] == x);
            }
            let p = pos_of(s.drop_first(), x);
            if p >= 0 {
                assert forall|j: int| 0 <= j < p + 1 implies s[j] != x by {
                    if j > 0 {
                        assert(s[j] == s.drop_first()[j - 1]);
                    }
                }
            }
        }
    }
}

/// In a sequence without repeats, the element at `i` is found at `i`.
pub proof fn lemma_pos_of_unique<A>(s: Seq<A>, i: int)
    requires
        s.no_duplicates(),
        0 <= i < s.len(),
    ensures
        pos_of(s, s[i]) == i,
{
    lemma_pos_of(s, s[i]);
    assert(s.contains(s[i]));
}


/// Appending an edge extends the lists of its source and target only.
pub proof fn lemma_edges_push(es: Seq<(EdgeId, NodeId, NodeId)>, e: (EdgeId, NodeId, NodeId), n: NodeId)
    ensures
        edges_from(es.push(e), n) == if e.1 == n {
            edges_from(es, n).push(e.0)
        } else {
            edges_from(es, n)
        },
        edges_to(es.push(e), n) == if e.2 == n {
            edges_to(es, n).push(e.0)
        } else {
            edges_to(es, n)
        },
{
    assert(es.push(e).drop_last() == es);
}

/// A node that no edge leaves (enters) has an empty outgoing (incoming) list.
pub proof fn lemma_edges_none(es: Seq<(EdgeId, NodeId, NodeId)>, n: NodeId)
    ensures
        (forall|j: int| 0 <= j < es.len() ==> (#[trigger] es[j]).1 != n) ==> edges_from(es, n)
            == Seq::<EdgeId>::empty(),
        (forall|j: int| 0 <= j < es.len() ==> (#[trigger] es[j]).2 != n) ==> edges_to(es, n)
            == Seq::<EdgeId>::empty(),
    decreases es.len(),
{
    if es.len() > 0 {
        lemma_edges_none(es.drop_last(), n);
        assert forall|j: int| 0 <= j < es.drop_last().len() implies es.drop_last()[j] == es[j] by {}
    }
}

/// Every id listed by `edges_from` / `edges_to` is the id of some edge of `es`.
pub proof fn lemma_edges_from_members(es: Seq<(EdgeId, NodeId, NodeId)>, n: NodeId)
    ensures
        forall|k: int|
            0 <= k < edges_from(es, n).len() ==> exists|j: int|
                0 <= j < es.len() && es[j].0 == #[trigger] edges_from(es, n)[k] && es[j].1 == n,
        forall|k: int|
            0 <= k < edges_to(es, n).len() ==> exists|j: int|
                0 <= j < es.len() && es[j].0 == #[trigger] edges_to(es, n)[k] && es[j].2 == n,
    decreases es.len(),
{
    if es.len() > 0 {
        let p = es.drop_last();
        lemma_edges_from_members(p, n);
        assert forall|k: int|
            0 <= k < edges_from(es, n).len() implies exists|j: int|
                0 <= j < es.len() && es[j].0 == #[trigger] edges_from(es, n)[k] && es[j].1 == n by {
            if k < edges_from(p, n).len() {
                let j = choose|j: int| 0 <= j < p.len() && p[j].0 == edges_from(p, n)[k] && p[j].1 == n;
                assert(es[j] == p[j]);
            } else {
                assert(es[es.len() - 1].0 == edges_from(es, n)[k]);
            }
        }
        assert forall|k: int|
            0 <= k < edges_to(es, n).len() implies exists|j: int|
                0 <= j < es.len() && es[j].0 == #[trigger] edges_to(es, n)[k] && es[j].2 == n by {
            if k < edges_to(p, n).len() {
                let j = choose|j: int| 0 <= j < p.len() && p[j].0 == edges_to(p, n)[k] && p[j].2 == n;
                assert(es[j] == p[j]);
            } else {
                assert(es[es.len() - 1].0 == edges_to(es, n)[k]);
            }
        }
    }
}

/// The `j`-th edge is listed among the edges leaving its source and among
/// the edges entering its target.
pub proof fn lemma_edge_listed(es: Seq<(EdgeId, NodeId, NodeId)>, j: int)
    requires
        0 <= j < es.len(),
    ensures
        edges_from(es, es[j].1).contains(es[j].0),
        edges_to(es, es[j].2).contains(es[j].0),
    decreases es.len(),
{
    let p = es.drop_last();
    if j == es.len() - 1 {
        let a = edges_from(es, es[j].1);
        let b = edges_to(es, es[j].2);
        assert(a[a.len() - 1] == es[j].0);
        assert(b[b.len() - 1] == es[j].0);
    } else {
        assert(p[j] == es[j]);
        lemma_edge_listed(p, j);
        let a = edges_from(p, es[j].1);
        let b = edges_to(p, es[j].2);
        let m = choose|m: int| 0 <= m < a.len() && a[m] == es[j].0;
        let n = choose|n: int| 0 <= n < b.len() && b[n] == es[j].0;
        assert(edges_from(es, es[j].1)[m] == es[j].0);
        assert(edges_to(es, es[j].2)[n] == es[j].0);
    }
}

/// One stored edge: its recorded id and ends, and the payload.
struct EdgeSlot<E> {
    id: EdgeId,
    src: NodeId,
    dst: NodeId,
    payload: E,
}

/// Knowledge-graph store over node payloads `N` and edge payloads `E`.
pub struct Graph<N: Node, E: Edge> {
    nodes: Vec<(NodeId, N)>,
    edges: Vec<EdgeSlot<E>>,
    outgoing: Vec<(NodeId, Vec<EdgeId>)>,
    incoming: Vec<(NodeId, Vec<EdgeId>)>,
}

impl<N: Node, E: Edge> Graph<N, E> {
    /// Node ids, in insertion order.
    pub closed spec fn node_ids(&self) -> Seq<NodeId> {
        self.nodes@.map_values(|p: (NodeId, N)| p.0)
    }

    /// Node payloads, in insertion order.
    pub closed spec fn node_payloads(&self) -> Seq<N> {
        self.nodes@.map_values(|p: (NodeId, N)| p.1)
    }

    /// Edges as `(id, src, dst)`, in insertion order.
    pub closed spec fn edge_list(&self) -> Seq<(EdgeId, NodeId, NodeId)> {
        self.edges@.map_values(|s: EdgeSlot<E>| (s.id, s.src, s.dst))
    }

    /// Edge ids, in insertion order.
    pub closed spec fn edge_ids(&self) -> Seq<EdgeId> {
        self.edges@.map_values(|s: EdgeSlot<E>| s.id)
    }

    /// Edge payloads, in insertion order.
    pub closed spec fn edge_payloads(&self) -> Seq<E> {
        self.edges@.map_values(|s: EdgeSlot<E>| s.payload)
    }

    /// Store invariant: unique ids, edges between stored nodes, adjacency
    /// lists that list exactly the edges leaving / entering each node.
    pub closed spec fn wf(&self) -> bool {
        &&& self.node_ids().no_duplicates()
        &&& self.edge_ids().no_duplicates()
        &&& self.outgoing@.len() == self.nodes@.len()
        &&& self.incoming@.len() == self.nodes@.len()
        &&& forall|i: int|
            0 <= i < self.nodes@.len() ==> #[trigger] self.outgoing@[i].0 == self.nodes@[i].0
                && self.incoming@[i].0 == self.nodes@[i].0
        &&& forall|i: int|
            0 <= i < self.nodes@.len() ==> #[trigger] self.outgoing@[i].1@ == edges_from(
                self.edge_list(),
                self.nodes@[i].0,
            ) && self.incoming@[i].1@ == edges_to(self.edge_list(), self.nodes@[i].0)
        &&& forall|j: int|
            0 <= j < self.edges@.len() ==> self.node_ids().contains(#[trigger] self.edges@[j].src)
                && self.node_ids().contains(self.edges@[j].dst)
        &&& forall|i: int|
            0 <= i < self.nodes@.len() ==> (#[trigger] self.nodes@[i]).1.spec_id() == self.nodes@[i].0
        &&& forall|j: int|
            0 <= j < self.edges@.len() ==> {
                let slot = #[trigger] self.edges@[j];
                &&& slot.payload.spec_id() == slot.id
                &&& slot.payload.spec_src() == slot.src
                &&& slot.payload.spec_dst() == slot.dst
            }
    }

    /// Empty graph.
    pub fn new() -> (g: Graph<N, E>)
        ensures
            g.wf(),
            g.node_ids() == Seq::<NodeId>::empty(),
            g.edge_list() == Seq::<(EdgeId, NodeId, NodeId)>::empty(),
            g.edge_ids() == Seq::<EdgeId>::empty(),
            g.edge_payloads() == Seq::<E>::empty(),
    {
        let g = Graph { nodes: Vec::new(), edges: Vec::new(), outgoing: Vec::new(), incoming: Vec::new() };
        proof {
            assert(g.node_ids() =~= Seq::<NodeId>::empty());
            assert(g.edge_ids() =~= Seq::<EdgeId>::empty());
            assert(g.edge_list() =~= Seq::<(EdgeId, NodeId, NodeId)>::empty());
        }
        g
    }

    /// Number of nodes.
    pub fn node_count(&self) -> (n: usize)
        ensures
            n == self.node_ids().len(),
    {
        self.nodes.len()
    }

    /// Number of edges.
    pub fn edge_count(&self) -> (n: usize)
        ensures
            n == self.edge_list().len(),
            n == self.edge_ids().len(),
    {
        self.edges.len()
    }

    /// Node and edge counts.
    pub fn stats(&self) -> (s: GraphStats)
        ensures
            s.node_count == self.node_ids().len(),
            s.edge_count == self.edge_list().len(),
            s.edge_count == self.edge_ids().len(),
    {
        GraphStats { node_count: self.node_count(), edge_count: self.edge_count() }
    }

    /// Whether the graph has neither nodes nor edges.
    pub fn is_empty(&self) -> (b: bool)
        ensures
            b == (self.node_ids().len() == 0 && self.edge_list().len() == 0),
    {
        self.nodes.len() == 0 && self.edges.len() == 0
    }

    /// Index of node `id` in insertion order.
    fn find_node_index(&self, id: NodeId) -> (r: Option<usize>)
        ensures
            r matches Some(i) ==> i == pos_of(self.node_ids(), id) && i < self.node_ids().len(),
            r is None ==> pos_of(self.node_ids(), id) == -1,
            (r is Some) == self.node_ids().contains(id),
    {
        proof {
            lemma_pos_of(self.node_ids(), id);
        }
        let mut i: usize = 0;
        while i < self.nodes.len()
            invariant
                i <= self.nodes@.len(),
                forall|j: int| 0 <= j < i ==> self.node_ids()[j] != id,
            decreases self.nodes@.len() - i,
        {
            if self.nodes[i].0 == id {
                proof {
                    lemma_pos_of(self.node_ids(), id);
                    assert(self.node_ids()[i as int] == id);
                    if pos_of(self.node_ids(), id) != i {
                        assert(pos_of(self.node_ids(), id) < i);
                    }
                }
                return Some(i);
            }
            i = i + 1;
        }
        proof {
            if self.node_ids().contains(id) {
                let k = choose|k: int| 0 <= k < self.node_ids().len() && self.node_ids()[k] == id;
                assert(false);
            }
        }
        None
    }

    /// Index of edge `id` in insertion order.
    fn find_edge_index(&self, id: EdgeId) -> (r: Option<usize>)
        ensures
            r matches Some(i) ==> i == pos_of(self.edge_ids(), id) && i < self.edge_ids().len(),
            r is None ==> pos_of(self.edge_ids(), id) == -1,
            (r is Some) == self.edge_ids().contains(id),
    {
        proof {
            lemma_pos_of(self.edge_ids(), id);
        }
        let mut i: usize = 0;
        while i < self.edges.len()
            invariant
                i <= self.edges@.len(),
                forall|j: int| 0 <= j < i ==> self.edge_ids()[j] != id,
            decreases self.edges@.len() - i,
        {
            if self.edges[i].id == id {
                proof {
                    lemma_pos_of(self.edge_ids(), id);
                    assert(self.edge_ids()[i as int] == id);
                    if pos_of(self.edge_ids(), id) != i {
                        assert(pos_of(self.edge_ids(), id) < i);
                    }
                }
                return Some(i);
            }
            i = i + 1;
        }
        proof {
            if self.edge_ids().contains(id) {
                let k = choose|k: int| 0 <= k < self.edge_ids().len() && self.edge_ids()[k] == id;
                assert(false);
            }
        }
        None
    }

    /// Whether a node with id `id` exists.
    pub fn contains_node(&self, id: NodeId) -> (b: bool)
        ensures
            b == self.node_ids().contains(id),
    {
        self.find_node_index(id).is_some()
    }

    /// Whether an edge with id `id` exists.
    pub fn contains_edge(&self, id: EdgeId) -> (b: bool)
        ensures
            b == self.edge_ids().contains(id),
    {
        self.find_edge_index(id).is_some()
    }

    /// Adds `node` under the id it reports; a taken id is refused with
    /// `DuplicateNode` and the graph is unchanged.
    pub fn add_node(&mut self, node: N) -> (r: GraphResult<NodeId>)
        requires
            old(self).wf(),
        ensures
            final(self).wf(),
            old(self).node_ids().contains(node.spec_id()) ==> r == Err::<NodeId, GraphError>(
                GraphError::DuplicateNode(node.spec_id()),
            ) && *final(self) == *old(self),
            !old(self).node_ids().contains(node.spec_id()) ==> {
                &&& r == Ok::<NodeId, GraphError>(node.spec_id())
                &&& final(self).node_ids() == old(self).node_ids().push(node.spec_id())
                &&& final(self).node_payloads() == old(self).node_payloads().push(node)
                &&& final(self).edge_list() == old(self).edge_list()
                &&& final(self).edge_ids() == old(self).edge_ids()
                &&& final(self).edge_payloads() == old(self).edge_payloads()
            },
    {
        let id = node.id();
        self.add_node_with_id(id, node)
    }

    /// Adds `node` under `id` (the id the node reports); a taken id is
    /// refused with `DuplicateNode(id)` and the graph is unchanged.
    fn add_node_with_id(&mut self, id: NodeId, node: N) -> (r: GraphResult<NodeId>)
        requires
            old(self).wf(),
            id == node.spec_id(),
        ensures
            final(self).wf(),
            old(self).node_ids().contains(id) ==> r == Err::<NodeId, GraphError>(
                GraphError::DuplicateNode(id),
            ) && *final(self) == *old(self),
            !old(self).node_ids().contains(id) ==> {
                &&& r == Ok::<NodeId, GraphError>(id)
                &&& final(self).node_ids() == old(self).node_ids().push(id)
                &&& final(self).node_payloads() == old(self).node_payloads().push(node)
                &&& final(self).edge_list() == old(self).edge_list()
                &&& final(self).edge_ids() == old(self).edge_ids()
                &&& final(self).edge_payloads() == old(self).edge_payloads()
            },
    {
        if self.find_node_index(id).is_some() {
            return Err(GraphError::DuplicateNode(id));
        }
        let ghost old_ids = self.node_ids();
        self.nodes.push((id, node));
        self.outgoing.push((id, Vec::new()));
        self.incoming.push((id, Vec::new()));
        proof {
            assert(self.node_ids() =~= old_ids.push(id));
            assert(self.node_payloads() =~= old(self).node_payloads().push(node));
            assert(self.edge_list() == old(self).edge_list());
            assert forall|a: int, b: int|
                0 <= a < b < self.node_ids().len() implies self.node_ids()[a] != self.node_ids()[b] by {
                if b == old_ids.len() {
                    assert(old_ids[a] == self.node_ids()[a]);
                }
            }
            assert forall|j: int| 0 <= j < self.edge_list().len() implies (#[trigger] self.edge_list()[j]).1 != id
                && self.edge_list()[j].2 != id by {
                assert(self.edge_list()[j].1 == self.edges@[j].src);
                assert(old(self).node_ids().contains(self.edges@[j].src));
                assert(old(self).node_ids().contains(self.edges@[j].dst));
            }
            lemma_edges_none(self.edge_list(), id);
            assert forall|i: int|
                0 <= i < self.nodes@.len() implies #[trigger] self.outgoing@[i].1@ == edges_from(
                self.edge_list(),
                self.nodes@[i].0,
            ) && self.incoming@[i].1@ == edges_to(self.edge_list(), self.nodes@[i].0) by {
                if i < old_ids.len() {
                    assert(self.outgoing@[i] == old(self).outgoing@[i]);
                    assert(self.incoming@[i] == old(self).incoming@[i]);
                    assert(self.nodes@[i] == old(self).nodes@[i]);
                }
            }
            assert forall|j: int|
                0 <= j < self.edges@.len() implies self.node_ids().contains(#[trigger] self.edges@[j].src)
                && self.node_ids().contains(self.edges@[j].dst) by {
                let a = choose|a: int| 0 <= a < old_ids.len() && old_ids[a] == self.edges@[j].src;
                let b = choose|b: int| 0 <= b < old_ids.len() && old_ids[b] == self.edges@[j].dst;
                assert(self.node_ids()[a] == old_ids[a]);
                assert(self.node_ids()[b] == old_ids[b]);
            }
        }
        Ok(id)
    }

    /// Ids keying the outgoing lists.
    closed spec fn out_keys(&self) -> Seq<NodeId> {
        self.outgoing@.map_values(|p: (NodeId, Vec<EdgeId>)| p.0)
    }

    /// Ids keying the incoming lists.
    closed spec fn in_keys(&self) -> Seq<NodeId> {
        self.incoming@.map_values(|p: (NodeId, Vec<EdgeId>)| p.0)
    }

    /// Under the invariant both adjacency tables are keyed like the nodes.
    proof fn lemma_keys(&self)
        requires
            self.wf(),
        ensures
            self.out_keys() == self.node_ids(),
            self.in_keys() == self.node_ids(),
    {
        assert(self.out_keys() =~= self.node_ids());
        assert(self.in_keys() =~= self.node_ids());
    }

    /// Index of the outgoing list of node `id`.
    fn find_outgoing_index(&self, id: NodeId) -> (r: Option<usize>)
        ensures
            r matches Some(i) ==> i == pos_of(self.out_keys(), id) && i < self.outgoing@.len(),
            r is None ==> pos_of(self.out_keys(), id) == -1,
    {
        proof {
            lemma_pos_of(self.out_keys(), id);
        }
        let mut i: usize = 0;
        while i < self.outgoing.len()
            invariant
                i <= self.outgoing@.len(),
                forall|j: int| 0 <= j < i ==> self.out_keys()[j] != id,
            decreases self.outgoing@.len() - i,
        {
            if self.outgoing[i].0 == id {
                proof {
                    lemma_pos_of(self.out_keys(), id);
                    assert(self.out_keys()[i as int] == id);
                    if pos_of(self.out_keys(), id) != i {
                        assert(pos_of(self.out_keys(), id) < i);
                    }
                }
                return Some(i);
            }
            i = i + 1;
        }
        proof {
            if pos_of(self.out_keys(), id) >= 0 {
                assert(self.out_keys()[pos_of(self.out_keys(), id)] == id);
            }
        }
        None
    }

    /// Index of the incoming list of node `id`.
    fn find_incoming_index(&self, id: NodeId) -> (r: Option<usize>)
        ensures
            r matches Some(i) ==> i == pos_of(self.in_keys(), id) && i < self.incoming@.len(),
            r is None ==> pos_of(self.in_keys(), id) == -1,
    {
        proof {
            lemma_pos_of(self.in_keys(), id);
        }
        let mut i: usize = 0;
        while i < self.incoming.len()
            invariant
                i <= self.incoming@.len(),
                forall|j: int| 0 <= j < i ==> self.in_keys()[j] != id,
            decreases self.incoming@.len() - i,
        {
            if self.incoming[i].0 == id {
                proof {
                    lemma_pos_of(self.in_keys(), id);
                    assert(self.in_keys()[i as int] == id);
                    if pos_of(self.in_keys(), id) != i {
                        assert(pos_of(self.in_keys(), id) < i);
                    }
                }
                return Some(i);
            }
            i = i + 1;
        }
        proof {
            if pos_of(self.in_keys(), id) >= 0 {
                assert(self.in_keys()[pos_of(self.in_keys(), id)] == id);
            }
        }
        None
    }

    /// Refuses an edge end `id` that names no node.
    fn ensure_node(&self, id: NodeId, which: &'static str) -> (r: GraphResult<()>)
        ensures
            self.node_ids().contains(id) ==> r is Ok,
            !self.node_ids().contains(id) ==> r == Err::<(), GraphError>(
                GraphError::UnknownEndpoint(id, which),
            ),
    {
        if self.find_node_index(id).is_none() {
            return Err(GraphError::UnknownEndpoint(id, which));
        }
        Ok(())
    }

    /// The outgoing list of node `id`, for appending.
    fn outgoing_mut(&mut self, id: NodeId) -> (r: GraphResult<&mut Vec<EdgeId>>)
        ensures
            match r {
                Ok(v) => {
                    let i = pos_of(old(self).out_keys(), id);
                    &&& 0 <= i < old(self).outgoing@.len()
                    &&& *v == old(self).outgoing@[i].1
                    &&& final(self).outgoing@ == old(self).outgoing@.update(i, (id, *final(v)))
                    &&& final(self).nodes == old(self).nodes
                    &&& final(self).edges == old(self).edges
                    &&& final(self).incoming == old(self).incoming
                },
                Err(e) => e == GraphError::UnknownNode(id) && pos_of(old(self).out_keys(), id) == -1
                    && *final(self) == *old(self),
            },
    {
        match self.find_outgoing_index(id) {
            None => Err(GraphError::UnknownNode(id)),
            Some(idx) => {
                proof {
                    lemma_pos_of(self.out_keys(), id);
                    assert(self.out_keys()[idx as int] == id);
                }
                Ok(&mut self.outgoing[idx].1)
            },
        }
    }

    /// The incoming list of node `id`, for appending.
    fn incoming_mut(&mut self, id: NodeId) -> (r: GraphResult<&mut Vec<EdgeId>>)
        ensures
            match r {
                Ok(v) => {
                    let i = pos_of(old(self).in_keys(), id);
                    &&& 0 <= i < old(self).incoming@.len()
                    &&& *v == old(self).incoming@[i].1
                    &&& final(self).incoming@ == old(self).incoming@.update(i, (id, *final(v)))
                    &&& final(self).nodes == old(self).nodes
                    &&& final(self).edges == old(self).edges
                    &&& final(self).outgoing == old(self).outgoing
                },
                Err(e) => e == GraphError::UnknownNode(id) && pos_of(old(self).in_keys(), id) == -1
                    && *final(self) == *old(self),
            },
    {
        match self.find_incoming_index(id) {
            None => Err(GraphError::UnknownNode(id)),
            Some(idx) => {
                proof {
                    lemma_pos_of(self.in_keys(), id);
                    assert(self.in_keys()[idx as int] == id);
                }
                Ok(&mut self.incoming[idx].1)
            },
        }
    }

    /// Adds `edge` under the id and ends it reports. A taken id is refused with
    /// `DuplicateEdge`, an end that names no node with `UnknownEndpoint`
    /// (source checked first); on refusal the graph is unchanged.
    pub fn add_edge(&mut self, edge: E) -> (r: GraphResult<EdgeId>)
        requires
            old(self).wf(),
        ensures
            final(self).wf(),
            old(self).edge_ids().contains(edge.spec_id()) ==> r == Err::<EdgeId, GraphError>(
                GraphError::DuplicateEdge(edge.spec_id()),
            ) && *final(self) == *old(self),
            !old(self).edge_ids().contains(edge.spec_id()) && !old(self).node_ids().contains(
                edge.spec_src(),
            ) ==> r == Err::<EdgeId, GraphError>(GraphError::UnknownEndpoint(edge.spec_src(), "src"))
                && *final(self) == *old(self),
            !old(self).edge_ids().contains(edge.spec_id()) && old(self).node_ids().contains(
                edge.spec_src(),
            ) && !old(self).node_ids().contains(edge.spec_dst()) ==> r == Err::<EdgeId, GraphError>(
                GraphError::UnknownEndpoint(edge.spec_dst(), "dst"),
            ) && *final(self) == *old(self),
            !old(self).edge_ids().contains(edge.spec_id()) && old(self).node_ids().contains(
                edge.spec_src(),
            ) && old(self).node_ids().contains(edge.spec_dst()) ==> {
                &&& r == Ok::<EdgeId, GraphError>(edge.spec_id())
                &&& final(self).edge_list() == old(self).edge_list().push(
                    (edge.spec_id(), edge.spec_src(), edge.spec_dst()),
                )
                &&& final(self).edge_ids() == old(self).edge_ids().push(edge.spec_id())
                &&& final(self).edge_payloads() == old(self).edge_payloads().push(edge)
                &&& final(self).node_ids() == old(self).node_ids()
                &&& final(self).node_payloads() == old(self).node_payloads()
            },
    {
        let id = edge.id();
        let src = edge.src();
        let dst = edge.dst();
        self.add_edge_with_ends(id, src, dst, edge)
    }

    /// Adds `edge` under `id` from `src` to `dst` (what the edge reports). A
    /// taken id is refused with `DuplicateEdge(id)`, then a source that names
    /// no node with `UnknownEndpoint(src, "src")`, then such a target with
    /// `UnknownEndpoint(dst, "dst")`; on refusal the graph is unchanged.
    fn add_edge_with_ends(&mut self, id: EdgeId, src: NodeId, dst: NodeId, edge: E) -> (r: GraphResult<EdgeId>)
        requires
            old(self).wf(),
            id == edge.spec_id(),
            src == edge.spec_src(),
            dst == edge.spec_dst(),
        ensures
            final(self).wf(),
            old(self).edge_ids().contains(id) ==> r == Err::<EdgeId, GraphError>(
                GraphError::DuplicateEdge(id),
            ) && *final(self) == *old(self),
            !old(self).edge_ids().contains(id) && !old(self).node_ids().contains(src) ==> r == Err::<
                EdgeId,
                GraphError,
            >(GraphError::UnknownEndpoint(src, "src")) && *final(self) == *old(self),
            !old(self).edge_ids().contains(id) && old(self).node_ids().contains(src)
                && !old(self).node_ids().contains(dst) ==> r == Err::<EdgeId, GraphError>(
                GraphError::UnknownEndpoint(dst, "dst"),
            ) && *final(self) == *old(self),
            !old(self).edge_ids().contains(id) && old(self).node_ids().contains(src)
                && old(self).node_ids().contains(dst) ==> {
                &&& r == Ok::<EdgeId, GraphError>(id)
                &&& final(self).edge_list() == old(self).edge_list().push((id, src, dst))
                &&& final(self).edge_ids() == old(self).edge_ids().push(id)
                &&& final(self).edge_payloads() == old(self).edge_payloads().push(edge)
                &&& final(self).node_ids() == old(self).node_ids()
                &&& final(self).node_payloads() == old(self).node_payloads()
            },
    {
        if self.find_edge_index(id).is_some() {
            return Err(GraphError::DuplicateEdge(id));
        }
        self.ensure_node(src, "src")?;
        self.ensure_node(dst, "dst")?;
        proof {
            self.lemma_keys();
            lemma_pos_of(self.node_ids(), src);
            lemma_pos_of(self.node_ids(), dst);
        }
        let ghost g0 = *self;
        self.outgoing_mut(src)?.push(id);
        let ghost g1 = *self;
        proof {
            assert(g1.in_keys() == g0.in_keys());
        }
        self.incoming_mut(dst)?.push(id);
        let ghost g2 = *self;
        self.edges.push(EdgeSlot { id, src, dst, payload: edge });
        proof {
            let es0 = g0.edge_list();
            let e = (id, src, dst);
            let si = pos_of(g0.node_ids(), src);
            let di = pos_of(g0.node_ids(), dst);
            assert(self.edge_list() =~= es0.push(e));
            assert(self.edge_ids() =~= g0.edge_ids().push(id));
            assert(self.edge_payloads() =~= g0.edge_payloads().push(edge));
            assert(self.node_ids() == g0.node_ids());
            assert(self.node_payloads() == g0.node_payloads());
            assert forall|a: int, b: int|
                0 <= a < b < self.edge_ids().len() implies self.edge_ids()[a] != self.edge_ids()[b] by {
                if b == es0.len() {
                    assert(g0.edge_ids()[a] == self.edge_ids()[a]);
                }
            }
            assert forall|i: int|
                0 <= i < self.nodes@.len() implies #[trigger] self.outgoing@[i].0 == self.nodes@[i].0
                && self.incoming@[i].0 == self.nodes@[i].0 by {
                assert(g0.outgoing@[i].0 == g0.nodes@[i].0);
                assert(g0.incoming@[i].0 == g0.nodes@[i].0);
            }
            assert forall|i: int|
                0 <= i < self.nodes@.len() implies #[trigger] self.outgoing@[i].1@ == edges_from(
                self.edge_list(),
                self.nodes@[i].0,
            ) && self.incoming@[i].1@ == edges_to(self.edge_list(), self.nodes@[i].0) by {
                let n = self.nodes@[i].0;
                lemma_edges_push(es0, e, n);
                assert(g0.outgoing@[i].1@ == edges_from(es0, n));
                assert(g0.incoming@[i].1@ == edges_to(es0, n));
                assert(g0.node_ids()[i] == n);
                if i == si {
                    assert(n == src);
                } else {
                    assert(g0.node_ids()[si] == src);
                    assert(n != src);
                }
                if i == di {
                    assert(n == dst);
                } else {
                    assert(g0.node_ids()[di] == dst);
                    assert(n != dst);
                }
            }
            assert forall|j: int|
                0 <= j < self.edges@.len() implies self.node_ids().contains(#[trigger] self.edges@[j].src)
                && self.node_ids().contains(self.edges@[j].dst) by {
                if j < es0.len() {
                    assert(self.edges@[j] == g0.edges@[j]);
                }
            }
            assert(old(self).node_ids().contains(src) && old(self).node_ids().contains(dst)
                && self.edge_list() == old(self).edge_list().push((id, src, dst)));
        }
        Ok(id)
    }

    /// Payload of node `id`.
    pub fn node_payload(&self, id: NodeId) -> (r: GraphResult<&N>)
        ensures
            match r {
                Ok(n) => self.node_ids().contains(id) && *n == self.node_payloads()[pos_of(
                    self.node_ids(),
                    id,
                )],
                Err(e) => e == GraphError::UnknownNode(id) && !self.node_ids().contains(id),
            },
    {
        match self.find_node_index(id) {
            None => Err(GraphError::UnknownNode(id)),
            Some(idx) => Ok(&self.nodes[idx].1),
        }
    }

    /// Payload of edge `id`.
    pub fn edge_payload(&self, id: EdgeId) -> (r: GraphResult<&E>)
        ensures
            match r {
                Ok(e) => self.edge_ids().contains(id) && *e == self.edge_payloads()[pos_of(
                    self.edge_ids(),
                    id,
                )],
                Err(e) => e == GraphError::UnknownEdge(id) && !self.edge_ids().contains(id),
            },
    {
        match self.find_edge_index(id) {
            None => Err(GraphError::UnknownEdge(id)),
            Some(idx) => Ok(&self.edges[idx].payload),
        }
    }

    /// All nodes as `(id, &payload)`, in insertion order.
    pub fn nodes(&self) -> (r: Vec<(NodeId, &N)>)
        ensures
            r@.len() == self.node_ids().len(),
            forall|i: int|
                0 <= i < r@.len() ==> (#[trigger] r@[i]).0 == self.node_ids()[i] && *r@[i].1
                    == self.node_payloads()[i],
    {
        let mut r: Vec<(NodeId, &N)> = Vec::new();
        let mut i: usize = 0;
        while i < self.nodes.len()
            invariant
                i <= self.nodes@.len(),
                r@.len() == i,
                forall|k: int|
                    0 <= k < i ==> (#[trigger] r@[k]).0 == self.node_ids()[k] && *r@[k].1
                        == self.node_payloads()[k],
            decreases self.nodes@.len() - i,
        {
            let pair = &self.nodes[i];
            r.push((pair.0, &pair.1));
            i = i + 1;
        }
        r
    }

    /// All edges as `(id, &payload)`, in insertion order.
    pub fn edges(&self) -> (r: Vec<(EdgeId, &E)>)
        ensures
            r@.len() == self.edge_ids().len(),
            forall|i: int|
                0 <= i < r@.len() ==> (#[trigger] r@[i]).0 == self.edge_ids()[i] && *r@[i].1
                    == self.edge_payloads()[i],
    {
        let mut r: Vec<(EdgeId, &E)> = Vec::new();
        let mut i: usize = 0;
        while i < self.edges.len()
            invariant
                i <= self.edges@.len(),
                r@.len() == i,
                forall|k: int|
                    0 <= k < i ==> (#[trigger] r@[k]).0 == self.edge_ids()[k] && *r@[k].1
                        == self.edge_payloads()[k],
            decreases self.edges@.len() - i,
        {
            let slot = &self.edges[i];
            r.push((slot.id, &slot.payload));
            i = i + 1;
        }
        r
    }

    /// Ids of the edges leaving node `src`, in insertion order.
    pub fn outgoing_edges(&self, src: NodeId) -> (r: GraphResult<&[EdgeId]>)
        requires
            self.wf(),
        ensures
            match r {
                Ok(l) => self.node_ids().contains(src) && l@ == edges_from(self.edge_list(), src),
                Err(e) => e == GraphError::UnknownNode(src) && !self.node_ids().contains(src),
            },
    {
        proof {
            self.lemma_keys();
            lemma_pos_of(self.node_ids(), src);
        }
        match self.find_outgoing_index(src) {
            None => Err(GraphError::UnknownNode(src)),
            Some(idx) => {
                proof {
                    assert(self.outgoing@[idx as int].0 == self.nodes@[idx as int].0);
                    assert(self.node_ids()[idx as int] == src);
                }
                Ok(self.outgoing[idx].1.as_slice())
            },
        }
    }

    /// Ids of the edges entering node `dst`, in insertion order.
    pub fn incoming_edges(&self, dst: NodeId) -> (r: GraphResult<&[EdgeId]>)
        requires
            self.wf(),
        ensures
            match r {
                Ok(l) => self.node_ids().contains(dst) && l@ == edges_to(self.edge_list(), dst),
                Err(e) => e == GraphError::UnknownNode(dst) && !self.node_ids().contains(dst),
            },
    {
        proof {
            self.lemma_keys();
            lemma_pos_of(self.node_ids(), dst);
        }
        match self.find_incoming_index(dst) {
            None => Err(GraphError::UnknownNode(dst)),
            Some(idx) => {
                proof {
                    assert(self.outgoing@[idx as int].0 == self.nodes@[idx as int].0);
                    assert(self.outgoing@[idx as int].1@ == edges_from(self.edge_list(), self.nodes@[idx as int].0));
                    assert(self.node_ids()[idx as int] == dst);
                }
                Ok(self.incoming[idx].1.as_slice())
            },
        }
    }

    /// Index of node `id` in insertion order (used by the traversals).
    pub(crate) fn node_index(&self, id: NodeId) -> (r: Option<usize>)
        ensures
            r matches Some(i) ==> i == pos_of(self.node_ids(), id) && i < self.node_ids().len(),
            (r is Some) == self.node_ids().contains(id),
    {
        self.find_node_index(id)
    }

    /// Target of the edge with id `e`.
    pub closed spec fn edge_dst(&self, e: EdgeId) -> NodeId {
        self.edge_list()[pos_of(self.edge_ids(), e)].2
    }

    /// Targets of the edges leaving `src`, without repeats, in order of first
    /// appearance (a self loop makes `src` its own neighbour).
    pub open spec fn spec_neighbors(&self, src: NodeId) -> Seq<NodeId> {
        dedup(edges_from(self.edge_list(), src).map_values(|e: EdgeId| self.edge_dst(e)))
    }

    /// Every edge listed as leaving some node is a stored edge, and its
    /// target is a stored node.
    pub proof fn lemma_out_edges_stored(&self, src: NodeId)
        requires
            self.wf(),
        ensures
            forall|k: int|
                0 <= k < edges_from(self.edge_list(), src).len() ==> {
                    let e = #[trigger] edges_from(self.edge_list(), src)[k];
                    &&& self.edge_ids().contains(e)
                    &&& self.node_ids().contains(self.edge_dst(e))
                },
    {
        lemma_edges_from_members(self.edge_list(), src);
        assert forall|k: int|
            0 <= k < edges_from(self.edge_list(), src).len() implies {
                let e = #[trigger] edges_from(self.edge_list(), src)[k];
                &&& self.edge_ids().contains(e)
                &&& self.node_ids().contains(self.edge_dst(e))
            } by {
            let e = edges_from(self.edge_list(), src)[k];
            let j = choose|j: int|
                0 <= j < self.edge_list().len() && self.edge_list()[j].0 == e && self.edge_list()[j].1
                    == src;
            assert(self.edge_ids()[j] == e);
            lemma_pos_of_unique(self.edge_ids(), j);
            assert(self.edges@[j].dst == self.edge_list()[j].2);
        }
    }

    /// Targets of the edges leaving `src`, without repeats, in order of first
    /// appearance.
    pub fn neighbors(&self, src: NodeId) -> (r: GraphResult<Vec<NodeId>>)
        requires
            self.wf(),
        ensures
            match r {
                Ok(v) => self.node_ids().contains(src) && v@ == self.spec_neighbors(src),
                Err(e) => e == GraphError::UnknownNode(src) && !self.node_ids().contains(src),
            },
    {
        let out = self.outgoing_edges(src)?;
        let ghost dsts = edges_from(self.edge_list(), src).map_values(|e: EdgeId| self.edge_dst(e));
        proof {
            self.lemma_out_edges_stored(src);
        }
        let mut seen = vec![false; self.nodes.len()];
        let mut result: Vec<NodeId> = Vec::new();
        let mut k: usize = 0;
        while k < out.len()
            invariant
                self.wf(),
                out@ == edges_from(self.edge_list(), src),
                dsts == out@.map_values(|e: EdgeId| self.edge_dst(e)),
                k <= out@.len(),
                seen@.len() == self.node_ids().len(),
                result@ == dedup(dsts.take(k as int)),
                forall|j: int|
                    0 <= j < self.node_ids().len() ==> #[trigger] seen@[j] == result@.contains(
                        self.node_ids()[j],
                    ),
                forall|k2: int|
                    0 <= k2 < out@.len() ==> {
                        let e = #[trigger] out@[k2];
                        &&& self.edge_ids().contains(e)
                        &&& self.node_ids().contains(self.edge_dst(e))
                    },
            decreases out@.len() - k,
        {
            let eid = out[k];
            proof {
                assert(out@[k as int] == eid);
                lemma_pos_of(self.edge_ids(), eid);
                assert(dsts.take(k + 1).drop_last() == dsts.take(k as int));
                assert(dsts.take(k + 1).last() == dsts[k as int]);
            }
            let ei = match self.find_edge_index(eid) {
                Some(ei) => ei,
                None => {
                    return Err(GraphError::UnknownEdge(eid));
                },
            };
            let dst = self.edges[ei].dst;
            proof {
                assert(dst == self.edge_dst(eid));
                assert(dsts[k as int] == dst);
            }
            if let Some(idx) = self.find_node_index(dst) {
                proof {
                    lemma_pos_of(self.node_ids(), dst);
                }
                if !seen[idx] {
                    seen.set(idx, true);
                    result.push(dst);
                    proof {
                        assert forall|j: int| 0 <= j < self.node_ids().len() implies #[trigger] seen@[j]
                            == result@.contains(self.node_ids()[j]) by {
                            if j == idx {
                                assert(result@[result@.len() - 1] == dst);
                            } else {
                                assert(self.node_ids()[j] != dst) by {
                                    lemma_pos_of_unique(self.node_ids(), j);
                                }
                                if result@.contains(self.node_ids()[j]) {
                                    let m = choose|m: int| 0 <= m < result@.len() && result@[m] == self.node_ids()[j];
                                    assert(m < result@.len() - 1);
                                    assert(dedup(dsts.take(k as int)).contains(self.node_ids()[j]));
                                }
                                if dedup(dsts.take(k as int)).contains(self.node_ids()[j]) {
                                    let m = choose|m: int| 0 <= m < dedup(dsts.take(k as int)).len() && dedup(dsts.take(k as int))[m] == self.node_ids()[j];
                                    assert(result@[m] == self.node_ids()[j]);
                                }
                            }
                        }
                    }
                } else {
                    proof {
                        assert(seen@[idx as int] == result@.contains(self.node_ids()[idx as int]));
                    }
                }
            }
            k = k + 1;
        }
        proof {
            assert(dsts.take(k as int) == dsts);
        }
        Ok(result)
    }

    /// The store's invariant: node ids and edge ids do not repeat, every
    /// edge joins two stored nodes, every edge is listed both among the
    /// edges leaving its source and among the edges entering its target, and
    /// every stored payload reports the id (and, for an edge, the ends) it is
    /// stored under.
    pub proof fn law_well_formed(&self)
        requires
            self.wf(),
        ensures
            self.node_ids().no_duplicates(),
            self.edge_ids().no_duplicates(),
            forall|j: int|
                0 <= j < self.edge_list().len() ==> {
                    let e = #[trigger] self.edge_list()[j];
                    &&& self.node_ids().contains(e.1)
                    &&& self.node_ids().contains(e.2)
                    &&& edges_from(self.edge_list(), e.1).contains(e.0)
                    &&& edges_to(self.edge_list(), e.2).contains(e.0)
                },
            forall|i: int|
                0 <= i < self.node_ids().len() ==> (#[trigger] self.node_payloads()[i]).spec_id()
                    == self.node_ids()[i],
            forall|j: int|
                0 <= j < self.edge_list().len() ==> {
                    let p = #[trigger] self.edge_payloads()[j];
                    (p.spec_id(), p.spec_src(), p.spec_dst()) == self.edge_list()[j]
                },
    {
        assert forall|i: int| 0 <= i < self.node_ids().len() implies (
        #[trigger] self.node_payloads()[i]).spec_id() == self.node_ids()[i] by {
            assert(self.nodes@[i].1 == self.node_payloads()[i]);
        }
        assert forall|j: int| 0 <= j < self.edge_list().len() implies {
            let p = #[trigger] self.edge_payloads()[j];
            (p.spec_id(), p.spec_src(), p.spec_dst()) == self.edge_list()[j]
        } by {
            assert(self.edges@[j].payload == self.edge_payloads()[j]);
        }
        assert forall|j: int| 0 <= j < self.edge_list().len() implies {
            let e = #[trigger] self.edge_list()[j];
            &&& self.node_ids().contains(e.1)
            &&& self.node_ids().contains(e.2)
            &&& edges_from(self.edge_list(), e.1).contains(e.0)
            &&& edges_to(self.edge_list(), e.2).contains(e.0)
        } by {
            assert(self.edge_list()[j].1 == self.edges@[j].src);
            lemma_edge_listed(self.edge_list(), j);
        }
    }

    /// A node added by `add_node` is found again with its payload.
    pub proof fn law_payload_after_add_node(before: Self, after: Self, node: N, id: NodeId)
        requires
            !before.node_ids().contains(id),
            after.node_ids() == before.node_ids().push(id),
            after.node_payloads() == before.node_payloads().push(node),
        ensures
            after.node_ids().contains(id),
            after.node_payloads()[pos_of(after.node_ids(), id)] == node,
    {
        let ids = before.node_ids();
        assert(before.node_payloads().len() == ids.len());
        assert(after.node_ids()[ids.len() as int] == id);
        lemma_pos_of(after.node_ids(), id);
        lemma_pos_of(ids, id);
        let p = pos_of(after.node_ids(), id);
        if p < ids.len() {
            assert(ids[p] == after.node_ids()[p]);
        }
    }

    /// An edge added by `add_edge` is found again with its payload.
    pub proof fn law_payload_after_add_edge(before: Self, after: Self, edge: E, id: EdgeId)
        requires
            !before.edge_ids().contains(id),
            after.edge_ids() == before.edge_ids().push(id),
            after.edge_payloads() == before.edge_payloads().push(edge),
        ensures
            after.edge_ids().contains(id),
            after.edge_payloads()[pos_of(after.edge_ids(), id)] == edge,
    {
        let ids = before.edge_ids();
        assert(before.edge_payloads().len() == ids.len());
        assert(after.edge_ids()[ids.len() as int] == id);
        lemma_pos_of(after.edge_ids(), id);
        lemma_pos_of(ids, id);
        let p = pos_of(after.edge_ids(), id);
        if p < ids.len() {
            assert(ids[p] == after.edge_ids()[p]);
        }
    }

    /// In a well-formed graph node ids and edge ids do not repeat.
    pub proof fn lemma_unique_ids(&self)
        requires
            self.wf(),
        ensures
            self.node_ids().no_duplicates(),
            self.edge_ids().no_duplicates(),
    {
    }

    /// The edge ids are the first components of the edge list, and there is
    /// one payload per edge: what `contains_edge`, `edge_payload` and `edges`
    /// read is what `add_edge` records.
    pub proof fn law_edge_views(&self)
        requires
            self.wf(),
        ensures
            self.edge_ids() == self.edge_list().map_values(|t: (EdgeId, NodeId, NodeId)| t.0),
            self.edge_payloads().len() == self.edge_list().len(),
    {
        assert(self.edge_ids() =~= self.edge_list().map_values(|t: (EdgeId, NodeId, NodeId)| t.0));
    }

    /// The target of the `j`-th edge, found by its id, is its recorded target.
    pub proof fn lemma_edge_dst_at(&self, j: int)
        requires
            self.wf(),
            0 <= j < self.edge_list().len(),
        ensures
            self.edge_dst(self.edge_list()[j].0) == self.edge_list()[j].2,
    {
        assert(self.edge_ids()[j] == self.edge_list()[j].0);
        lemma_pos_of_unique(self.edge_ids(), j);
    }

    /// In a well-formed graph the node at index `i` is found at `i`.
    pub proof fn lemma_node_index(&self, i: int)
        requires
            self.wf(),
            0 <= i < self.node_ids().len(),
        ensures
            pos_of(self.node_ids(), self.node_ids()[i]) == i,
    {
        lemma_pos_of_unique(self.node_ids(), i);
    }

    /// Id and payload of the node at index `i` (insertion order).
    pub(crate) fn node_at(&self, i: usize) -> (r: (NodeId, &N))
        requires
            i < self.node_ids().len(),
        ensures
            r.0 == self.node_ids()[i as int],
            *r.1 == self.node_payloads()[i as int],
    {
        let pair = &self.nodes[i];
        (pair.0, &pair.1)
    }

    /// Outgoing list of the node at index `i`.
    pub(crate) fn out_list_at(&self, i: usize) -> (l: &[EdgeId])
        requires
            self.wf(),
            i < self.node_ids().len(),
        ensures
            l@ == edges_from(self.edge_list(), self.node_ids()[i as int]),
    {
        self.outgoing[i].1.as_slice()
    }

    /// Payload of the edge at index `k` (insertion order).
    pub(crate) fn edge_payload_at(&self, k: usize) -> (r: &E)
        requires
            k < self.edge_ids().len(),
        ensures
            *r == self.edge_payloads()[k as int],
    {
        &self.edges[k].payload
    }

    /// Node indices of the source and the target of the `k`-th edge.
    pub(crate) fn edge_end_indices(&self, k: usize) -> (r: (usize, usize))
        requires
            self.wf(),
            k < self.edge_list().len(),
        ensures
            r.0 == pos_of(self.node_ids(), self.edge_list()[k as int].1),
            r.1 == pos_of(self.node_ids(), self.edge_list()[k as int].2),
            r.0 < self.node_ids().len(),
            r.1 < self.node_ids().len(),
    {
        let src = self.edges[k].src;
        let dst = self.edges[k].dst;
        proof {
            assert(self.edge_list()[k as int].1 == src && self.edge_list()[k as int].2 == dst);
        }
        match (self.node_index(src), self.node_index(dst)) {
            (Some(a), Some(b)) => (a, b),
            _ => {
                proof {
                    assert(false);
                }
                (0, 0)
            },
        }
    }

    /// Index of stored edge `e` and index of the node it enters.
    pub(crate) fn edge_target(&self, e: EdgeId) -> (r: (usize, usize))
        requires
            self.wf(),
            self.edge_ids().contains(e),
        ensures
            r.0 == pos_of(self.edge_ids(), e),
            r.0 < self.edge_ids().len(),
            r.1 == pos_of(self.node_ids(), self.edge_dst(e)),
            r.1 < self.node_ids().len(),
    {
        proof {
            lemma_pos_of(self.edge_ids(), e);
        }
        let ei = match self.find_edge_index(e) {
            Some(ei) => ei,
            None => {
                proof {
                    assert(false);
                }
                0
            },
        };
        let dst = self.edges[ei].dst;
        proof {
            assert(self.node_ids().contains(self.edges@[ei as int].src));
            assert(dst == self.edge_dst(e));
        }
        let ni = match self.find_node_index(dst) {
            Some(ni) => ni,
            None => {
                proof {
                    assert(false);
                }
                0
            },
        };
        (ei, ni)
    }
}

} // verus!
