//! Bounded traversals of a [`Graph`]: depth-first ([`GraphTraverser::bounded_dfs`])
//! and breadth-first ([`GraphTraverser::bounded_bfs`]), their collecting forms
//! ([`GraphWalker`]) and connected components.
//!
//! Every traversal is bounded by `max_depth` (the start has depth 0, each edge
//! adds 1, nodes at depth `max_depth - 1` are not expanded). A node is visited
//! at most once per traversal, so self loops and parallel edges never repeat
//! a visit.

use std::collections::VecDeque;
use vstd::prelude::*;
use vstd::string::StringExecFns;
use crate::text::{decimal_digits, decimal_text};
use crate::graph::edge::{Edge, EdgeId};
use crate::graph::error::{GraphError, GraphResult};
use crate::graph::graph::{edges_from, lemma_pos_of, pos_of, Graph};
use crate::graph::node::{Node, NodeId};
use crate::graph::components::{component_labels, components_of, labeled_ids};
use crate::graph::callback_laws::{law_bfs_callback_stop, law_dfs_callback_stop};

verus! {

/// Component number (0-based, in order of discovery).
#[derive(Clone, Copy, Debug, Default, PartialEq, Eq, Hash, PartialOrd, Ord, Structural)]
pub struct ComponentId(pub u32);

impl ComponentId {
    /// Builds a component id.
    pub fn new(id: u32) -> (c: ComponentId)
        ensures
            c.0 == id,
    {
        ComponentId(id)
    }

    /// The raw `u32`.
    pub fn get(self) -> (r: u32)
        ensures
            r == self.0,
    {
        self.0
    }

    /// Text of the id: `ComponentId(`, the number in decimal, then `)`.
    pub fn to_string(&self) -> (s: String)
        ensures
            s@ == "ComponentId("@ + decimal_digits(self.0 as nat) + ")"@,
    {
        String::from_str("ComponentId(").concat(decimal_text(self.0 as u64).as_str()).concat(")")
    }
}

/// One visit reported to a traversal callback.
#[derive(Clone, Copy, Debug)]
pub struct TraversalEvent<'a, N: Node, E: Edge> {
    /// The visited node.
    pub node_id: NodeId,
    /// The edge that led here (`None` at the start).
    pub via_edge: Option<EdgeId>,
    /// Depth of the node (the start has depth 0).
    pub depth: usize,
    /// The node's payload.
    pub node: &'a N,
    /// The payload of `via_edge`, when there is one.
    pub edge: Option<&'a E>,
}

impl<'a, N: Node, E: Edge> TraversalEvent<'a, N, E> {
    /// Whether the node lies at the depth limit (`depth + 1 >= max_depth`):
    /// a traversal bounded by `max_depth` does not expand it.
    pub fn is_at_depth_limit(&self, max_depth: usize) -> (b: bool)
        requires
            self.depth < usize::MAX,
        ensures
            b == (self.depth + 1 >= max_depth),
    {
        self.depth + 1 >= max_depth
    }
}

/// Preorder record of a depth-first traversal.
#[derive(Clone, Debug, Default, PartialEq, Eq)]
pub struct DfsOrder {
    /// Visited `(id, depth)`, in visiting order.
    pub order: Vec<(NodeId, usize)>,
    /// Number of visited nodes (the start included).
    pub visited_count: usize,
}

impl DfsOrder {
    /// Visited ids, in visiting order.
    pub fn nodes(&self) -> (r: Vec<NodeId>)
        ensures
            r@ == self.order@.map_values(|p: (NodeId, usize)| p.0),
    {
        ids_of(&self.order)
    }
}

/// Record of a breadth-first traversal: one layer per depth and the full
/// visiting order.
#[derive(Clone, Debug, Default, PartialEq, Eq)]
pub struct BfsOrder {
    /// `layers[d]`: ids visited at depth `d`, in visiting order.
    pub layers: Vec<Vec<NodeId>>,
    /// Visited `(id, depth)`, in visiting order.
    pub order: Vec<(NodeId, usize)>,
}

impl BfsOrder {
    /// Visited ids, in visiting order.
    pub fn nodes(&self) -> (r: Vec<NodeId>)
        ensures
            r@ == self.order@.map_values(|p: (NodeId, usize)| p.0),
    {
        ids_of(&self.order)
    }
}

/// The ids of `(id, depth)` entries, in order.
fn ids_of(order: &Vec<(NodeId, usize)>) -> (r: Vec<NodeId>)
    ensures
        r@ == order@.map_values(|p: (NodeId, usize)| p.0),
{
    let mut r: Vec<NodeId> = Vec::new();
    let mut i: usize = 0;
    while i < order.len()
        invariant
            i <= order@.len(),
            r@ == order@.take(i as int).map_values(|p: (NodeId, usize)| p.0),
        decreases order@.len() - i,
    {
        r.push(order[i].0);
        i = i + 1;
        proof {
            assert(order@.take(i as int) =~= order@.take(i - 1).push(order@[i - 1]));
            assert(r@ =~= order@.take(i as int).map_values(|p: (NodeId, usize)| p.0));
        }
    }
    proof {
        assert(order@.take(i as int) =~= order@);
    }
    r
}

/// Ids at depth `d` in `order`, in order.
pub open spec fn nodes_at_depth(order: Seq<(NodeId, usize)>, d: int) -> Seq<NodeId>
    decreases order.len(),
{
    if order.len() == 0 {
        Seq::empty()
    } else {
        let rest = nodes_at_depth(order.drop_last(), d);
        if order.last().1 == d {
            rest.push(order.last().0)
        } else {
            rest
        }
    }
}

/// Layers as sequences of ids.
pub open spec fn layers_view(layers: Seq<Vec<NodeId>>) -> Seq<Seq<NodeId>> {
    layers.map_values(|l: Vec<NodeId>| l@)
}

/// `layers` groups `order` by depth: layer `d` holds the ids at depth `d`,
/// every depth has its layer, and the last layer is not empty.
pub open spec fn layers_of(layers: Seq<Seq<NodeId>>, order: Seq<(NodeId, usize)>) -> bool {
    &&& forall|d: int| 0 <= d < layers.len() ==> #[trigger] layers[d] == nodes_at_depth(order, d)
    &&& forall|k: int| 0 <= k < order.len() ==> (#[trigger] order[k]).1 < layers.len()
    &&& layers.len() > 0 ==> layers.last().len() > 0
}

/// A depth is absent from `order` exactly when its layer is empty.
pub proof fn lemma_nodes_at_depth_empty(order: Seq<(NodeId, usize)>, d: int)
    ensures
        (nodes_at_depth(order, d).len() == 0) <==> (forall|k: int|
            0 <= k < order.len() ==> (#[trigger] order[k]).1 != d),
    decreases order.len(),
{
    if order.len() > 0 {
        let p = order.drop_last();
        lemma_nodes_at_depth_empty(p, d);
        if nodes_at_depth(order, d).len() == 0 {
            assert forall|k: int| 0 <= k < order.len() implies (#[trigger] order[k]).1 != d by {
                if k < order.len() - 1 {
                    assert(order[k] == p[k]);
                }
            }
        } else if forall|k: int| 0 <= k < order.len() ==> (#[trigger] order[k]).1 != d {
            assert(order[order.len() - 1] == order.last());
            assert forall|k: int| 0 <= k < p.len() implies (#[trigger] p[k]).1 != d by {
                assert(order[k] == p[k]);
            }
        }
    }
}

/// Groups `order` by depth.
fn group_layers(order: &Vec<(NodeId, usize)>) -> (layers: Vec<Vec<NodeId>>)
    ensures
        layers_of(layers_view(layers@), order@),
{
    let mut layers: Vec<Vec<NodeId>> = Vec::new();
    let mut i: usize = 0;
    while i < order.len()
        invariant
            i <= order@.len(),
            forall|d: int|
                0 <= d < layers@.len() ==> #[trigger] layers@[d]@ == nodes_at_depth(
                    order@.take(i as int),
                    d,
                ),
            forall|k: int| 0 <= k < i ==> (#[trigger] order@[k]).1 < layers@.len(),
        decreases order@.len() - i,
    {
        let (id, depth) = order[i];
        let ghost pre = order@.take(i as int);
        while layers.len() <= depth
            invariant
                pre == order@.take(i as int),
                i < order@.len(),
                forall|d: int|
                    0 <= d < layers@.len() ==> #[trigger] layers@[d]@ == nodes_at_depth(pre, d),
                forall|k: int| 0 <= k < i ==> (#[trigger] order@[k]).1 < layers@.len(),
            decreases depth + 1 - layers@.len(),
        {
            proof {
                let d = layers@.len() as int;
                assert forall|k: int| 0 <= k < pre.len() implies (#[trigger] pre[k]).1 != d by {
                    assert(pre[k] == order@[k]);
                }
                lemma_nodes_at_depth_empty(pre, d);
            }
            layers.push(Vec::new());
            proof {
                assert(layers@[layers@.len() - 1]@ =~= nodes_at_depth(pre, layers@.len() - 1));
            }
        }
        let ghost before = layers@;
        layers[depth].push(id);
        i = i + 1;
        proof {
            let now = order@.take(i as int);
            assert(now.drop_last() =~= pre);
            assert(now.last() == (id, depth));
            assert forall|d: int| 0 <= d < layers@.len() implies #[trigger] layers@[d]@ == nodes_at_depth(
                now,
                d,
            ) by {
                if d != depth {
                    assert(layers@[d] == before[d]);
                }
            }
        }
    }
    proof {
        assert(order@.take(i as int) =~= order@);
    }
    while layers.len() > 0 && layers[layers.len() - 1].len() == 0
        invariant
            forall|d: int|
                0 <= d < layers@.len() ==> #[trigger] layers@[d]@ == nodes_at_depth(order@, d),
            forall|k: int| 0 <= k < order@.len() ==> (#[trigger] order@[k]).1 < layers@.len(),
        decreases layers@.len(),
    {
        let ghost last = layers@.len() - 1;
        proof {
            lemma_nodes_at_depth_empty(order@, last);
        }
        layers.pop();
    }
    proof {
        let lv = layers_view(layers@);
        assert forall|d: int| 0 <= d < lv.len() implies #[trigger] lv[d] == nodes_at_depth(order@, d) by {
            assert(lv[d] == layers@[d]@);
        }
        if lv.len() > 0 {
            assert(lv.last() == layers@[layers@.len() - 1]@);
        }
    }
    layers
}

/// Ids of the edges leaving the node at index `i`.
pub open spec fn out_at<N: Node, E: Edge>(g: Graph<N, E>, i: int) -> Seq<EdgeId> {
    edges_from(g.edge_list(), g.node_ids()[i])
}

/// Index of the node that edge `e` enters.
pub open spec fn target_at<N: Node, E: Edge>(g: Graph<N, E>, e: EdgeId) -> int {
    pos_of(g.node_ids(), g.edge_dst(e))
}

/// Number of unvisited marks.
pub open spec fn count_unvisited(v: Seq<bool>) -> nat
    decreases v.len(),
{
    if v.len() == 0 {
        0
    } else {
        count_unvisited(v.drop_last()) + if v.last() {
            0nat
        } else {
            1nat
        }
    }
}

/// Marking an unvisited entry leaves one unvisited entry fewer.
pub proof fn lemma_mark(v: Seq<bool>, d: int)
    requires
        0 <= d < v.len(),
        !v[d],
    ensures
        count_unvisited(v.update(d, true)) + 1 == count_unvisited(v),
    decreases v.len(),
{
    let w = v.update(d, true);
    if d == v.len() - 1 {
        assert(w.drop_last() =~= v.drop_last());
    } else {
        assert(w.drop_last() =~= v.drop_last().update(d, true));
        lemma_mark(v.drop_last(), d);
    }
}

/// Marks at the start of a traversal from node index `s` of `n` nodes.
pub open spec fn start_marks(n: nat, s: int) -> Seq<bool> {
    Seq::new(n, |i: int| i == s)
}

/// A depth-first frame `(node, depth, next edge position)` is finished when
/// its node lies at the depth limit or all its edges were tried.
pub open spec fn frame_done<N: Node, E: Edge>(
    g: Graph<N, E>,
    max_depth: int,
    f: (int, int, int),
) -> bool {
    f.1 + 1 >= max_depth || f.2 >= out_at(g, f.0).len()
}

/// Search step of the depth-first traversal. Finished frames are popped and
/// edges into visited nodes skipped, until the top frame's next edge leads to
/// an unvisited node: the frame moves past that edge, the node is marked, and
/// `(node, edge, depth)` is reported. Results: stack, marks, report.
pub open spec fn dfs_seek<N: Node, E: Edge>(
    g: Graph<N, E>,
    max_depth: int,
    stack: Seq<(int, int, int)>,
    visited: Seq<bool>,
) -> (Seq<(int, int, int)>, Seq<bool>, Option<(int, EdgeId, int)>)
    decreases stack.len(), if stack.len() > 0 {
        out_at(g, stack.last().0).len() - stack.last().2
    } else {
        0
    },
{
    if stack.len() == 0 {
        (stack, visited, None)
    } else {
        let f = stack.last();
        if frame_done(g, max_depth, f) {
            dfs_seek(g, max_depth, stack.drop_last(), visited)
        } else {
            let e = out_at(g, f.0)[f.2];
            let t = target_at(g, e);
            let moved = stack.update(stack.len() - 1, (f.0, f.1, f.2 + 1));
            if 0 <= t < visited.len() && !visited[t] {
                (moved, visited.update(t, true), Some((t, e, f.1 + 1)))
            } else {
                dfs_seek(g, max_depth, moved, visited)
            }
        }
    }
}

/// A search step marks exactly the node it reports, which was unvisited.
pub proof fn lemma_dfs_seek_marks<N: Node, E: Edge>(
    g: Graph<N, E>,
    max_depth: int,
    stack: Seq<(int, int, int)>,
    visited: Seq<bool>,
)
    ensures
        ({
            let r = dfs_seek(g, max_depth, stack, visited);
            match r.2 {
                None => r.1 == visited,
                Some(ev) => {
                    &&& 0 <= ev.0 < visited.len()
                    &&& !visited[ev.0]
                    &&& r.1 == visited.update(ev.0, true)
                    &&& count_unvisited(r.1) < count_unvisited(visited)
                    &&& r.0.len() > 0
                },
            }
        }),
    decreases stack.len(), if stack.len() > 0 {
        out_at(g, stack.last().0).len() - stack.last().2
    } else {
        0
    },
{
    if stack.len() > 0 {
        let f = stack.last();
        if frame_done(g, max_depth, f) {
            lemma_dfs_seek_marks(g, max_depth, stack.drop_last(), visited);
        } else {
            let e = out_at(g, f.0)[f.2];
            let t = target_at(g, e);
            let moved = stack.update(stack.len() - 1, (f.0, f.1, f.2 + 1));
            if 0 <= t < visited.len() && !visited[t] {
                lemma_mark(visited, t);
            } else {
                assert(moved.last() == (f.0, f.1, f.2 + 1));
                lemma_dfs_seek_marks(g, max_depth, moved, visited);
            }
        }
    }
}

/// Node indices and depths reported by the depth-first traversal from the
/// given frames and marks when every report is answered "go on".
pub open spec fn dfs_run<N: Node, E: Edge>(
    g: Graph<N, E>,
    max_depth: int,
    stack: Seq<(int, int, int)>,
    visited: Seq<bool>,
) -> Seq<(int, int)>
    decreases count_unvisited(visited),
{
    let r = dfs_seek(g, max_depth, stack, visited);
    match r.2 {
        None => Seq::empty(),
        Some(ev) => {
            proof {
                lemma_dfs_seek_marks(g, max_depth, stack, visited);
            }
            seq![(ev.0, ev.2)] + dfs_run(g, max_depth, r.0.push((ev.0, ev.2, 0)), r.1)
        },
    }
}

/// Preorder `(node index, depth)` of the bounded depth-first traversal from
/// node index `s`.
pub open spec fn dfs_trace<N: Node, E: Edge>(g: Graph<N, E>, s: int, max_depth: int) -> Seq<
    (int, int),
> {
    seq![(s, 0)] + dfs_run(g, max_depth, seq![(s, 0, 0)], start_marks(g.node_ids().len(), s))
}

/// `(id, depth)` of a traversal entry.
pub open spec fn entry_id<N: Node, E: Edge>(g: Graph<N, E>, p: (int, int)) -> (NodeId, usize) {
    (g.node_ids()[p.0], p.1 as usize)
}

/// Preorder `(id, depth)` of the bounded depth-first traversal from `start`.
pub open spec fn dfs_preorder<N: Node, E: Edge>(
    g: Graph<N, E>,
    start: NodeId,
    max_depth: usize,
) -> Seq<(NodeId, usize)> {
    dfs_trace(g, pos_of(g.node_ids(), start), max_depth as int).map_values(
        |p: (int, int)| entry_id(g, p),
    )
}

/// Frames of a depth-first traversal: stored nodes, depths below the limit,
/// positions within the node's edges.
pub open spec fn frames_ok<N: Node, E: Edge>(
    g: Graph<N, E>,
    max_depth: int,
    stack: Seq<(int, int, int)>,
) -> bool {
    forall|k: int|
        0 <= k < stack.len() ==> {
            let f = #[trigger] stack[k];
            &&& 0 <= f.0 < g.node_ids().len()
            &&& 0 <= f.1 < max_depth
            &&& 0 <= f.2 <= out_at(g, f.0).len()
        }
}

/// A search step keeps the frames well formed and reports a depth between 1
/// and the limit.
pub proof fn lemma_dfs_seek_frames<N: Node, E: Edge>(
    g: Graph<N, E>,
    max_depth: int,
    stack: Seq<(int, int, int)>,
    visited: Seq<bool>,
)
    requires
        frames_ok(g, max_depth, stack),
    ensures
        ({
            let r = dfs_seek(g, max_depth, stack, visited);
            &&& frames_ok(g, max_depth, r.0)
            &&& r.2 matches Some(ev) ==> 1 <= ev.2 < max_depth
        }),
    decreases stack.len(), if stack.len() > 0 {
        out_at(g, stack.last().0).len() - stack.last().2
    } else {
        0
    },
{
    if stack.len() > 0 {
        let f = stack.last();
        assert(stack[stack.len() - 1] == f);
        if frame_done(g, max_depth, f) {
            assert(frames_ok(g, max_depth, stack.drop_last())) by {
                assert forall|k: int| 0 <= k < stack.drop_last().len() implies {
                    let h = #[trigger] stack.drop_last()[k];
                    &&& 0 <= h.0 < g.node_ids().len()
                    &&& 0 <= h.1 < max_depth
                    &&& 0 <= h.2 <= out_at(g, h.0).len()
                } by {
                    assert(stack.drop_last()[k] == stack[k]);
                }
            }
            lemma_dfs_seek_frames(g, max_depth, stack.drop_last(), visited);
        } else {
            let moved = stack.update(stack.len() - 1, (f.0, f.1, f.2 + 1));
            assert(frames_ok(g, max_depth, moved)) by {
                assert forall|k: int| 0 <= k < moved.len() implies {
                    let h = #[trigger] moved[k];
                    &&& 0 <= h.0 < g.node_ids().len()
                    &&& 0 <= h.1 < max_depth
                    &&& 0 <= h.2 <= out_at(g, h.0).len()
                } by {
                    if k != stack.len() - 1 {
                        assert(moved[k] == stack[k]);
                    }
                }
            }
            assert(moved.last() == (f.0, f.1, f.2 + 1));
            lemma_dfs_seek_frames(g, max_depth, moved, visited);
        }
    }
}

/// Every edge leaving a stored node is stored and enters a stored node.
pub proof fn lemma_out_at<N: Node, E: Edge>(g: Graph<N, E>, i: int, k: int)
    requires
        g.wf(),
        0 <= i < g.node_ids().len(),
        0 <= k < out_at(g, i).len(),
    ensures
        g.edge_ids().contains(out_at(g, i)[k]),
        0 <= target_at(g, out_at(g, i)[k]) < g.node_ids().len(),
{
    g.lemma_out_edges_stored(g.node_ids()[i]);
    let e = out_at(g, i)[k];
    assert(edges_from(g.edge_list(), g.node_ids()[i])[k] == e);
    lemma_pos_of(g.node_ids(), g.edge_dst(e));
}

/// Breadth-first queue entries `(node, depth)`: stored nodes, depths below
/// the limit.
pub open spec fn queue_ok<N: Node, E: Edge>(
    g: Graph<N, E>,
    max_depth: int,
    queue: Seq<(int, int)>,
) -> bool {
    forall|k: int|
        0 <= k < queue.len() ==> {
            let q = #[trigger] queue[k];
            &&& 0 <= q.0 < g.node_ids().len()
            &&& 0 <= q.1 < max_depth
        }
}

/// The frame being expanded, if any, is well formed.
pub open spec fn cur_ok<N: Node, E: Edge>(
    g: Graph<N, E>,
    max_depth: int,
    cur: Option<(int, int, int)>,
) -> bool {
    cur matches Some(f) ==> frames_ok(g, max_depth, seq![f])
}

/// Measure of a breadth-first search step.
pub open spec fn bfs_measure(queue: Seq<(int, int)>, cur: Option<(int, int, int)>) -> int {
    2 * queue.len() + if cur is Some {
        1int
    } else {
        0int
    }
}

/// Edges left to try in the frame being expanded.
pub open spec fn cur_left<N: Node, E: Edge>(g: Graph<N, E>, cur: Option<(int, int, int)>) -> int {
    match cur {
        Some(f) => out_at(g, f.0).len() - f.2,
        None => 0,
    }
}

/// Search step of the breadth-first traversal. With no frame being expanded
/// the queue's front becomes the frame; a finished frame is dropped; edges
/// into visited nodes are skipped; the first edge into an unvisited node
/// marks it and reports `(node, edge, depth)`. Results: queue, frame, marks,
/// report.
pub open spec fn bfs_seek<N: Node, E: Edge>(
    g: Graph<N, E>,
    max_depth: int,
    queue: Seq<(int, int)>,
    cur: Option<(int, int, int)>,
    visited: Seq<bool>,
) -> (Seq<(int, int)>, Option<(int, int, int)>, Seq<bool>, Option<(int, EdgeId, int)>)
    decreases bfs_measure(queue, cur), cur_left(g, cur),
{
    match cur {
        None => {
            if queue.len() == 0 {
                (queue, None, visited, None)
            } else {
                bfs_seek(g, max_depth, queue.drop_first(), Some((queue[0].0, queue[0].1, 0)), visited)
            }
        },
        Some(f) => {
            if frame_done(g, max_depth, f) {
                bfs_seek(g, max_depth, queue, None, visited)
            } else {
                let e = out_at(g, f.0)[f.2];
                let t = target_at(g, e);
                let moved = Some((f.0, f.1, f.2 + 1));
                if 0 <= t < visited.len() && !visited[t] {
                    (queue, moved, visited.update(t, true), Some((t, e, f.1 + 1)))
                } else {
                    bfs_seek(g, max_depth, queue, moved, visited)
                }
            }
        },
    }
}

/// A breadth-first search step marks exactly the node it reports, which was
/// unvisited; from well-formed state it keeps the state well formed and
/// reports a depth between 1 and the limit.
pub proof fn lemma_bfs_seek<N: Node, E: Edge>(
    g: Graph<N, E>,
    max_depth: int,
    queue: Seq<(int, int)>,
    cur: Option<(int, int, int)>,
    visited: Seq<bool>,
)
    ensures
        ({
            let r = bfs_seek(g, max_depth, queue, cur, visited);
            &&& match r.3 {
                None => r.2 == visited,
                Some(ev) => {
                    &&& 0 <= ev.0 < visited.len()
                    &&& !visited[ev.0]
                    &&& r.2 == visited.update(ev.0, true)
                    &&& count_unvisited(r.2) < count_unvisited(visited)
                },
            }
            &&& queue_ok(g, max_depth, queue) && cur_ok(g, max_depth, cur) ==> {
                &&& queue_ok(g, max_depth, r.0)
                &&& cur_ok(g, max_depth, r.1)
                &&& r.3 matches Some(ev) ==> 1 <= ev.2 < max_depth
            }
        }),
    decreases bfs_measure(queue, cur), cur_left(g, cur),
{
    match cur {
        None => {
            if queue.len() > 0 {
                let nf = Some((queue[0].0, queue[0].1, 0int));
                if queue_ok(g, max_depth, queue) {
                    assert(queue_ok(g, max_depth, queue.drop_first())) by {
                        assert forall|k: int| 0 <= k < queue.drop_first().len() implies {
                            let q = #[trigger] queue.drop_first()[k];
                            &&& 0 <= q.0 < g.node_ids().len()
                            &&& 0 <= q.1 < max_depth
                        } by {
                            assert(queue.drop_first()[k] == queue[k + 1]);
                        }
                    }
                    assert(queue[0] == queue[0]);
                    assert(cur_ok(g, max_depth, nf)) by {
                        assert(seq![(queue[0].0, queue[0].1, 0int)][0] == (queue[0].0, queue[0].1, 0int));
                    }
                }
                lemma_bfs_seek(g, max_depth, queue.drop_first(), nf, visited);
            }
        },
        Some(f) => {
            if frame_done(g, max_depth, f) {
                lemma_bfs_seek(g, max_depth, queue, None, visited);
            } else {
                let e = out_at(g, f.0)[f.2];
                let t = target_at(g, e);
                let moved = Some((f.0, f.1, f.2 + 1));
                if cur_ok(g, max_depth, cur) {
                    assert(seq![f][0] == f);
                    assert(cur_ok(g, max_depth, moved)) by {
                        assert(seq![(f.0, f.1, f.2 + 1)][0] == (f.0, f.1, f.2 + 1));
                    }
                }
                if 0 <= t < visited.len() && !visited[t] {
                    lemma_mark(visited, t);
                } else {
                    lemma_bfs_seek(g, max_depth, queue, moved, visited);
                }
            }
        },
    }
}

/// Node indices and depths reported by the breadth-first traversal from the
/// given state when every report is answered "go on".
pub open spec fn bfs_run<N: Node, E: Edge>(
    g: Graph<N, E>,
    max_depth: int,
    queue: Seq<(int, int)>,
    cur: Option<(int, int, int)>,
    visited: Seq<bool>,
) -> Seq<(int, int)>
    decreases count_unvisited(visited),
{
    let r = bfs_seek(g, max_depth, queue, cur, visited);
    match r.3 {
        None => Seq::empty(),
        Some(ev) => {
            proof {
                lemma_bfs_seek(g, max_depth, queue, cur, visited);
            }
            seq![(ev.0, ev.2)] + bfs_run(g, max_depth, r.0.push((ev.0, ev.2)), r.1, r.2)
        },
    }
}

/// Visiting order `(node index, depth)` of the bounded breadth-first
/// traversal from node index `s`.
pub open spec fn bfs_trace<N: Node, E: Edge>(g: Graph<N, E>, s: int, max_depth: int) -> Seq<
    (int, int),
> {
    seq![(s, 0)] + bfs_run(g, max_depth, seq![(s, 0)], None, start_marks(g.node_ids().len(), s))
}

/// Visiting order `(id, depth)` of the bounded breadth-first traversal from
/// `start`.
pub open spec fn bfs_visit_order<N: Node, E: Edge>(
    g: Graph<N, E>,
    start: NodeId,
    max_depth: usize,
) -> Seq<(NodeId, usize)> {
    bfs_trace(g, pos_of(g.node_ids(), start), max_depth as int).map_values(
        |p: (int, int)| entry_id(g, p),
    )
}

/// A visit as reported to a callback: node index, the edge that led there
/// (none at the start) and depth.
pub open spec fn visit_of(r: (int, EdgeId, int)) -> (int, Option<EdgeId>, int) {
    (r.0, Some(r.1), r.2)
}

/// Event `ev` describes visit `v` of `g`: the node's id, payload and
/// depth, and the edge that led there with its payload.
pub open spec fn event_fits<'a, N: Node, E: Edge>(
    g: Graph<N, E>,
    ev: TraversalEvent<'a, N, E>,
    v: (int, Option<EdgeId>, int),
) -> bool {
    &&& ev.node_id == g.node_ids()[v.0]
    &&& *ev.node == g.node_payloads()[v.0]
    &&& ev.depth as int == v.2
    &&& ev.via_edge == v.1
    &&& match v.1 {
        None => ev.edge is None,
        Some(e) => ev.edge matches Some(p) && *p == g.edge_payloads()[pos_of(g.edge_ids(), e)],
    }
}

/// Visits `(node, edge, depth)` reported by the breadth-first traversal from
/// the given state when every report is answered "go on" (the visits of
/// [`bfs_run`] with their edges).
pub open spec fn bfs_reports<N: Node, E: Edge>(
    g: Graph<N, E>,
    max_depth: int,
    queue: Seq<(int, int)>,
    cur: Option<(int, int, int)>,
    visited: Seq<bool>,
) -> Seq<(int, EdgeId, int)>
    decreases count_unvisited(visited),
{
    let r = bfs_seek(g, max_depth, queue, cur, visited);
    match r.3 {
        None => Seq::empty(),
        Some(ev) => {
            proof {
                lemma_bfs_seek(g, max_depth, queue, cur, visited);
            }
            seq![ev] + bfs_reports(g, max_depth, r.0.push((ev.0, ev.2)), r.1, r.2)
        },
    }
}

/// The visits a bounded breadth-first traversal from node index `s`
/// reports, in order, when every report is answered "go on".
pub open spec fn bfs_visits<N: Node, E: Edge>(g: Graph<N, E>, s: int, max_depth: int) -> Seq<
    (int, Option<EdgeId>, int),
> {
    seq![(s, None::<EdgeId>, 0int)] + bfs_reports(
        g,
        max_depth,
        seq![(s, 0)],
        None,
        start_marks(g.node_ids().len(), s),
    ).map_values(|r: (int, EdgeId, int)| visit_of(r))
}

/// The answers after the first.
pub open spec fn later_answers(ans: Seq<bool>) -> Seq<bool> {
    if ans.len() > 0 {
        ans.drop_first()
    } else {
        ans
    }
}

/// Visits reported by the depth-first traversal from the given frames and
/// marks when the callback answers `ans[i]` to the `i`-th report (answers
/// past the end count as "go on"): "go on" enters the reported node; "stop"
/// ends the expansion of the node it was reached from.
pub open spec fn dfs_reports_with<N: Node, E: Edge>(
    g: Graph<N, E>,
    max_depth: int,
    stack: Seq<(int, int, int)>,
    visited: Seq<bool>,
    ans: Seq<bool>,
) -> Seq<(int, EdgeId, int)>
    decreases count_unvisited(visited),
{
    let r = dfs_seek(g, max_depth, stack, visited);
    match r.2 {
        None => Seq::empty(),
        Some(ev) => {
            proof {
                lemma_dfs_seek_marks(g, max_depth, stack, visited);
            }
            let next = if ans.len() == 0 || ans[0] {
                r.0.push((ev.0, ev.2, 0))
            } else {
                r.0.drop_last()
            };
            seq![ev] + dfs_reports_with(g, max_depth, next, r.1, later_answers(ans))
        },
    }
}

/// The visits a bounded depth-first traversal from node index `s` reports,
/// in order, when the callback answers `ans[i]` to the `i`-th one (the start
/// included).
pub open spec fn dfs_visits_with<N: Node, E: Edge>(
    g: Graph<N, E>,
    s: int,
    max_depth: int,
    ans: Seq<bool>,
) -> Seq<(int, Option<EdgeId>, int)> {
    seq![(s, None::<EdgeId>, 0int)] + if ans.len() > 0 && !ans[0] {
        Seq::empty()
    } else {
        dfs_reports_with(
            g,
            max_depth,
            seq![(s, 0, 0)],
            start_marks(g.node_ids().len(), s),
            later_answers(ans),
        ).map_values(|r: (int, EdgeId, int)| visit_of(r))
    }
}

/// What a callback of a bounded breadth-first traversal from `start` saw:
/// the events `evs` describe the first visits of [`bfs_visits`]; the
/// callback may answer "go on" to each of the first `k`, and, where `k` is
/// inside the visits, "stop" to the `k`-th, after which nothing more was
/// reported.
pub open spec fn bfs_answered<'a, N: Node, E: Edge, F: FnMut(TraversalEvent<'a, N, E>) -> bool>(
    g: Graph<N, E>,
    cb: F,
    start: NodeId,
    max_depth: usize,
    k: int,
    evs: Seq<TraversalEvent<'a, N, E>>,
) -> bool {
    let vs = bfs_visits(g, pos_of(g.node_ids(), start), max_depth as int);
    &&& 0 <= k <= vs.len()
    &&& evs.len() == if k < vs.len() {
        k + 1
    } else {
        k
    }
    &&& forall|j: int| 0 <= j < evs.len() ==> event_fits(g, #[trigger] evs[j], vs[j])
    &&& forall|j: int| 0 <= j < k ==> call_ensures(cb, (#[trigger] evs[j],), true)
    &&& k < vs.len() ==> call_ensures(cb, (evs[k],), false)
}

/// What a callback of a bounded depth-first traversal from `start` saw: the
/// events `evs` describe the visits of [`dfs_visits_with`] under the
/// answers `ans`, one answer per event, each a possible answer of the
/// callback to its event.
pub open spec fn dfs_answered<'a, N: Node, E: Edge, F: FnMut(TraversalEvent<'a, N, E>) -> bool>(
    g: Graph<N, E>,
    cb: F,
    start: NodeId,
    max_depth: usize,
    ans: Seq<bool>,
    evs: Seq<TraversalEvent<'a, N, E>>,
) -> bool {
    let vs = dfs_visits_with(g, pos_of(g.node_ids(), start), max_depth as int, ans);
    &&& ans.len() == vs.len()
    &&& evs.len() == vs.len()
    &&& forall|j: int| 0 <= j < evs.len() ==> event_fits(g, #[trigger] evs[j], vs[j])
    &&& forall|j: int| 0 <= j < evs.len() ==> call_ensures(cb, (#[trigger] evs[j],), ans[j])
}

/// Queue entries as mathematical pairs.
pub open spec fn queue_view(q: Seq<(usize, usize)>) -> Seq<(int, int)> {
    q.map_values(|p: (usize, usize)| (p.0 as int, p.1 as int))
}

/// A frame as a mathematical triple.
pub open spec fn cur_view(c: Option<(usize, usize, usize)>) -> Option<(int, int, int)> {
    match c {
        Some(f) => Some((f.0 as int, f.1 as int, f.2 as int)),
        None => None,
    }
}

/// Frames as mathematical triples.
pub open spec fn frames_view(s: Seq<(usize, usize, usize)>) -> Seq<(int, int, int)> {
    s.map_values(|f: (usize, usize, usize)| (f.0 as int, f.1 as int, f.2 as int))
}

impl<N: Node, E: Edge> Graph<N, E> {
    /// One search step of the depth-first traversal (see [`dfs_seek`]).
    fn seek_dfs(
        &self,
        max_depth: usize,
        stack: &mut Vec<(usize, usize, usize)>,
        visited: &mut Vec<bool>,
    ) -> (r: Option<(usize, EdgeId, usize, usize)>)
        requires
            self.wf(),
            frames_ok(*self, max_depth as int, frames_view(old(stack)@)),
            old(visited)@.len() == self.node_ids().len(),
        ensures
            ({
                let s = dfs_seek(*self, max_depth as int, frames_view(old(stack)@), old(visited)@);
                &&& frames_view(final(stack)@) == s.0
                &&& final(visited)@ == s.1
                &&& match r {
                    None => s.2 is None,
                    Some(ev) => {
                        &&& s.2 == Some((ev.0 as int, ev.1, ev.3 as int))
                        &&& ev.2 == pos_of(self.edge_ids(), ev.1)
                        &&& ev.2 < self.edge_ids().len()
                    },
                }
            }),
            frames_ok(*self, max_depth as int, frames_view(final(stack)@)),
            final(visited)@.len() == self.node_ids().len(),
    {
        let ghost target = dfs_seek(*self, max_depth as int, frames_view(stack@), visited@);
        let ghost marks = visited@;
        proof {
            lemma_dfs_seek_frames(*self, max_depth as int, frames_view(stack@), visited@);
        }
        loop
            invariant
                self.wf(),
                frames_ok(*self, max_depth as int, frames_view(stack@)),
                visited@ == marks,
                marks.len() == self.node_ids().len(),
                dfs_seek(*self, max_depth as int, frames_view(stack@), visited@) == target,
                target == dfs_seek(
                    *self,
                    max_depth as int,
                    frames_view(old(stack)@),
                    old(visited)@,
                ),
                frames_ok(*self, max_depth as int, target.0),
            decreases stack@.len(), if stack@.len() > 0 {
                out_at(*self, stack@.last().0 as int).len() - stack@.last().2
            } else {
                0
            },
        {
            let len = stack.len();
            if len == 0 {
                return None;
            }
            let f = stack[len - 1];
            let ghost fs = frames_view(stack@);
            proof {
                assert(fs[len - 1] == (f.0 as int, f.1 as int, f.2 as int));
                assert(fs.last() == fs[len - 1]);
            }
            let out = self.out_list_at(f.0);
            if f.1 + 1 >= max_depth || f.2 >= out.len() {
                stack.pop();
                proof {
                    assert(frames_view(stack@) =~= fs.drop_last());
                }
            } else {
                let e = out[f.2];
                proof {
                    lemma_out_at(*self, f.0 as int, f.2 as int);
                }
                let (ei, t) = self.edge_target(e);
                stack.set(len - 1, (f.0, f.1, f.2 + 1));
                proof {
                    assert(frames_view(stack@) =~= fs.update(
                        len - 1,
                        (f.0 as int, f.1 as int, f.2 + 1),
                    ));
                }
                if !visited[t] {
                    visited.set(t, true);
                    return Some((t, e, ei, f.1 + 1));
                }
            }
        }
    }

    /// Preorder of the bounded depth-first traversal from node index `si`.
    fn dfs_order_from(&self, si: usize, max_depth: usize) -> (r: Vec<(NodeId, usize)>)
        requires
            self.wf(),
            si < self.node_ids().len(),
            max_depth >= 1,
        ensures
            r@ == dfs_trace(*self, si as int, max_depth as int).map_values(
                |p: (int, int)| entry_id(*self, p),
            ),
    {
        let n = self.node_count();
        let mut visited = vec![false; n];
        visited.set(si, true);
        let mut stack: Vec<(usize, usize, usize)> = Vec::new();
        stack.push((si, 0, 0));
        let mut order: Vec<(NodeId, usize)> = Vec::new();
        order.push((self.node_at(si).0, 0));
        let ghost total = dfs_trace(*self, si as int, max_depth as int);
        let ghost mut done: Seq<(int, int)> = seq![(si as int, 0int)];
        proof {
            assert(visited@ =~= start_marks(n as nat, si as int));
            assert(frames_view(stack@) =~= seq![(si as int, 0int, 0int)]);
            assert(order@ =~= done.map_values(|p: (int, int)| entry_id(*self, p)));
        }
        loop
            invariant_except_break
                self.wf(),
                frames_ok(*self, max_depth as int, frames_view(stack@)),
                visited@.len() == self.node_ids().len(),
                done + dfs_run(*self, max_depth as int, frames_view(stack@), visited@) == total,
                order@ == done.map_values(|p: (int, int)| entry_id(*self, p)),
            ensures
                order@ == total.map_values(|p: (int, int)| entry_id(*self, p)),
            decreases count_unvisited(visited@),
        {
            let ghost fs = frames_view(stack@);
            let ghost marks = visited@;
            proof {
                lemma_dfs_seek_marks(*self, max_depth as int, fs, marks);
                lemma_dfs_seek_frames(*self, max_depth as int, fs, marks);
            }
            match self.seek_dfs(max_depth, &mut stack, &mut visited) {
                None => {
                    proof {
                        assert(dfs_run(*self, max_depth as int, fs, marks) =~= Seq::<(int, int)>::empty());
                        assert(done + Seq::<(int, int)>::empty() =~= done);
                    }
                    break;
                },
                Some((t, _e, _ei, d)) => {
                    let ghost rest = dfs_run(*self, max_depth as int, fs, marks);
                    order.push((self.node_at(t).0, d));
                    stack.push((t, d, 0));
                    proof {
                        assert(frames_view(stack@) =~= dfs_seek(*self, max_depth as int, fs, marks).0.push(
                            (t as int, d as int, 0),
                        ));
                        let tail = dfs_run(*self, max_depth as int, frames_view(stack@), visited@);
                        assert(rest == seq![(t as int, d as int)] + tail);
                        assert(done + rest =~= done.push((t as int, d as int)) + tail);
                        done = done.push((t as int, d as int));
                        assert(order@ =~= done.map_values(|p: (int, int)| entry_id(*self, p)));
                        assert forall|k: int| 0 <= k < frames_view(stack@).len() implies {
                            let h = #[trigger] frames_view(stack@)[k];
                            &&& 0 <= h.0 < self.node_ids().len()
                            &&& 0 <= h.1 < max_depth as int
                            &&& 0 <= h.2 <= out_at(*self, h.0).len()
                        } by {
                            if k < frames_view(stack@).len() - 1 {
                                assert(frames_view(stack@)[k] == dfs_seek(*self, max_depth as int, fs, marks).0[k]);
                            }
                        }
                    }
                },
            }
        }
        order
    }

    /// One search step of the breadth-first traversal (see [`bfs_seek`]).
    fn seek_bfs(
        &self,
        max_depth: usize,
        queue: &mut VecDeque<(usize, usize)>,
        cur: &mut Option<(usize, usize, usize)>,
        visited: &mut Vec<bool>,
    ) -> (r: Option<(usize, EdgeId, usize, usize)>)
        requires
            self.wf(),
            queue_ok(*self, max_depth as int, queue_view(old(queue)@)),
            cur_ok(*self, max_depth as int, cur_view(*old(cur))),
            old(visited)@.len() == self.node_ids().len(),
        ensures
            ({
                let s = bfs_seek(
                    *self,
                    max_depth as int,
                    queue_view(old(queue)@),
                    cur_view(*old(cur)),
                    old(visited)@,
                );
                &&& queue_view(final(queue)@) == s.0
                &&& cur_view(*final(cur)) == s.1
                &&& final(visited)@ == s.2
                &&& match r {
                    None => s.3 is None,
                    Some(ev) => {
                        &&& s.3 == Some((ev.0 as int, ev.1, ev.3 as int))
                        &&& ev.2 == pos_of(self.edge_ids(), ev.1)
                        &&& ev.2 < self.edge_ids().len()
                    },
                }
            }),
            queue_ok(*self, max_depth as int, queue_view(final(queue)@)),
            cur_ok(*self, max_depth as int, cur_view(*final(cur))),
            final(visited)@.len() == self.node_ids().len(),
    {
        let ghost target = bfs_seek(
            *self,
            max_depth as int,
            queue_view(queue@),
            cur_view(*cur),
            visited@,
        );
        let ghost marks = visited@;
        proof {
            lemma_bfs_seek(*self, max_depth as int, queue_view(queue@), cur_view(*cur), visited@);
        }
        loop
            invariant
                self.wf(),
                queue_ok(*self, max_depth as int, queue_view(queue@)),
                cur_ok(*self, max_depth as int, cur_view(*cur)),
                visited@ == marks,
                marks.len() == self.node_ids().len(),
                bfs_seek(*self, max_depth as int, queue_view(queue@), cur_view(*cur), visited@)
                    == target,
                target == bfs_seek(
                    *self,
                    max_depth as int,
                    queue_view(old(queue)@),
                    cur_view(*old(cur)),
                    old(visited)@,
                ),
                queue_ok(*self, max_depth as int, target.0),
                cur_ok(*self, max_depth as int, target.1),
            decreases bfs_measure(queue_view(queue@), cur_view(*cur)), cur_left(
                *self,
                cur_view(*cur),
            ),
        {
            let ghost qv = queue_view(queue@);
            match *cur {
                None => {
                    match queue.pop_front() {
                        None => {
                            return None;
                        },
                        Some(front) => {
                            proof {
                                assert(qv[0] == (front.0 as int, front.1 as int));
                                assert(queue_view(queue@) =~= qv.drop_first());
                            }
                            *cur = Some((front.0, front.1, 0));
                        },
                    }
                },
                Some(f) => {
                    proof {
                        assert(seq![(f.0 as int, f.1 as int, f.2 as int)][0] == (
                            f.0 as int,
                            f.1 as int,
                            f.2 as int,
                        ));
                    }
                    let out = self.out_list_at(f.0);
                    if f.1 + 1 >= max_depth || f.2 >= out.len() {
                        *cur = None;
                    } else {
                        let e = out[f.2];
                        proof {
                            lemma_out_at(*self, f.0 as int, f.2 as int);
                        }
                        let (ei, t) = self.edge_target(e);
                        *cur = Some((f.0, f.1, f.2 + 1));
                        if !visited[t] {
                            visited.set(t, true);
                            return Some((t, e, ei, f.1 + 1));
                        }
                    }
                },
            }
        }
    }

    /// Visiting order of the bounded breadth-first traversal from node index
    /// `si`.
    fn bfs_order_from(&self, si: usize, max_depth: usize) -> (r: Vec<(NodeId, usize)>)
        requires
            self.wf(),
            si < self.node_ids().len(),
            max_depth >= 1,
        ensures
            r@ == bfs_trace(*self, si as int, max_depth as int).map_values(
                |p: (int, int)| entry_id(*self, p),
            ),
    {
        let n = self.node_count();
        let mut visited = vec![false; n];
        visited.set(si, true);
        let mut queue: VecDeque<(usize, usize)> = VecDeque::new();
        queue.push_back((si, 0));
        let mut cur: Option<(usize, usize, usize)> = None;
        let mut order: Vec<(NodeId, usize)> = Vec::new();
        order.push((self.node_at(si).0, 0));
        let ghost total = bfs_trace(*self, si as int, max_depth as int);
        let ghost mut done: Seq<(int, int)> = seq![(si as int, 0int)];
        proof {
            assert(visited@ =~= start_marks(n as nat, si as int));
            assert(queue_view(queue@) =~= seq![(si as int, 0int)]);
            assert(order@ =~= done.map_values(|p: (int, int)| entry_id(*self, p)));
        }
        loop
            invariant_except_break
                self.wf(),
                queue_ok(*self, max_depth as int, queue_view(queue@)),
                cur_ok(*self, max_depth as int, cur_view(cur)),
                visited@.len() == self.node_ids().len(),
                done + bfs_run(*self, max_depth as int, queue_view(queue@), cur_view(cur), visited@)
                    == total,
                order@ == done.map_values(|p: (int, int)| entry_id(*self, p)),
            ensures
                order@ == total.map_values(|p: (int, int)| entry_id(*self, p)),
            decreases count_unvisited(visited@),
        {
            let ghost qv = queue_view(queue@);
            let ghost cv = cur_view(cur);
            let ghost marks = visited@;
            proof {
                lemma_bfs_seek(*self, max_depth as int, qv, cv, marks);
            }
            match self.seek_bfs(max_depth, &mut queue, &mut cur, &mut visited) {
                None => {
                    proof {
                        assert(bfs_run(*self, max_depth as int, qv, cv, marks) =~= Seq::<
                            (int, int),
                        >::empty());
                        assert(done + Seq::<(int, int)>::empty() =~= done);
                    }
                    break;
                },
                Some((t, _e, _ei, d)) => {
                    let ghost rest = bfs_run(*self, max_depth as int, qv, cv, marks);
                    let ghost sk = bfs_seek(*self, max_depth as int, qv, cv, marks);
                    order.push((self.node_at(t).0, d));
                    queue.push_back((t, d));
                    proof {
                        assert(queue_view(queue@) =~= sk.0.push((t as int, d as int)));
                        let tail = bfs_run(
                            *self,
                            max_depth as int,
                            queue_view(queue@),
                            cur_view(cur),
                            visited@,
                        );
                        assert(rest == seq![(t as int, d as int)] + tail);
                        assert(done + rest =~= done.push((t as int, d as int)) + tail);
                        done = done.push((t as int, d as int));
                        assert(order@ =~= done.map_values(|p: (int, int)| entry_id(*self, p)));
                        assert forall|k: int| 0 <= k < queue_view(queue@).len() implies {
                            let q = #[trigger] queue_view(queue@)[k];
                            &&& 0 <= q.0 < self.node_ids().len()
                            &&& 0 <= q.1 < max_depth as int
                        } by {
                            if k < queue_view(queue@).len() - 1 {
                                assert(queue_view(queue@)[k] == sk.0[k]);
                            }
                        }
                    }
                },
            }
        }
        order
    }
}

/// Ids of a list of `(id, depth)` entries.
pub open spec fn entry_ids(order: Seq<(NodeId, usize)>) -> Seq<NodeId> {
    order.map_values(|p: (NodeId, usize)| p.0)
}

/// Bounded traversals with a callback.
pub trait GraphTraverser<N: Node, E: Edge> {
    /// Whether the store is well formed, which the traversals need.
    spec fn traversable(&self) -> bool;

    /// Depth-first preorder traversal from `start`, bounded by `max_depth`.
    /// Each visited node is reported once; a callback answer `false` stops
    /// the expansion of the node whose edge led to the reported one (siblings
    /// of that node's ancestors are still visited).
    /// Refused: `max_depth == 0` (`ZeroMaxDepth(0)`, checked first), a
    /// `start` that is not stored (`UnknownNode`). The impl for [`Graph`]
    /// states which events reach the callback (see [`dfs_answered`]).
    fn bounded_dfs<F: FnMut(TraversalEvent<'_, N, E>) -> bool>(
        &self,
        start: NodeId,
        max_depth: usize,
        callback: F,
    ) -> (r: GraphResult<()>)
        requires
            self.traversable(),
            forall|ev: TraversalEvent<N, E>| #[trigger] call_requires(callback, (ev,)),
    ;

    /// Breadth-first traversal from `start`, bounded by `max_depth`. Each
    /// visited node is reported once; a callback answer `false` ends the
    /// traversal. Refused as [`GraphTraverser::bounded_dfs`]. The impl for
    /// [`Graph`] states which events reach the callback (see
    /// [`bfs_answered`]).
    fn bounded_bfs<F: FnMut(TraversalEvent<'_, N, E>) -> bool>(
        &self,
        start: NodeId,
        max_depth: usize,
        callback: F,
    ) -> (r: GraphResult<()>)
        requires
            self.traversable(),
            forall|ev: TraversalEvent<N, E>| #[trigger] call_requires(callback, (ev,)),
    ;
}

/// Traversals that collect what they visit.
pub trait GraphWalker<N: Node, E: Edge>: GraphTraverser<N, E> {
    /// The full preorder of [`GraphTraverser::bounded_dfs`].
    fn bounded_dfs_collect(&self, start: NodeId, max_depth: usize) -> (r: GraphResult<DfsOrder>)
        requires
            self.traversable(),
    ;

    /// The full visiting order of [`GraphTraverser::bounded_bfs`], grouped
    /// by depth.
    fn bounded_bfs_collect(&self, start: NodeId, max_depth: usize) -> (r: GraphResult<BfsOrder>)
        requires
            self.traversable(),
    ;

    /// Connected components in the undirected view (two nodes belong to
    /// one component when a chain of edges, each taken in either direction,
    /// joins them): every node lies in exactly one component, components are
    /// numbered in order of their first node, and each lists its node ids in
    /// insertion order.
    fn connected_components(&self) -> (r: Vec<(ComponentId, Vec<NodeId>)>)
        requires
            self.traversable(),
    ;

    /// All node ids, in insertion order.
    fn all_node_ids(&self) -> (r: Vec<NodeId>);
}

impl<N: Node, E: Edge> GraphTraverser<N, E> for Graph<N, E> {
    open spec fn traversable(&self) -> bool {
        self.wf()
    }

    fn bounded_dfs<F: FnMut(TraversalEvent<'_, N, E>) -> bool>(
        &self,
        start: NodeId,
        max_depth: usize,
        callback: F,
    ) -> (r: GraphResult<()>)
        ensures
            max_depth == 0 ==> r == Err::<(), GraphError>(GraphError::ZeroMaxDepth(0)),
            max_depth > 0 && !self.node_ids().contains(start) ==> r == Err::<(), GraphError>(
                GraphError::UnknownNode(start),
            ),
            max_depth > 0 && self.node_ids().contains(start) ==> r is Ok && exists|
                ans: Seq<bool>,
                evs: Seq<TraversalEvent<N, E>>,
            |
                {
                    &&& dfs_answered(*self, callback, start, max_depth, ans, evs)
                    &&& evs.len() >= 1
                    &&& evs[0].node_id == start && evs[0].depth == 0 && evs[0].via_edge is None
                    &&& !ans[0] ==> evs.len() == 1
                    &&& forall|j: int|
                        0 <= j < evs.len() - 1 ==> evs[j + 1].depth <= #[trigger] evs[j].depth + 1
                            && (!ans[j] ==> evs[j + 1].depth < evs[j].depth)
                },
    {
        let ghost cb0 = callback;
        let r = self.dfs_with_callback(start, max_depth, callback);
        proof {
            if max_depth > 0 && self.node_ids().contains(start) {
                let (ans, evs) = choose|ans: Seq<bool>, evs: Seq<TraversalEvent<N, E>>|
                    dfs_answered(*self, cb0, start, max_depth, ans, evs);
                law_dfs_callback_stop(*self, cb0, start, max_depth, ans, evs);
            }
        }
        r
    }

    fn bounded_bfs<F: FnMut(TraversalEvent<'_, N, E>) -> bool>(
        &self,
        start: NodeId,
        max_depth: usize,
        callback: F,
    ) -> (r: GraphResult<()>)
        ensures
            max_depth == 0 ==> r == Err::<(), GraphError>(GraphError::ZeroMaxDepth(0)),
            max_depth > 0 && !self.node_ids().contains(start) ==> r == Err::<(), GraphError>(
                GraphError::UnknownNode(start),
            ),
            max_depth > 0 && self.node_ids().contains(start) ==> r is Ok && exists|
                k: int,
                evs: Seq<TraversalEvent<N, E>>,
            |
                {
                    &&& bfs_answered(*self, callback, start, max_depth, k, evs)
                    &&& evs.len() >= 1
                    &&& evs[0].node_id == start && evs[0].depth == 0 && evs[0].via_edge is None
                    &&& forall|j: int|
                        0 <= j < evs.len() - 1 ==> call_ensures(callback, (#[trigger] evs[j],), true)
                    &&& (forall|a: bool| call_ensures(callback, (evs[0],), a) ==> !a) ==> evs.len() == 1
                },
    {
        let ghost cb0 = callback;
        let r = self.bfs_with_callback(start, max_depth, callback);
        proof {
            if max_depth > 0 && self.node_ids().contains(start) {
                let (k, evs) = choose|k: int, evs: Seq<TraversalEvent<N, E>>|
                    bfs_answered(*self, cb0, start, max_depth, k, evs);
                law_bfs_callback_stop(*self, cb0, start, max_depth, k, evs);
            }
        }
        r
    }
}

impl<N: Node, E: Edge> Graph<N, E> {
    fn dfs_with_callback<F: FnMut(TraversalEvent<'_, N, E>) -> bool>(
        &self,
        start: NodeId,
        max_depth: usize,
        callback: F,
    ) -> (r: GraphResult<()>)
        requires
            self.wf(),
            forall|ev: TraversalEvent<N, E>| #[trigger] call_requires(callback, (ev,)),
        ensures
            max_depth == 0 ==> r == Err::<(), GraphError>(GraphError::ZeroMaxDepth(0)),
            max_depth > 0 && !self.node_ids().contains(start) ==> r == Err::<(), GraphError>(
                GraphError::UnknownNode(start),
            ),
            max_depth > 0 && self.node_ids().contains(start) ==> r is Ok && exists|
                ans: Seq<bool>,
                evs: Seq<TraversalEvent<N, E>>,
            | dfs_answered(*self, callback, start, max_depth, ans, evs),
    {
        let ghost c0 = callback;
        let mut cb = callback;
        assert(c0 == callback);
        if max_depth == 0 {
            return Err(GraphError::ZeroMaxDepth(0));
        }
        let si = match self.node_index(start) {
            None => {
                return Err(GraphError::UnknownNode(start));
            },
            Some(si) => si,
        };
        proof {
            lemma_pos_of(self.node_ids(), start);
        }
        let n = self.node_count();
        let mut visited = vec![false; n];
        visited.set(si, true);
        let root = self.node_at(si).1;
        let ghost sg = si as int;
        let ghost m = max_depth as int;
        let ghost marks0 = start_marks(n as nat, sg);
        let ev0 = TraversalEvent { node_id: start, via_edge: None, depth: 0, node: root, edge: None };
        let ghost gev0 = ev0;
        let cont = cb(ev0);
        let ghost mut evs: Seq<TraversalEvent<N, E>> = seq![gev0];
        let ghost mut ans: Seq<bool> = seq![cont];
        let ghost mut done: Seq<(int, Option<EdgeId>, int)> = seq![(sg, None::<EdgeId>, 0int)];
        proof {
            assert(event_fits(*self, evs[0], done[0]));
            assert(visited@ =~= marks0);
        }
        if !cont || max_depth == 1 {
            proof {
                if cont {
                    let st0 = seq![(sg, 0int, 0int)];
                    assert(st0.last() == (sg, 0int, 0int));
                    assert(frame_done(*self, m, st0.last()));
                    assert(st0.drop_last() =~= Seq::<(int, int, int)>::empty());
                    assert(dfs_seek(*self, m, st0.drop_last(), marks0).2 is None);
                    assert(dfs_seek(*self, m, st0, marks0).2 is None);
                    assert(dfs_reports_with(*self, m, st0, marks0, later_answers(ans)) =~= Seq::<
                        (int, EdgeId, int),
                    >::empty());
                }
                let vs = dfs_visits_with(*self, sg, m, ans);
                assert(vs =~= done);
                assert(dfs_answered(*self, c0, start, max_depth, ans, evs));
            }
            return Ok(());
        }
        let mut stack: Vec<(usize, usize, usize)> = Vec::new();
        stack.push((si, 0, 0));
        proof {
            assert(frames_view(stack@) =~= seq![(sg, 0int, 0int)]);
            assert forall|more: Seq<bool>|
                #[trigger] dfs_visits_with(*self, sg, m, ans + more) == done + dfs_reports_with(
                    *self,
                    m,
                    frames_view(stack@),
                    visited@,
                    more,
                ).map_values(|r: (int, EdgeId, int)| visit_of(r)) by {
                let a = ans + more;
                assert(a[0] == cont);
                assert(later_answers(a) =~= more);
            }
        }
        loop
            invariant
                self.wf(),
                frames_ok(*self, max_depth as int, frames_view(stack@)),
                visited@.len() == self.node_ids().len(),
                self.node_ids().contains(start),
                si == pos_of(self.node_ids(), start),
                sg == si as int,
                m == max_depth as int,
                max_depth > 0,
                cb == c0,
                c0 == callback,
                forall|ev: TraversalEvent<N, E>| #[trigger] call_requires(c0, (ev,)),
                forall|more: Seq<bool>|
                    #[trigger] dfs_visits_with(*self, sg, m, ans + more) == done + dfs_reports_with(
                        *self,
                        m,
                        frames_view(stack@),
                        visited@,
                        more,
                    ).map_values(|r: (int, EdgeId, int)| visit_of(r)),
                evs.len() == done.len(),
                ans.len() == done.len(),
                forall|j: int| 0 <= j < evs.len() ==> event_fits(*self, #[trigger] evs[j], done[j]),
                forall|j: int| 0 <= j < evs.len() ==> call_ensures(c0, (#[trigger] evs[j],), ans[j]),
            decreases count_unvisited(visited@),
        {
            let ghost fs = frames_view(stack@);
            let ghost marks = visited@;
            proof {
                lemma_dfs_seek_marks(*self, max_depth as int, fs, marks);
                lemma_dfs_seek_frames(*self, max_depth as int, fs, marks);
            }
            match self.seek_dfs(max_depth, &mut stack, &mut visited) {
                None => {
                    proof {
                        let e0 = Seq::<bool>::empty();
                        assert(dfs_visits_with(*self, sg, m, ans + e0) == done + dfs_reports_with(
                            *self,
                            m,
                            fs,
                            marks,
                            e0,
                        ).map_values(|r: (int, EdgeId, int)| visit_of(r)));
                        assert(ans + e0 =~= ans);
                        assert(dfs_reports_with(*self, m, fs, marks, e0) =~= Seq::<(int, EdgeId, int)>::empty());
                        assert(done + Seq::<(int, EdgeId, int)>::empty().map_values(
                            |r: (int, EdgeId, int)| visit_of(r),
                        ) =~= done);
                        assert(dfs_answered(*self, c0, start, max_depth, ans, evs));
                    }
                    return Ok(());
                },
                Some((t, e, ei, d)) => {
                    let ghost sk = dfs_seek(*self, max_depth as int, fs, marks);
                    let (id, node) = self.node_at(t);
                    let edge = self.edge_payload_at(ei);
                    let ev = TraversalEvent { node_id: id, via_edge: Some(e), depth: d, node, edge: Some(edge) };
                    let ghost gev = ev;
                    let cont = cb(ev);
                    let ghost v = (t as int, Some(e), d as int);
                    if cont {
                        stack.push((t, d, 0));
                        proof {
                            assert(frames_view(stack@) =~= sk.0.push((t as int, d as int, 0)));
                            assert forall|k: int| 0 <= k < frames_view(stack@).len() implies {
                                let h = #[trigger] frames_view(stack@)[k];
                                &&& 0 <= h.0 < self.node_ids().len()
                                &&& 0 <= h.1 < max_depth as int
                                &&& 0 <= h.2 <= out_at(*self, h.0).len()
                            } by {
                                if k < sk.0.len() {
                                    assert(frames_view(stack@)[k] == sk.0[k]);
                                }
                            }
                        }
                    } else {
                        stack.pop();
                        proof {
                            assert(frames_view(stack@) =~= sk.0.drop_last());
                            assert forall|k: int| 0 <= k < frames_view(stack@).len() implies {
                                let h = #[trigger] frames_view(stack@)[k];
                                &&& 0 <= h.0 < self.node_ids().len()
                                &&& 0 <= h.1 < max_depth as int
                                &&& 0 <= h.2 <= out_at(*self, h.0).len()
                            } by {
                                assert(frames_view(stack@)[k] == sk.0[k]);
                            }
                        }
                    }
                    proof {
                        let next = if cont {
                            sk.0.push((t as int, d as int, 0))
                        } else {
                            sk.0.drop_last()
                        };
                        assert(frames_view(stack@) == next);
                        assert(visited@ == sk.1);
                        assert forall|more: Seq<bool>|
                            #[trigger] dfs_visits_with(*self, sg, m, ans.push(cont) + more) == done.push(v)
                                + dfs_reports_with(*self, m, frames_view(stack@), visited@, more).map_values(
                                |r: (int, EdgeId, int)| visit_of(r),
                            ) by {
                            let cm = seq![cont] + more;
                            assert(ans.push(cont) + more =~= ans + cm);
                            assert(dfs_visits_with(*self, sg, m, ans + cm) == done + dfs_reports_with(
                                *self,
                                m,
                                fs,
                                marks,
                                cm,
                            ).map_values(|r: (int, EdgeId, int)| visit_of(r)));
                            assert(cm[0] == cont);
                            assert(later_answers(cm) =~= more);
                            let tail = dfs_reports_with(*self, m, next, sk.1, more);
                            assert(dfs_reports_with(*self, m, fs, marks, cm) == seq![(t as int, e, d as int)]
                                + tail);
                            let mt = tail.map_values(|r: (int, EdgeId, int)| visit_of(r));
                            assert((seq![(t as int, e, d as int)] + tail).map_values(
                                |r: (int, EdgeId, int)| visit_of(r),
                            ) =~= seq![v] + mt);
                            assert(done + (seq![v] + mt) =~= done.push(v) + mt);
                        }
                        assert(event_fits(*self, gev, v));
                        evs = evs.push(gev);
                        ans = ans.push(cont);
                        done = done.push(v);
                    }
                },
            }
        }
    }

    fn bfs_with_callback<F: FnMut(TraversalEvent<'_, N, E>) -> bool>(
        &self,
        start: NodeId,
        max_depth: usize,
        callback: F,
    ) -> (r: GraphResult<()>)
        requires
            self.wf(),
            forall|ev: TraversalEvent<N, E>| #[trigger] call_requires(callback, (ev,)),
        ensures
            max_depth == 0 ==> r == Err::<(), GraphError>(GraphError::ZeroMaxDepth(0)),
            max_depth > 0 && !self.node_ids().contains(start) ==> r == Err::<(), GraphError>(
                GraphError::UnknownNode(start),
            ),
            max_depth > 0 && self.node_ids().contains(start) ==> r is Ok && exists|
                k: int,
                evs: Seq<TraversalEvent<N, E>>,
            | bfs_answered(*self, callback, start, max_depth, k, evs),
    {
        let ghost c0 = callback;
        let mut cb = callback;
        assert(c0 == callback);
        if max_depth == 0 {
            return Err(GraphError::ZeroMaxDepth(0));
        }
        let si = match self.node_index(start) {
            None => {
                return Err(GraphError::UnknownNode(start));
            },
            Some(si) => si,
        };
        proof {
            lemma_pos_of(self.node_ids(), start);
        }
        let n = self.node_count();
        let mut visited = vec![false; n];
        visited.set(si, true);
        let root = self.node_at(si).1;
        let ghost total = bfs_visits(*self, si as int, max_depth as int);
        let ev0 = TraversalEvent { node_id: start, via_edge: None, depth: 0, node: root, edge: None };
        let ghost gev0 = ev0;
        let cont = cb(ev0);
        let ghost mut evs: Seq<TraversalEvent<N, E>> = seq![gev0];
        proof {
            assert(total[0] == (si as int, None::<EdgeId>, 0int));
            assert(event_fits(*self, evs[0], total[0]));
        }
        if !cont {
            proof {
                assert(bfs_answered(*self, c0, start, max_depth, 0, evs));
            }
            return Ok(());
        }
        let mut queue: VecDeque<(usize, usize)> = VecDeque::new();
        queue.push_back((si, 0));
        let mut cur: Option<(usize, usize, usize)> = None;
        let ghost mut done: Seq<(int, Option<EdgeId>, int)> = seq![(si as int, None::<EdgeId>, 0int)];
        proof {
            assert(queue_view(queue@) =~= seq![(si as int, 0int)]);
            assert(visited@ =~= start_marks(n as nat, si as int));
        }
        loop
            invariant
                self.wf(),
                queue_ok(*self, max_depth as int, queue_view(queue@)),
                cur_ok(*self, max_depth as int, cur_view(cur)),
                visited@.len() == self.node_ids().len(),
                max_depth > 0,
                self.node_ids().contains(start),
                si == pos_of(self.node_ids(), start),
                cb == c0,
                c0 == callback,
                forall|ev: TraversalEvent<N, E>| #[trigger] call_requires(c0, (ev,)),
                total == bfs_visits(*self, si as int, max_depth as int),
                done + bfs_reports(
                    *self,
                    max_depth as int,
                    queue_view(queue@),
                    cur_view(cur),
                    visited@,
                ).map_values(|r: (int, EdgeId, int)| visit_of(r)) == total,
                evs.len() == done.len(),
                forall|j: int| 0 <= j < evs.len() ==> event_fits(*self, #[trigger] evs[j], done[j]),
                forall|j: int| 0 <= j < evs.len() ==> call_ensures(c0, (#[trigger] evs[j],), true),
            decreases count_unvisited(visited@),
        {
            let ghost qv = queue_view(queue@);
            let ghost cv = cur_view(cur);
            let ghost marks = visited@;
            proof {
                lemma_bfs_seek(*self, max_depth as int, qv, cv, marks);
            }
            match self.seek_bfs(max_depth, &mut queue, &mut cur, &mut visited) {
                None => {
                    proof {
                        let rest = bfs_reports(*self, max_depth as int, qv, cv, marks);
                        assert(rest =~= Seq::<(int, EdgeId, int)>::empty());
                        assert(done + rest.map_values(|r: (int, EdgeId, int)| visit_of(r)) =~= done);
                        assert forall|j: int| 0 <= j < evs.len() implies event_fits(*self, #[trigger] evs[j], total[j]) by {}
                        assert(bfs_answered(*self, c0, start, max_depth, evs.len() as int, evs));
                    }
                    return Ok(());
                },
                Some((t, e, ei, d)) => {
                    let ghost sk = bfs_seek(*self, max_depth as int, qv, cv, marks);
                    let ghost rest = bfs_reports(*self, max_depth as int, qv, cv, marks);
                    let (id, node) = self.node_at(t);
                    let edge = self.edge_payload_at(ei);
                    let ev = TraversalEvent { node_id: id, via_edge: Some(e), depth: d, node, edge: Some(edge) };
                    let ghost gev = ev;
                    let cont = cb(ev);
                    let ghost v = (t as int, Some(e), d as int);
                    proof {
                        let tail = bfs_reports(
                            *self,
                            max_depth as int,
                            sk.0.push((t as int, d as int)),
                            sk.1,
                            sk.2,
                        );
                        assert(rest == seq![(t as int, e, d as int)] + tail);
                        let mt = tail.map_values(|r: (int, EdgeId, int)| visit_of(r));
                        assert(rest.map_values(|r: (int, EdgeId, int)| visit_of(r)) =~= seq![v] + mt);
                        assert(done + (seq![v] + mt) =~= done.push(v) + mt);
                        assert(total[done.len() as int] == v);
                        assert(event_fits(*self, gev, v));
                        evs = evs.push(gev);
                        done = done.push(v);
                        assert(done + mt == total);
                    }
                    if !cont {
                        proof {
                            let k = (evs.len() - 1) as int;
                            assert forall|j: int| 0 <= j < evs.len() implies event_fits(*self, #[trigger] evs[j], total[j]) by {
                                assert(total[j] == done[j]);
                            }
                            assert forall|j: int| 0 <= j < k implies call_ensures(c0, (#[trigger] evs[j],), true) by {
                            }
                            assert(bfs_answered(*self, c0, start, max_depth, k, evs));
                        }
                        return Ok(());
                    }
                    queue.push_back((t, d));
                    proof {
                        assert(queue_view(queue@) =~= sk.0.push((t as int, d as int)));
                        assert forall|k: int| 0 <= k < queue_view(queue@).len() implies {
                            let q = #[trigger] queue_view(queue@)[k];
                            &&& 0 <= q.0 < self.node_ids().len()
                            &&& 0 <= q.1 < max_depth as int
                        } by {
                            if k < queue_view(queue@).len() - 1 {
                                assert(queue_view(queue@)[k] == sk.0[k]);
                            }
                        }
                    }
                },
            }
        }
    }
}

impl<N: Node, E: Edge> GraphWalker<N, E> for Graph<N, E> {
    fn bounded_dfs_collect(&self, start: NodeId, max_depth: usize) -> (r: GraphResult<DfsOrder>)
        ensures
            max_depth == 0 ==> r == Err::<DfsOrder, GraphError>(GraphError::ZeroMaxDepth(0)),
            max_depth > 0 && !self.node_ids().contains(start) ==> r == Err::<DfsOrder, GraphError>(
                GraphError::UnknownNode(start),
            ),
            max_depth > 0 && self.node_ids().contains(start) ==> (r matches Ok(o) && {
                &&& o.order@ == dfs_preorder(*self, start, max_depth)
                &&& o.visited_count == o.order@.len()
            }),
    {
        if max_depth == 0 {
            return Err(GraphError::ZeroMaxDepth(0));
        }
        let si = match self.node_index(start) {
            None => {
                return Err(GraphError::UnknownNode(start));
            },
            Some(si) => si,
        };
        let order = self.dfs_order_from(si, max_depth);
        let visited_count = order.len();
        Ok(DfsOrder { order, visited_count })
    }

    fn bounded_bfs_collect(&self, start: NodeId, max_depth: usize) -> (r: GraphResult<BfsOrder>)
        ensures
            max_depth == 0 ==> r == Err::<BfsOrder, GraphError>(GraphError::ZeroMaxDepth(0)),
            max_depth > 0 && !self.node_ids().contains(start) ==> r == Err::<BfsOrder, GraphError>(
                GraphError::UnknownNode(start),
            ),
            max_depth > 0 && self.node_ids().contains(start) ==> (r matches Ok(o) && {
                &&& o.order@ == bfs_visit_order(*self, start, max_depth)
                &&& layers_of(layers_view(o.layers@), o.order@)
            }),
    {
        if max_depth == 0 {
            return Err(GraphError::ZeroMaxDepth(0));
        }
        let si = match self.node_index(start) {
            None => {
                return Err(GraphError::UnknownNode(start));
            },
            Some(si) => si,
        };
        let order = self.bfs_order_from(si, max_depth);
        let layers = group_layers(&order);
        Ok(BfsOrder { layers, order })
    }

    fn connected_components(&self) -> (r: Vec<(ComponentId, Vec<NodeId>)>)
        ensures
            exists|lab: Seq<int>|
                {
                    &&& component_labels(*self, lab, r@.len() as int)
                    &&& forall|k: int|
                        0 <= k < r@.len() ==> (#[trigger] r@[k]).0 == ComponentId(k as u32) && r@[k].1@
                            == labeled_ids(self.node_ids(), lab, k, self.node_ids().len() as int)
                },
    {
        components_of(self)
    }

    fn all_node_ids(&self) -> (r: Vec<NodeId>)
        ensures
            r@ == self.node_ids(),
    {
        let pairs = self.nodes();
        let mut r: Vec<NodeId> = Vec::new();
        let mut i: usize = 0;
        while i < pairs.len()
            invariant
                i <= pairs@.len(),
                pairs@.len() == self.node_ids().len(),
                forall|k: int| 0 <= k < pairs@.len() ==> (#[trigger] pairs@[k]).0 == self.node_ids()[k],
                r@ == self.node_ids().take(i as int),
            decreases pairs@.len() - i,
        {
            r.push(pairs[i].0);
            i = i + 1;
            proof {
                assert(r@ =~= self.node_ids().take(i as int));
            }
        }
        proof {
            assert(self.node_ids().take(i as int) =~= self.node_ids());
        }
        r
    }
}


} // verus!
