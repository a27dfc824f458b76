//! Laws of the bounded traversals: each node is visited at most once, the
//! start comes first at depth 0, every visit lies below the depth limit,
//! every later visit enters its node by an edge from a node visited earlier
//! one level up, and breadth-first depths never decrease.

use vstd::prelude::*;
use crate::graph::edge::{Edge, EdgeId};
use crate::graph::graph::{edges_from, lemma_edges_from_members, lemma_pos_of, lemma_pos_of_unique, pos_of, Graph};
use crate::graph::node::{Node, NodeId};
use crate::graph::walker::{
    bfs_reports, bfs_visits, dfs_reports_with, dfs_visits_with, later_answers, visit_of,
    bfs_measure, bfs_run, bfs_seek, bfs_trace, bfs_visit_order,
    count_unvisited, cur_left, cur_ok, dfs_preorder, dfs_run, dfs_seek, dfs_trace, entry_id,
    entry_ids, frame_done, frames_ok, lemma_bfs_seek, lemma_dfs_seek_frames, lemma_dfs_seek_marks,
    lemma_out_at, out_at, queue_ok, start_marks, target_at,
};

verus! {

/// Depth-first reports name indices unvisited in the starting marks, never
/// the same one twice.
pub proof fn lemma_dfs_run_fresh<N: Node, E: Edge>(
    g: Graph<N, E>,
    max_depth: int,
    stack: Seq<(int, int, int)>,
    visited: Seq<bool>,
)
    ensures
        ({
            let run = dfs_run(g, max_depth, stack, visited);
            &&& forall|k: int|
                0 <= k < run.len() ==> 0 <= (#[trigger] run[k]).0 < visited.len() && !visited[run[k].0]
            &&& forall|a: int, b: int| 0 <= a < b < run.len() ==> run[a].0 != run[b].0
        }),
    decreases count_unvisited(visited),
{
    let r = dfs_seek(g, max_depth, stack, visited);
    lemma_dfs_seek_marks(g, max_depth, stack, visited);
    if let Some(ev) = r.2 {
        let st2 = r.0.push((ev.0, ev.2, 0));
        lemma_dfs_run_fresh(g, max_depth, st2, r.1);
        let run = dfs_run(g, max_depth, stack, visited);
        let tail = dfs_run(g, max_depth, st2, r.1);
        assert(run == seq![(ev.0, ev.2)] + tail);
        assert forall|k: int| 0 <= k < run.len() implies 0 <= (#[trigger] run[k]).0 < visited.len()
            && !visited[run[k].0] by {
            if k > 0 {
                assert(run[k] == tail[k - 1]);
                assert(r.1[tail[k - 1].0] == visited.update(ev.0, true)[tail[k - 1].0]);
            }
        }
        assert forall|a: int, b: int| 0 <= a < b < run.len() implies run[a].0 != run[b].0 by {
            assert(run[b] == tail[b - 1]);
            if a > 0 {
                assert(run[a] == tail[a - 1]);
            } else {
                assert(!r.1[tail[b - 1].0]);
            }
        }
    }
}

/// Breadth-first reports name indices unvisited in the starting marks,
/// never the same one twice.
pub proof fn lemma_bfs_run_fresh<N: Node, E: Edge>(
    g: Graph<N, E>,
    max_depth: int,
    queue: Seq<(int, int)>,
    cur: Option<(int, int, int)>,
    visited: Seq<bool>,
)
    ensures
        ({
            let run = bfs_run(g, max_depth, queue, cur, visited);
            &&& forall|k: int|
                0 <= k < run.len() ==> 0 <= (#[trigger] run[k]).0 < visited.len() && !visited[run[k].0]
            &&& forall|a: int, b: int| 0 <= a < b < run.len() ==> run[a].0 != run[b].0
        }),
    decreases count_unvisited(visited),
{
    let r = bfs_seek(g, max_depth, queue, cur, visited);
    lemma_bfs_seek(g, max_depth, queue, cur, visited);
    if let Some(ev) = r.3 {
        let q2 = r.0.push((ev.0, ev.2));
        lemma_bfs_run_fresh(g, max_depth, q2, r.1, r.2);
        let run = bfs_run(g, max_depth, queue, cur, visited);
        let tail = bfs_run(g, max_depth, q2, r.1, r.2);
        assert(run == seq![(ev.0, ev.2)] + tail);
        assert forall|k: int| 0 <= k < run.len() implies 0 <= (#[trigger] run[k]).0 < visited.len()
            && !visited[run[k].0] by {
            if k > 0 {
                assert(run[k] == tail[k - 1]);
                assert(r.2[tail[k - 1].0] == visited.update(ev.0, true)[tail[k - 1].0]);
            }
        }
        assert forall|a: int, b: int| 0 <= a < b < run.len() implies run[a].0 != run[b].0 by {
            assert(run[b] == tail[b - 1]);
            if a > 0 {
                assert(run[a] == tail[a - 1]);
            } else {
                assert(!r.2[tail[b - 1].0]);
            }
        }
    }
}

/// Depth-first reports from well-formed frames lie at depths from 1 to
/// below the limit.
pub proof fn lemma_dfs_run_depths<N: Node, E: Edge>(
    g: Graph<N, E>,
    max_depth: int,
    stack: Seq<(int, int, int)>,
    visited: Seq<bool>,
)
    requires
        frames_ok(g, max_depth, stack),
        visited.len() == g.node_ids().len(),
    ensures
        ({
            let run = dfs_run(g, max_depth, stack, visited);
            forall|k: int| 0 <= k < run.len() ==> 1 <= (#[trigger] run[k]).1 < max_depth
        }),
    decreases count_unvisited(visited),
{
    let r = dfs_seek(g, max_depth, stack, visited);
    lemma_dfs_seek_marks(g, max_depth, stack, visited);
    lemma_dfs_seek_frames(g, max_depth, stack, visited);
    if let Some(ev) = r.2 {
        let st2 = r.0.push((ev.0, ev.2, 0));
        assert(frames_ok(g, max_depth, st2)) by {
            assert forall|k: int| 0 <= k < st2.len() implies {
                let f = #[trigger] st2[k];
                &&& 0 <= f.0 < g.node_ids().len()
                &&& 0 <= f.1 < max_depth
                &&& 0 <= f.2 <= crate::graph::walker::out_at(g, f.0).len()
            } by {
                if k < r.0.len() {
                    assert(st2[k] == r.0[k]);
                }
            }
        }
        lemma_dfs_run_depths(g, max_depth, st2, r.1);
        let run = dfs_run(g, max_depth, stack, visited);
        let tail = dfs_run(g, max_depth, st2, r.1);
        assert(run == seq![(ev.0, ev.2)] + tail);
        assert forall|k: int| 0 <= k < run.len() implies 1 <= (#[trigger] run[k]).1 < max_depth by {
            if k > 0 {
                assert(run[k] == tail[k - 1]);
            }
        }
    }
}

/// Breadth-first reports from well-formed state lie at depths from 1 to
/// below the limit.
pub proof fn lemma_bfs_run_depths<N: Node, E: Edge>(
    g: Graph<N, E>,
    max_depth: int,
    queue: Seq<(int, int)>,
    cur: Option<(int, int, int)>,
    visited: Seq<bool>,
)
    requires
        queue_ok(g, max_depth, queue),
        cur_ok(g, max_depth, cur),
        visited.len() == g.node_ids().len(),
    ensures
        ({
            let run = bfs_run(g, max_depth, queue, cur, visited);
            forall|k: int| 0 <= k < run.len() ==> 1 <= (#[trigger] run[k]).1 < max_depth
        }),
    decreases count_unvisited(visited),
{
    let r = bfs_seek(g, max_depth, queue, cur, visited);
    lemma_bfs_seek(g, max_depth, queue, cur, visited);
    if let Some(ev) = r.3 {
        let q2 = r.0.push((ev.0, ev.2));
        assert(queue_ok(g, max_depth, q2)) by {
            assert forall|k: int| 0 <= k < q2.len() implies {
                let q = #[trigger] q2[k];
                &&& 0 <= q.0 < g.node_ids().len()
                &&& 0 <= q.1 < max_depth
            } by {
                if k < r.0.len() {
                    assert(q2[k] == r.0[k]);
                }
            }
        }
        lemma_bfs_run_depths(g, max_depth, q2, r.1, r.2);
        let run = bfs_run(g, max_depth, queue, cur, visited);
        let tail = bfs_run(g, max_depth, q2, r.1, r.2);
        assert(run == seq![(ev.0, ev.2)] + tail);
        assert forall|k: int| 0 <= k < run.len() implies 1 <= (#[trigger] run[k]).1 < max_depth by {
            if k > 0 {
                assert(run[k] == tail[k - 1]);
            }
        }
    }
}

/// A traversal order of distinct in-range indices maps to distinct ids.
proof fn lemma_trace_ids_unique<N: Node, E: Edge>(g: Graph<N, E>, trace: Seq<(int, int)>)
    requires
        g.wf(),
        forall|k: int| 0 <= k < trace.len() ==> 0 <= (#[trigger] trace[k]).0 < g.node_ids().len(),
        forall|a: int, b: int| 0 <= a < b < trace.len() ==> trace[a].0 != trace[b].0,
    ensures
        entry_ids(trace.map_values(|p: (int, int)| entry_id(g, p))).no_duplicates(),
{
    let ids = entry_ids(trace.map_values(|p: (int, int)| entry_id(g, p)));
    g.lemma_unique_ids();
    assert forall|a: int, b: int| 0 <= a < b < ids.len() implies ids[a] != ids[b] by {
        assert(ids[a] == g.node_ids()[trace[a].0]);
        assert(ids[b] == g.node_ids()[trace[b].0]);
        assert(trace[a].0 != trace[b].0);
    }
}

/// Index of a stored node.
proof fn lemma_start_index<N: Node, E: Edge>(g: Graph<N, E>, start: NodeId)
    requires
        g.node_ids().contains(start),
    ensures
        0 <= pos_of(g.node_ids(), start) < g.node_ids().len(),
        g.node_ids()[pos_of(g.node_ids(), start)] == start,
{
    lemma_pos_of(g.node_ids(), start);
}

/// A bounded depth-first traversal visits each node at most once (self
/// loops and parallel edges never repeat a visit).
pub proof fn law_dfs_visits_once<N: Node, E: Edge>(g: Graph<N, E>, start: NodeId, max_depth: usize)
    requires
        g.wf(),
        g.node_ids().contains(start),
        max_depth >= 1,
    ensures
        entry_ids(dfs_preorder(g, start, max_depth)).no_duplicates(),
{
    let s = pos_of(g.node_ids(), start);
    lemma_start_index(g, start);
    let marks = start_marks(g.node_ids().len(), s);
    let run = dfs_run(g, max_depth as int, seq![(s, 0, 0)], marks);
    lemma_dfs_run_fresh(g, max_depth as int, seq![(s, 0, 0)], marks);
    let trace = dfs_trace(g, s, max_depth as int);
    assert(trace == seq![(s, 0int)] + run);
    assert forall|k: int| 0 <= k < trace.len() implies 0 <= (#[trigger] trace[k]).0 < g.node_ids().len() by {
        if k > 0 {
            assert(trace[k] == run[k - 1]);
        }
    }
    assert forall|a: int, b: int| 0 <= a < b < trace.len() implies trace[a].0 != trace[b].0 by {
        assert(trace[b] == run[b - 1]);
        if a > 0 {
            assert(trace[a] == run[a - 1]);
        } else {
            assert(!marks[run[b - 1].0]);
        }
    }
    lemma_trace_ids_unique(g, trace);
}

/// A bounded breadth-first traversal visits each node at most once.
pub proof fn law_bfs_visits_once<N: Node, E: Edge>(g: Graph<N, E>, start: NodeId, max_depth: usize)
    requires
        g.wf(),
        g.node_ids().contains(start),
        max_depth >= 1,
    ensures
        entry_ids(bfs_visit_order(g, start, max_depth)).no_duplicates(),
{
    let s = pos_of(g.node_ids(), start);
    lemma_start_index(g, start);
    let marks = start_marks(g.node_ids().len(), s);
    let run = bfs_run(g, max_depth as int, seq![(s, 0)], None, marks);
    lemma_bfs_run_fresh(g, max_depth as int, seq![(s, 0)], None, marks);
    let trace = bfs_trace(g, s, max_depth as int);
    assert(trace == seq![(s, 0int)] + run);
    assert forall|k: int| 0 <= k < trace.len() implies 0 <= (#[trigger] trace[k]).0 < g.node_ids().len() by {
        if k > 0 {
            assert(trace[k] == run[k - 1]);
        }
    }
    assert forall|a: int, b: int| 0 <= a < b < trace.len() implies trace[a].0 != trace[b].0 by {
        assert(trace[b] == run[b - 1]);
        if a > 0 {
            assert(trace[a] == run[a - 1]);
        } else {
            assert(!marks[run[b - 1].0]);
        }
    }
    lemma_trace_ids_unique(g, trace);
}

/// A bounded depth-first traversal starts with `(start, 0)`, and every later
/// visit lies at a depth from 1 to below `max_depth`.
pub proof fn law_dfs_depth_bound<N: Node, E: Edge>(g: Graph<N, E>, start: NodeId, max_depth: usize)
    requires
        g.wf(),
        g.node_ids().contains(start),
        max_depth >= 1,
    ensures
        dfs_preorder(g, start, max_depth).len() >= 1,
        dfs_preorder(g, start, max_depth)[0] == (start, 0usize),
        forall|k: int|
            1 <= k < dfs_preorder(g, start, max_depth).len() ==> 1 <= (#[trigger] dfs_preorder(
                g,
                start,
                max_depth,
            )[k]).1 < max_depth,
{
    let s = pos_of(g.node_ids(), start);
    lemma_start_index(g, start);
    let marks = start_marks(g.node_ids().len(), s);
    let st = seq![(s, 0int, 0int)];
    assert(frames_ok(g, max_depth as int, st)) by {
        assert(st[0] == (s, 0int, 0int));
    }
    let run = dfs_run(g, max_depth as int, st, marks);
    lemma_dfs_run_depths(g, max_depth as int, st, marks);
    let trace = dfs_trace(g, s, max_depth as int);
    assert(trace == seq![(s, 0int)] + run);
    let order = dfs_preorder(g, start, max_depth);
    assert(order[0] == entry_id(g, trace[0]));
    assert forall|k: int| 1 <= k < order.len() implies 1 <= (#[trigger] order[k]).1 < max_depth by {
        assert(order[k] == entry_id(g, trace[k]));
        assert(trace[k] == run[k - 1]);
    }
}

/// A bounded breadth-first traversal starts with `(start, 0)`, and every
/// later visit lies at a depth from 1 to below `max_depth`.
pub proof fn law_bfs_depth_bound<N: Node, E: Edge>(g: Graph<N, E>, start: NodeId, max_depth: usize)
    requires
        g.wf(),
        g.node_ids().contains(start),
        max_depth >= 1,
    ensures
        bfs_visit_order(g, start, max_depth).len() >= 1,
        bfs_visit_order(g, start, max_depth)[0] == (start, 0usize),
        forall|k: int|
            1 <= k < bfs_visit_order(g, start, max_depth).len() ==> 1 <= (
            #[trigger] bfs_visit_order(g, start, max_depth)[k]).1 < max_depth,
{
    let s = pos_of(g.node_ids(), start);
    lemma_start_index(g, start);
    let marks = start_marks(g.node_ids().len(), s);
    let q = seq![(s, 0int)];
    assert(queue_ok(g, max_depth as int, q)) by {
        assert(q[0] == (s, 0int));
    }
    let run = bfs_run(g, max_depth as int, q, None, marks);
    lemma_bfs_run_depths(g, max_depth as int, q, None, marks);
    let trace = bfs_trace(g, s, max_depth as int);
    assert(trace == seq![(s, 0int)] + run);
    let order = bfs_visit_order(g, start, max_depth);
    assert(order[0] == entry_id(g, trace[0]));
    assert forall|k: int| 1 <= k < order.len() implies 1 <= (#[trigger] order[k]).1 < max_depth by {
        assert(order[k] == entry_id(g, trace[k]));
        assert(trace[k] == run[k - 1]);
    }
}


/// Edge `e` is among the edges leaving node index `a` and enters node
/// index `b`.
pub open spec fn leads_at<N: Node, E: Edge>(g: Graph<N, E>, a: int, e: EdgeId, b: int) -> bool {
    exists|k: int| 0 <= k < out_at(g, a).len() && out_at(g, a)[k] == e && target_at(g, e) == b
}

/// Some edge leads from node index `a` to node index `b`.
pub open spec fn linked_at<N: Node, E: Edge>(g: Graph<N, E>, a: int, b: int) -> bool {
    exists|k: int| 0 <= k < out_at(g, a).len() && target_at(g, out_at(g, a)[k]) == b
}

/// Every entry of `order` after the first names a node that a stored edge
/// enters from the node of an earlier entry one level up.
pub open spec fn entered_from_parent<N: Node, E: Edge>(g: Graph<N, E>, order: Seq<(NodeId, usize)>) -> bool {
    forall|k: int| 1 <= k < order.len() ==> #[trigger] entered_at(g, order, k)
}

/// Entry `k` of `order` names a node that a stored edge enters from the
/// node of an earlier entry one level up.
pub open spec fn entered_at<N: Node, E: Edge>(g: Graph<N, E>, order: Seq<(NodeId, usize)>, k: int) -> bool {
    exists|j: int| 0 <= j < k && order[j].1 + 1 == order[k].1 && has_edge(g, order[j].0, order[k].0)
}

/// Some stored edge leads from node `x` to node `y`.
pub open spec fn has_edge<N: Node, E: Edge>(g: Graph<N, E>, x: NodeId, y: NodeId) -> bool {
    exists|j: int| 0 <= j < g.edge_list().len() && g.edge_list()[j].1 == x && g.edge_list()[j].2 == y
}

/// An edge between node indices is a stored edge between their ids.
proof fn lemma_linked_has_edge<N: Node, E: Edge>(g: Graph<N, E>, a: int, b: int)
    requires
        g.wf(),
        0 <= a < g.node_ids().len(),
        linked_at(g, a, b),
    ensures
        0 <= b < g.node_ids().len(),
        has_edge(g, g.node_ids()[a], g.node_ids()[b]),
{
    let k = choose|k: int| 0 <= k < out_at(g, a).len() && target_at(g, out_at(g, a)[k]) == b;
    let e = out_at(g, a)[k];
    lemma_out_at(g, a, k);
    g.lemma_out_edges_stored(g.node_ids()[a]);
    lemma_edges_from_members(g.edge_list(), g.node_ids()[a]);
    assert(edges_from(g.edge_list(), g.node_ids()[a])[k] == e);
    let j = choose|j: int|
        0 <= j < g.edge_list().len() && g.edge_list()[j].0 == e && g.edge_list()[j].1
            == g.node_ids()[a];
    g.lemma_edge_dst_at(j);
    lemma_pos_of(g.node_ids(), g.edge_dst(e));
    assert(g.node_ids()[b] == g.edge_dst(e));
    assert(g.edge_list()[j].2 == g.edge_dst(e));
}

/// A depth-first search step keeps the `(node, depth)` of the frames it
/// leaves on the stack, and reports a node entered by an edge from the top
/// remaining frame's node, one level below it.
pub proof fn lemma_dfs_seek_source<N: Node, E: Edge>(
    g: Graph<N, E>,
    max_depth: int,
    stack: Seq<(int, int, int)>,
    visited: Seq<bool>,
)
    requires
        frames_ok(g, max_depth, stack),
    ensures
        ({
            let r = dfs_seek(g, max_depth, stack, visited);
            &&& r.0.len() <= stack.len()
            &&& forall|m: int|
                0 <= m < r.0.len() ==> (#[trigger] r.0[m]).0 == stack[m].0 && r.0[m].1 == stack[m].1
            &&& r.2 matches Some(ev) ==> {
                &&& r.0.len() >= 1
                &&& ev.2 == stack[r.0.len() - 1].1 + 1
                &&& linked_at(g, stack[r.0.len() - 1].0, ev.0)
            }
        }),
    decreases stack.len(), if stack.len() > 0 {
        out_at(g, stack.last().0).len() - stack.last().2
    } else {
        0
    },
{
    if stack.len() > 0 {
        let f = stack.last();
        assert(stack[stack.len() - 1] == f);
        if frame_done(g, max_depth, f) {
            let p = stack.drop_last();
            assert(frames_ok(g, max_depth, p)) by {
                assert forall|k: int| 0 <= k < p.len() implies {
                    let h = #[trigger] p[k];
                    &&& 0 <= h.0 < g.node_ids().len()
                    &&& 0 <= h.1 < max_depth
                    &&& 0 <= h.2 <= out_at(g, h.0).len()
                } by {
                    assert(p[k] == stack[k]);
                }
            }
            lemma_dfs_seek_source(g, max_depth, p, visited);
            let r = dfs_seek(g, max_depth, p, visited);
            assert forall|m: int| 0 <= m < r.0.len() implies (#[trigger] r.0[m]).0 == stack[m].0
                && r.0[m].1 == stack[m].1 by {
                assert(p[m] == stack[m]);
            }
            if r.2 is Some {
                assert(p[r.0.len() - 1] == stack[r.0.len() - 1]);
            }
        } else {
            let e = out_at(g, f.0)[f.2];
            let t = target_at(g, e);
            let moved = stack.update(stack.len() - 1, (f.0, f.1, f.2 + 1));
            if 0 <= t < visited.len() && !visited[t] {
                assert(linked_at(g, f.0, t));
            } else {
                assert(frames_ok(g, max_depth, moved)) by {
                    assert forall|k: int| 0 <= k < moved.len() implies {
                        let h = #[trigger] moved[k];
                        &&& 0 <= h.0 < g.node_ids().len()
                        &&& 0 <= h.1 < max_depth
                        &&& 0 <= h.2 <= out_at(g, h.0).len()
                    } by {
                        if k != stack.len() - 1 {
                            assert(moved[k] == stack[k]);
                        }
                    }
                }
                assert(moved.last() == (f.0, f.1, f.2 + 1));
                lemma_dfs_seek_source(g, max_depth, moved, visited);
                let r = dfs_seek(g, max_depth, moved, visited);
                assert forall|m: int| 0 <= m < r.0.len() implies (#[trigger] r.0[m]).0 == stack[m].0
                    && r.0[m].1 == stack[m].1 by {
                    assert(moved[m].0 == stack[m].0 && moved[m].1 == stack[m].1);
                }
                if r.2 is Some {
                    let m = r.0.len() - 1;
                    assert(moved[m].0 == stack[m].0 && moved[m].1 == stack[m].1);
                }
            }
        }
    }
}

/// Entry `k` of `all` (node index, depth) is entered by an edge from the
/// node of an earlier entry one level up.
pub open spec fn parent_before<N: Node, E: Edge>(g: Graph<N, E>, all: Seq<(int, int)>, k: int) -> bool {
    exists|j: int| 0 <= j < k && all[j].1 + 1 == all[k].1 && linked_at(g, all[j].0, all[k].0)
}

/// Pushing a frame for a freshly visited node keeps the frames well formed.
proof fn lemma_push_frame<N: Node, E: Edge>(
    g: Graph<N, E>,
    max_depth: int,
    stack: Seq<(int, int, int)>,
    t: int,
    d: int,
)
    requires
        frames_ok(g, max_depth, stack),
        0 <= t < g.node_ids().len(),
        0 <= d < max_depth,
    ensures
        frames_ok(g, max_depth, stack.push((t, d, 0))),
{
    let st2 = stack.push((t, d, 0));
    assert forall|k: int| 0 <= k < st2.len() implies {
        let f = #[trigger] st2[k];
        &&& 0 <= f.0 < g.node_ids().len()
        &&& 0 <= f.1 < max_depth
        &&& 0 <= f.2 <= out_at(g, f.0).len()
    } by {
        if k < stack.len() {
            assert(st2[k] == stack[k]);
        }
    }
}

/// Depth-first reports enter their node by an edge from an earlier visit
/// one level up, given that every frame's `(node, depth)` was visited before
/// (`done`).
pub proof fn lemma_dfs_run_parent<N: Node, E: Edge>(
    g: Graph<N, E>,
    max_depth: int,
    stack: Seq<(int, int, int)>,
    visited: Seq<bool>,
    done: Seq<(int, int)>,
)
    requires
        frames_ok(g, max_depth, stack),
        visited.len() == g.node_ids().len(),
        forall|m: int| 0 <= m < stack.len() ==> done.contains(((#[trigger] stack[m]).0, stack[m].1)),
    ensures
        forall|k: int|
            0 <= k < dfs_run(g, max_depth, stack, visited).len() ==> #[trigger] parent_before(
                g,
                done + dfs_run(g, max_depth, stack, visited),
                done.len() + k,
            ),
    decreases count_unvisited(visited),
{
    let r = dfs_seek(g, max_depth, stack, visited);
    lemma_dfs_seek_marks(g, max_depth, stack, visited);
    lemma_dfs_seek_frames(g, max_depth, stack, visited);
    lemma_dfs_seek_source(g, max_depth, stack, visited);
    if let Some(ev) = r.2 {
        let st2 = r.0.push((ev.0, ev.2, 0));
        let done2 = done.push((ev.0, ev.2));
        lemma_push_frame(g, max_depth, r.0, ev.0, ev.2);
        assert forall|m: int| 0 <= m < st2.len() implies done2.contains(((#[trigger] st2[m]).0, st2[m].1)) by {
            if m < r.0.len() {
                assert(st2[m] == r.0[m]);
                assert(done.contains((stack[m].0, stack[m].1)));
                let w = choose|w: int| 0 <= w < done.len() && done[w] == (stack[m].0, stack[m].1);
                assert(done2[w] == done[w]);
            } else {
                assert(done2[done.len() as int] == (ev.0, ev.2));
            }
        }
        lemma_dfs_run_parent(g, max_depth, st2, r.1, done2);
        let run = dfs_run(g, max_depth, stack, visited);
        let tail = dfs_run(g, max_depth, st2, r.1);
        assert(run == seq![(ev.0, ev.2)] + tail);
        let all = done + run;
        assert(all =~= done2 + tail);
        let top = r.0.len() - 1;
        assert(done.contains((stack[top].0, stack[top].1)));
        let w0 = choose|w: int| 0 <= w < done.len() && done[w] == (stack[top].0, stack[top].1);
        assert forall|k: int| 0 <= k < run.len() implies #[trigger] parent_before(g, all, done.len() + k) by {
            if k == 0 {
                assert(all[w0] == done[w0]);
                assert(all[done.len() as int] == (ev.0, ev.2));
            } else {
                assert(parent_before(g, done2 + tail, done2.len() + (k - 1)));
            }
        }
    }
}

/// Every visit of a bounded depth-first traversal after the first enters
/// its node by a stored edge from a node visited earlier, one level up.
pub proof fn law_dfs_entered_from_parent<N: Node, E: Edge>(
    g: Graph<N, E>,
    start: NodeId,
    max_depth: usize,
)
    requires
        g.wf(),
        g.node_ids().contains(start),
        max_depth >= 1,
    ensures
        entered_from_parent(g, dfs_preorder(g, start, max_depth)),
{
    let s = pos_of(g.node_ids(), start);
    lemma_start_index(g, start);
    let marks = start_marks(g.node_ids().len(), s);
    let st = seq![(s, 0int, 0int)];
    let done = seq![(s, 0int)];
    assert(frames_ok(g, max_depth as int, st)) by {
        assert(st[0] == (s, 0int, 0int));
    }
    assert(done[0] == (st[0].0, st[0].1));
    lemma_dfs_run_parent(g, max_depth as int, st, marks, done);
    lemma_dfs_run_fresh(g, max_depth as int, st, marks);
    let run = dfs_run(g, max_depth as int, st, marks);
    let trace = dfs_trace(g, s, max_depth as int);
    assert(trace == done + run);
    let order = dfs_preorder(g, start, max_depth);
    lemma_dfs_run_depths(g, max_depth as int, st, marks);
    assert forall|k: int| 1 <= k < order.len() implies #[trigger] entered_at(g, order, k) by {
        assert(parent_before(g, done + run, 1 + (k - 1)));
        let j = choose|j: int|
            0 <= j < k && trace[j].1 + 1 == trace[k].1 && linked_at(g, trace[j].0, trace[k].0);
        let tj = trace[j];
        assert(0 <= tj.0 < g.node_ids().len() && 0 <= tj.1) by {
            if j > 0 {
                assert(trace[j] == run[j - 1]);
            }
        }
        lemma_linked_has_edge(g, tj.0, trace[k].0);
        assert(order[j] == entry_id(g, tj));
        assert(order[k] == entry_id(g, trace[k]));
        assert(0 <= j < k && order[j].1 + 1 == order[k].1 && has_edge(g, order[j].0, order[k].0));
    }
    assert(entered_from_parent(g, order));
}


/// The frame being expanded and the queue entries of a well-formed
/// breadth-first state stay well formed when the queue's front is taken.
proof fn lemma_queue_front<N: Node, E: Edge>(g: Graph<N, E>, max_depth: int, queue: Seq<(int, int)>)
    requires
        queue_ok(g, max_depth, queue),
        queue.len() > 0,
    ensures
        queue_ok(g, max_depth, queue.drop_first()),
        cur_ok(g, max_depth, Some((queue[0].0, queue[0].1, 0int))),
{
    assert forall|k: int| 0 <= k < queue.drop_first().len() implies {
        let q = #[trigger] queue.drop_first()[k];
        &&& 0 <= q.0 < g.node_ids().len()
        &&& 0 <= q.1 < max_depth
    } by {
        assert(queue.drop_first()[k] == queue[k + 1]);
    }
    assert(queue[0] == queue[0]);
    assert(seq![(queue[0].0, queue[0].1, 0int)][0] == (queue[0].0, queue[0].1, 0int));
}

/// Moving past one edge keeps the expanded frame well formed.
proof fn lemma_cur_moved<N: Node, E: Edge>(g: Graph<N, E>, max_depth: int, f: (int, int, int))
    requires
        cur_ok(g, max_depth, Some(f)),
        !frame_done(g, max_depth, f),
    ensures
        cur_ok(g, max_depth, Some((f.0, f.1, f.2 + 1))),
        0 <= f.0 < g.node_ids().len(),
        0 <= f.1,
        0 <= f.2 < out_at(g, f.0).len(),
{
    assert(seq![f][0] == f);
    assert(seq![(f.0, f.1, f.2 + 1)][0] == (f.0, f.1, f.2 + 1));
}

/// A breadth-first search step leaves a suffix of the queue, expands a
/// frame taken from the queue or the one being expanded, and reports a
/// node entered by an edge from that frame's node, one level below it.
pub proof fn lemma_bfs_seek_source<N: Node, E: Edge>(
    g: Graph<N, E>,
    max_depth: int,
    queue: Seq<(int, int)>,
    cur: Option<(int, int, int)>,
    visited: Seq<bool>,
)
    requires
        queue_ok(g, max_depth, queue),
        cur_ok(g, max_depth, cur),
    ensures
        ({
            let r = bfs_seek(g, max_depth, queue, cur, visited);
            &&& forall|m: int| 0 <= m < r.0.len() ==> queue.contains(#[trigger] r.0[m])
            &&& r.1 matches Some(f) ==> (cur matches Some(c) && c.0 == f.0 && c.1 == f.1)
                || queue.contains((f.0, f.1))
            &&& r.3 matches Some(ev) ==> (r.1 matches Some(f) && ev.2 == f.1 + 1 && linked_at(
                g,
                f.0,
                ev.0,
            ) && leads_at(g, f.0, ev.1, ev.0))
        }),
    decreases bfs_measure(queue, cur), cur_left(g, cur),
{
    match cur {
        None => {
            if queue.len() > 0 {
                let nf = Some((queue[0].0, queue[0].1, 0int));
                let rest = queue.drop_first();
                lemma_queue_front(g, max_depth, queue);
                lemma_bfs_seek_source(g, max_depth, rest, nf, visited);
                let r = bfs_seek(g, max_depth, rest, nf, visited);
                assert forall|m: int| 0 <= m < r.0.len() implies queue.contains(#[trigger] r.0[m]) by {
                    assert(rest.contains(r.0[m]));
                    let w = choose|w: int| 0 <= w < rest.len() && rest[w] == r.0[m];
                    assert(queue[w + 1] == r.0[m]);
                }
                if let Some(f) = r.1 {
                    if rest.contains((f.0, f.1)) {
                        let w = choose|w: int| 0 <= w < rest.len() && rest[w] == (f.0, f.1);
                        assert(queue[w + 1] == (f.0, f.1));
                    } else {
                        assert(queue[0] == (f.0, f.1));
                    }
                }
            }
        },
        Some(f) => {
            if frame_done(g, max_depth, f) {
                lemma_bfs_seek_source(g, max_depth, queue, None, visited);
            } else {
                let e = out_at(g, f.0)[f.2];
                let t = target_at(g, e);
                let moved = Some((f.0, f.1, f.2 + 1));
                lemma_cur_moved(g, max_depth, f);
                if 0 <= t < visited.len() && !visited[t] {
                    assert(linked_at(g, f.0, t));
                    assert(leads_at(g, f.0, e, t));
                } else {
                    lemma_bfs_seek_source(g, max_depth, queue, moved, visited);
                }
            }
        },
    }
}

/// Breadth-first reports enter their node by an edge from an earlier visit
/// one level up, given that the queue's entries and the expanded frame were
/// visited before (`done`).
pub proof fn lemma_bfs_run_parent<N: Node, E: Edge>(
    g: Graph<N, E>,
    max_depth: int,
    queue: Seq<(int, int)>,
    cur: Option<(int, int, int)>,
    visited: Seq<bool>,
    done: Seq<(int, int)>,
)
    requires
        queue_ok(g, max_depth, queue),
        cur_ok(g, max_depth, cur),
        visited.len() == g.node_ids().len(),
        forall|m: int| 0 <= m < queue.len() ==> done.contains(#[trigger] queue[m]),
        cur matches Some(c) ==> done.contains((c.0, c.1)),
    ensures
        forall|k: int|
            0 <= k < bfs_run(g, max_depth, queue, cur, visited).len() ==> #[trigger] parent_before(
                g,
                done + bfs_run(g, max_depth, queue, cur, visited),
                done.len() + k,
            ),
    decreases count_unvisited(visited),
{
    let r = bfs_seek(g, max_depth, queue, cur, visited);
    lemma_bfs_seek(g, max_depth, queue, cur, visited);
    lemma_bfs_seek_source(g, max_depth, queue, cur, visited);
    if let Some(ev) = r.3 {
        let f = r.1->0;
        let q2 = r.0.push((ev.0, ev.2));
        let done2 = done.push((ev.0, ev.2));
        assert(queue_ok(g, max_depth, q2)) by {
            assert forall|k: int| 0 <= k < q2.len() implies {
                let q = #[trigger] q2[k];
                &&& 0 <= q.0 < g.node_ids().len()
                &&& 0 <= q.1 < max_depth
            } by {
                if k < r.0.len() {
                    assert(q2[k] == r.0[k]);
                }
            }
        }
        let fp = (f.0, f.1);
        assert(done.contains(fp)) by {
            if !queue.contains(fp) {
                let c = cur->0;
                assert(fp == (c.0, c.1));
            } else {
                let w = choose|w: int| 0 <= w < queue.len() && queue[w] == fp;
                assert(done.contains(queue[w]));
            }
        }
        let w0 = choose|w: int| 0 <= w < done.len() && done[w] == fp;
        assert forall|m: int| 0 <= m < q2.len() implies done2.contains(#[trigger] q2[m]) by {
            if m < r.0.len() {
                assert(q2[m] == r.0[m]);
                assert(queue.contains(r.0[m]));
                let w = choose|w: int| 0 <= w < queue.len() && queue[w] == r.0[m];
                assert(done.contains(queue[w]));
                let v = choose|v: int| 0 <= v < done.len() && done[v] == queue[w];
                assert(done2[v] == done[v]);
            } else {
                assert(done2[done.len() as int] == (ev.0, ev.2));
            }
        }
        assert(done2[w0] == fp);
        lemma_bfs_run_parent(g, max_depth, q2, r.1, r.2, done2);
        let run = bfs_run(g, max_depth, queue, cur, visited);
        let tail = bfs_run(g, max_depth, q2, r.1, r.2);
        assert(run == seq![(ev.0, ev.2)] + tail);
        let all = done + run;
        assert(all =~= done2 + tail);
        assert forall|k: int| 0 <= k < run.len() implies #[trigger] parent_before(g, all, done.len() + k) by {
            if k == 0 {
                assert(all[w0] == done[w0]);
                assert(all[done.len() as int] == (ev.0, ev.2));
            } else {
                assert(parent_before(g, done2 + tail, done2.len() + (k - 1)));
            }
        }
    }
}

/// Entry `k` of `all` (node index, depth) is entered by edge `e`, which
/// leaves the node of an earlier entry one level up.
pub open spec fn edge_parent_before<N: Node, E: Edge>(g: Graph<N, E>, all: Seq<(int, int)>, k: int, e: EdgeId) -> bool {
    exists|j: int| 0 <= j < k && all[j].1 + 1 == all[k].1 && leads_at(g, all[j].0, e, all[k].0)
}

/// Each breadth-first report enters its node by its own edge, which leaves
/// an earlier visit one level up, given that the queue's entries and the
/// expanded frame were visited before (`done`).
pub proof fn lemma_bfs_reports_parent<N: Node, E: Edge>(
    g: Graph<N, E>,
    max_depth: int,
    queue: Seq<(int, int)>,
    cur: Option<(int, int, int)>,
    visited: Seq<bool>,
    done: Seq<(int, int)>,
)
    requires
        queue_ok(g, max_depth, queue),
        cur_ok(g, max_depth, cur),
        visited.len() == g.node_ids().len(),
        forall|m: int| 0 <= m < queue.len() ==> done.contains(#[trigger] queue[m]),
        cur matches Some(c) ==> done.contains((c.0, c.1)),
    ensures
        forall|k: int|
            0 <= k < bfs_reports(g, max_depth, queue, cur, visited).len() ==> #[trigger] edge_parent_before(
                g,
                done + bfs_run(g, max_depth, queue, cur, visited),
                done.len() + k,
                bfs_reports(g, max_depth, queue, cur, visited)[k].1,
            ),
    decreases count_unvisited(visited),
{
    let r = bfs_seek(g, max_depth, queue, cur, visited);
    lemma_bfs_seek(g, max_depth, queue, cur, visited);
    lemma_bfs_seek_source(g, max_depth, queue, cur, visited);
    lemma_bfs_reports_run(g, max_depth, queue, cur, visited);
    if let Some(ev) = r.3 {
        let f = r.1->0;
        let q2 = r.0.push((ev.0, ev.2));
        let done2 = done.push((ev.0, ev.2));
        assert(queue_ok(g, max_depth, q2)) by {
            assert forall|k: int| 0 <= k < q2.len() implies {
                let q = #[trigger] q2[k];
                &&& 0 <= q.0 < g.node_ids().len()
                &&& 0 <= q.1 < max_depth
            } by {
                if k < r.0.len() {
                    assert(q2[k] == r.0[k]);
                }
            }
        }
        let fp = (f.0, f.1);
        assert(done.contains(fp)) by {
            if !queue.contains(fp) {
                let c = cur->0;
                assert(fp == (c.0, c.1));
            } else {
                let w = choose|w: int| 0 <= w < queue.len() && queue[w] == fp;
                assert(done.contains(queue[w]));
            }
        }
        let w0 = choose|w: int| 0 <= w < done.len() && done[w] == fp;
        assert forall|m: int| 0 <= m < q2.len() implies done2.contains(#[trigger] q2[m]) by {
            if m < r.0.len() {
                assert(q2[m] == r.0[m]);
                assert(queue.contains(r.0[m]));
                let w = choose|w: int| 0 <= w < queue.len() && queue[w] == r.0[m];
                assert(done.contains(queue[w]));
                let v = choose|v: int| 0 <= v < done.len() && done[v] == queue[w];
                assert(done2[v] == done[v]);
            } else {
                assert(done2[done.len() as int] == (ev.0, ev.2));
            }
        }
        assert(done2[w0] == fp);
        lemma_bfs_reports_parent(g, max_depth, q2, r.1, r.2, done2);
        let run = bfs_run(g, max_depth, queue, cur, visited);
        let tail = bfs_run(g, max_depth, q2, r.1, r.2);
        let rep = bfs_reports(g, max_depth, queue, cur, visited);
        let rt = bfs_reports(g, max_depth, q2, r.1, r.2);
        assert(run == seq![(ev.0, ev.2)] + tail);
        assert(rep == seq![ev] + rt);
        let all = done + run;
        assert(all =~= done2 + tail);
        assert forall|k: int| 0 <= k < rep.len() implies #[trigger] edge_parent_before(g, all, done.len() + k, rep[k].1) by {
            if k == 0 {
                assert(all[w0] == done[w0]);
                assert(all[done.len() as int] == (ev.0, ev.2));
                assert(rep[0] == ev);
            } else {
                assert(rep[k] == rt[k - 1]);
                assert(edge_parent_before(g, done2 + tail, done2.len() + (k - 1), rt[k - 1].1));
            }
        }
    }
}

/// Every visit of a bounded breadth-first traversal after the first enters
/// its node by a stored edge from a node visited earlier, one level up.
pub proof fn law_bfs_entered_from_parent<N: Node, E: Edge>(
    g: Graph<N, E>,
    start: NodeId,
    max_depth: usize,
)
    requires
        g.wf(),
        g.node_ids().contains(start),
        max_depth >= 1,
    ensures
        entered_from_parent(g, bfs_visit_order(g, start, max_depth)),
{
    let s = pos_of(g.node_ids(), start);
    lemma_start_index(g, start);
    let marks = start_marks(g.node_ids().len(), s);
    let q = seq![(s, 0int)];
    let done = seq![(s, 0int)];
    assert(queue_ok(g, max_depth as int, q)) by {
        assert(q[0] == (s, 0int));
    }
    assert(done.contains(q[0])) by {
        assert(done[0] == q[0]);
    }
    assert forall|m: int| 0 <= m < q.len() implies done.contains(#[trigger] q[m]) by {
        assert(m == 0);
    }
    lemma_bfs_run_parent(g, max_depth as int, q, None, marks, done);
    lemma_bfs_run_fresh(g, max_depth as int, q, None, marks);
    lemma_bfs_run_depths(g, max_depth as int, q, None, marks);
    let run = bfs_run(g, max_depth as int, q, None, marks);
    let trace = bfs_trace(g, s, max_depth as int);
    assert(trace == done + run);
    let order = bfs_visit_order(g, start, max_depth);
    assert forall|k: int| 1 <= k < order.len() implies #[trigger] entered_at(g, order, k) by {
        assert(parent_before(g, done + run, 1 + (k - 1)));
        let j = choose|j: int|
            0 <= j < k && trace[j].1 + 1 == trace[k].1 && linked_at(g, trace[j].0, trace[k].0);
        let tj = trace[j];
        assert(0 <= tj.0 < g.node_ids().len() && 0 <= tj.1) by {
            if j > 0 {
                assert(trace[j] == run[j - 1]);
            }
        }
        lemma_linked_has_edge(g, tj.0, trace[k].0);
        assert(order[j] == entry_id(g, tj));
        assert(order[k] == entry_id(g, trace[k]));
        assert(0 <= j < k && order[j].1 + 1 == order[k].1 && has_edge(g, order[j].0, order[k].0));
    }
    assert(entered_from_parent(g, order));
}

/// Breadth-first level discipline, given the depth `last` of the latest
/// visit: queue depths are sorted and at most `last`; they lie within one
/// level of the frame being expanded (or of the queue's front), and `last`
/// is at most one level below that.
pub open spec fn levels_ok(queue: Seq<(int, int)>, cur: Option<(int, int, int)>, last: int) -> bool {
    &&& forall|a: int, b: int| 0 <= a < b < queue.len() ==> queue[a].1 <= queue[b].1
    &&& forall|m: int| 0 <= m < queue.len() ==> (#[trigger] queue[m]).1 <= last
    &&& match cur {
        Some(f) => {
            &&& last <= f.1 + 1
            &&& forall|m: int| 0 <= m < queue.len() ==> f.1 <= (#[trigger] queue[m]).1 <= f.1 + 1
        },
        None => queue.len() > 0 ==> {
            &&& last <= queue[0].1 + 1
            &&& forall|m: int| 0 <= m < queue.len() ==> queue[0].1 <= (#[trigger] queue[m]).1 <= queue[0].1 + 1
        },
    }
}

/// A breadth-first search step reports a depth no smaller than the latest,
/// and the state after queueing the report keeps the level discipline.
pub proof fn lemma_bfs_seek_levels<N: Node, E: Edge>(
    g: Graph<N, E>,
    max_depth: int,
    queue: Seq<(int, int)>,
    cur: Option<(int, int, int)>,
    visited: Seq<bool>,
    last: int,
)
    requires
        levels_ok(queue, cur, last),
    ensures
        ({
            let r = bfs_seek(g, max_depth, queue, cur, visited);
            r.3 matches Some(ev) ==> ev.2 >= last && levels_ok(r.0.push((ev.0, ev.2)), r.1, ev.2)
        }),
    decreases bfs_measure(queue, cur), cur_left(g, cur),
{
    match cur {
        None => {
            if queue.len() > 0 {
                let nf = Some((queue[0].0, queue[0].1, 0int));
                let rest = queue.drop_first();
                assert(levels_ok(rest, nf, last)) by {
                    assert forall|a: int, b: int| 0 <= a < b < rest.len() implies rest[a].1 <= rest[b].1 by {
                        assert(rest[a] == queue[a + 1]);
                        assert(rest[b] == queue[b + 1]);
                    }
                    assert forall|m: int| 0 <= m < rest.len() implies (#[trigger] rest[m]).1 <= last
                        && queue[0].1 <= rest[m].1 <= queue[0].1 + 1 by {
                        assert(rest[m] == queue[m + 1]);
                    }
                }
                lemma_bfs_seek_levels(g, max_depth, rest, nf, visited, last);
            }
        },
        Some(f) => {
            if frame_done(g, max_depth, f) {
                assert(levels_ok(queue, None, last)) by {
                    if queue.len() > 0 {
                        assert(f.1 <= queue[0].1);
                        assert forall|m: int| 0 <= m < queue.len() implies queue[0].1 <= (
                        #[trigger] queue[m]).1 <= queue[0].1 + 1 by {
                            if m > 0 {
                                assert(queue[0].1 <= queue[m].1);
                            }
                        }
                    }
                }
                lemma_bfs_seek_levels(g, max_depth, queue, None, visited, last);
            } else {
                let e = out_at(g, f.0)[f.2];
                let t = target_at(g, e);
                let moved = Some((f.0, f.1, f.2 + 1));
                if 0 <= t < visited.len() && !visited[t] {
                    let q2 = queue.push((t, f.1 + 1));
                    assert(levels_ok(q2, moved, f.1 + 1)) by {
                        assert forall|a: int, b: int| 0 <= a < b < q2.len() implies q2[a].1 <= q2[b].1 by {
                            assert(q2[a] == queue[a]);
                            if b < queue.len() {
                                assert(q2[b] == queue[b]);
                            }
                        }
                        assert forall|m: int| 0 <= m < q2.len() implies (#[trigger] q2[m]).1 <= f.1 + 1
                            && f.1 <= q2[m].1 by {
                            if m < queue.len() {
                                assert(q2[m] == queue[m]);
                            }
                        }
                    }
                } else {
                    lemma_bfs_seek_levels(g, max_depth, queue, moved, visited, last);
                }
            }
        },
    }
}

/// Breadth-first reports under the level discipline never decrease in depth
/// and start no lower than the latest depth.
pub proof fn lemma_bfs_run_monotone<N: Node, E: Edge>(
    g: Graph<N, E>,
    max_depth: int,
    queue: Seq<(int, int)>,
    cur: Option<(int, int, int)>,
    visited: Seq<bool>,
    last: int,
)
    requires
        levels_ok(queue, cur, last),
    ensures
        ({
            let run = bfs_run(g, max_depth, queue, cur, visited);
            &&& forall|k: int| 0 <= k < run.len() ==> (#[trigger] run[k]).1 >= last
            &&& forall|a: int, b: int| 0 <= a < b < run.len() ==> run[a].1 <= run[b].1
        }),
    decreases count_unvisited(visited),
{
    let r = bfs_seek(g, max_depth, queue, cur, visited);
    lemma_bfs_seek(g, max_depth, queue, cur, visited);
    lemma_bfs_seek_levels(g, max_depth, queue, cur, visited, last);
    if let Some(ev) = r.3 {
        let q2 = r.0.push((ev.0, ev.2));
        lemma_bfs_run_monotone(g, max_depth, q2, r.1, r.2, ev.2);
        let run = bfs_run(g, max_depth, queue, cur, visited);
        let tail = bfs_run(g, max_depth, q2, r.1, r.2);
        assert(run == seq![(ev.0, ev.2)] + tail);
        assert forall|k: int| 0 <= k < run.len() implies (#[trigger] run[k]).1 >= last by {
            if k > 0 {
                assert(run[k] == tail[k - 1]);
            }
        }
        assert forall|a: int, b: int| 0 <= a < b < run.len() implies run[a].1 <= run[b].1 by {
            assert(run[b] == tail[b - 1]);
            if a > 0 {
                assert(run[a] == tail[a - 1]);
            }
        }
    }
}

/// A bounded breadth-first traversal visits level by level: depths never
/// decrease along the visiting order.
pub proof fn law_bfs_depths_nondecreasing<N: Node, E: Edge>(
    g: Graph<N, E>,
    start: NodeId,
    max_depth: usize,
)
    requires
        g.wf(),
        g.node_ids().contains(start),
        max_depth >= 1,
    ensures
        forall|a: int, b: int|
            0 <= a < b < bfs_visit_order(g, start, max_depth).len() ==> bfs_visit_order(
                g,
                start,
                max_depth,
            )[a].1 <= bfs_visit_order(g, start, max_depth)[b].1,
{
    let s = pos_of(g.node_ids(), start);
    lemma_start_index(g, start);
    let marks = start_marks(g.node_ids().len(), s);
    let q = seq![(s, 0int)];
    assert(levels_ok(q, None, 0)) by {
        assert(q[0] == (s, 0int));
    }
    assert(queue_ok(g, max_depth as int, q)) by {
        assert(q[0] == (s, 0int));
    }
    lemma_bfs_run_monotone(g, max_depth as int, q, None, marks, 0);
    lemma_bfs_run_depths(g, max_depth as int, q, None, marks);
    let run = bfs_run(g, max_depth as int, q, None, marks);
    let trace = bfs_trace(g, s, max_depth as int);
    assert(trace == seq![(s, 0int)] + run);
    let order = bfs_visit_order(g, start, max_depth);
    assert forall|a: int, b: int| 0 <= a < b < order.len() implies order[a].1 <= order[b].1 by {
        assert(order[a] == entry_id(g, trace[a]));
        assert(order[b] == entry_id(g, trace[b]));
        assert(trace[b] == run[b - 1]);
        if a > 0 {
            assert(trace[a] == run[a - 1]);
        }
        assert(trace[a].1 >= 0);
    }
}

/// Breadth-first reports are the visits of [`bfs_run`] with their edges.
pub proof fn lemma_bfs_reports_run<N: Node, E: Edge>(
    g: Graph<N, E>,
    max_depth: int,
    queue: Seq<(int, int)>,
    cur: Option<(int, int, int)>,
    visited: Seq<bool>,
)
    ensures
        ({
            let rep = bfs_reports(g, max_depth, queue, cur, visited);
            let run = bfs_run(g, max_depth, queue, cur, visited);
            &&& rep.len() == run.len()
            &&& forall|j: int| 0 <= j < rep.len() ==> run[j] == ((#[trigger] rep[j]).0, rep[j].2)
        }),
    decreases count_unvisited(visited),
{
    let r = bfs_seek(g, max_depth, queue, cur, visited);
    lemma_bfs_seek(g, max_depth, queue, cur, visited);
    if let Some(ev) = r.3 {
        let q2 = r.0.push((ev.0, ev.2));
        lemma_bfs_reports_run(g, max_depth, q2, r.1, r.2);
        let rep = bfs_reports(g, max_depth, queue, cur, visited);
        let run = bfs_run(g, max_depth, queue, cur, visited);
        let rt = bfs_reports(g, max_depth, q2, r.1, r.2);
        let ut = bfs_run(g, max_depth, q2, r.1, r.2);
        assert(rep == seq![ev] + rt);
        assert(run == seq![(ev.0, ev.2)] + ut);
        assert forall|j: int| 0 <= j < rep.len() implies run[j] == ((#[trigger] rep[j]).0, rep[j].2) by {
            if j > 0 {
                assert(rep[j] == rt[j - 1]);
                assert(run[j] == ut[j - 1]);
            }
        }
    }
}

/// The events a callback of a bounded breadth-first traversal is given, when
/// it answers "go on" to all of them, name the nodes and depths of
/// [`bfs_visit_order`], in that order.
pub proof fn law_bfs_visits_follow_order<N: Node, E: Edge>(g: Graph<N, E>, start: NodeId, max_depth: usize)
    requires
        g.wf(),
        g.node_ids().contains(start),
        max_depth >= 1,
    ensures
        ({
            let vs = bfs_visits(g, pos_of(g.node_ids(), start), max_depth as int);
            let order = bfs_visit_order(g, start, max_depth);
            &&& vs.len() == order.len()
            &&& forall|j: int|
                0 <= j < vs.len() ==> order[j] == (g.node_ids()[(#[trigger] vs[j]).0], vs[j].2 as usize)
        }),
{
    let s = pos_of(g.node_ids(), start);
    let m = max_depth as int;
    let marks = start_marks(g.node_ids().len(), s);
    let q = seq![(s, 0int)];
    lemma_bfs_reports_run(g, m, q, None, marks);
    let rep = bfs_reports(g, m, q, None, marks);
    let run = bfs_run(g, m, q, None, marks);
    let vs = bfs_visits(g, s, m);
    let trace = bfs_trace(g, s, m);
    let order = bfs_visit_order(g, start, max_depth);
    assert forall|j: int| 0 <= j < vs.len() implies order[j] == (g.node_ids()[(#[trigger] vs[j]).0], vs[j].2 as usize) by {
        assert(order[j] == entry_id(g, trace[j]));
        if j > 0 {
            assert(vs[j] == visit_of(rep[j - 1]));
            assert(trace[j] == run[j - 1]);
        }
    }
}

/// Every visit of a bounded breadth-first traversal after the first is
/// reported with the edge that led there: that edge leaves a node visited
/// earlier, one level up, and enters the visited node.
pub proof fn law_bfs_visits_enter_by_their_edge<N: Node, E: Edge>(
    g: Graph<N, E>,
    start: NodeId,
    max_depth: usize,
)
    requires
        g.wf(),
        g.node_ids().contains(start),
        max_depth >= 1,
    ensures
        ({
            let vs = bfs_visits(g, pos_of(g.node_ids(), start), max_depth as int);
            forall|k: int|
                1 <= k < vs.len() ==> (#[trigger] vs[k]).1 is Some && exists|j: int|
                    0 <= j < k && vs[j].2 + 1 == vs[k].2 && leads_at(g, vs[j].0, vs[k].1->0, vs[k].0)
        }),
{
    let s = pos_of(g.node_ids(), start);
    let m = max_depth as int;
    lemma_start_index(g, start);
    let marks = start_marks(g.node_ids().len(), s);
    let q = seq![(s, 0int)];
    let done = seq![(s, 0int)];
    assert(queue_ok(g, m, q)) by {
        assert(q[0] == (s, 0int));
    }
    assert forall|w: int| 0 <= w < q.len() implies done.contains(#[trigger] q[w]) by {
        assert(done[0] == q[0]);
    }
    lemma_bfs_reports_parent(g, m, q, None, marks, done);
    lemma_bfs_reports_run(g, m, q, None, marks);
    let rep = bfs_reports(g, m, q, None, marks);
    let run = bfs_run(g, m, q, None, marks);
    let vs = bfs_visits(g, s, m);
    let trace = done + run;
    assert forall|w: int| 0 <= w < vs.len() implies vs[w].0 == trace[w].0 && vs[w].2 == trace[w].1 by {
        if w > 0 {
            assert(vs[w] == visit_of(rep[w - 1]));
            assert(trace[w] == run[w - 1]);
        }
    }
    assert forall|k: int| 1 <= k < vs.len() implies (#[trigger] vs[k]).1 is Some && exists|j: int|
        0 <= j < k && vs[j].2 + 1 == vs[k].2 && leads_at(g, vs[j].0, vs[k].1->0, vs[k].0) by {
        assert(vs[k] == visit_of(rep[k - 1]));
        assert(edge_parent_before(g, trace, done.len() + (k - 1), rep[k - 1].1));
        let j = choose|j: int|
            0 <= j < k && trace[j].1 + 1 == trace[k].1 && leads_at(g, trace[j].0, rep[k - 1].1, trace[k].0);
        assert(vs[j].0 == trace[j].0 && vs[j].2 == trace[j].1);
    }
}

/// Every answer of `ans` is "go on".
pub open spec fn all_go_on(ans: Seq<bool>) -> bool {
    forall|i: int| 0 <= i < ans.len() ==> #[trigger] ans[i]
}

/// Depth-first reports answered "go on" throughout are the visits of
/// [`dfs_run`] with their edges.
pub proof fn lemma_dfs_reports_go_on<N: Node, E: Edge>(
    g: Graph<N, E>,
    max_depth: int,
    stack: Seq<(int, int, int)>,
    visited: Seq<bool>,
    ans: Seq<bool>,
)
    requires
        all_go_on(ans),
    ensures
        ({
            let rep = dfs_reports_with(g, max_depth, stack, visited, ans);
            let run = dfs_run(g, max_depth, stack, visited);
            &&& rep.len() == run.len()
            &&& forall|j: int| 0 <= j < rep.len() ==> run[j] == ((#[trigger] rep[j]).0, rep[j].2)
        }),
    decreases count_unvisited(visited),
{
    let r = dfs_seek(g, max_depth, stack, visited);
    lemma_dfs_seek_marks(g, max_depth, stack, visited);
    if let Some(ev) = r.2 {
        let st2 = r.0.push((ev.0, ev.2, 0));
        let la = later_answers(ans);
        assert(all_go_on(la)) by {
            assert forall|i: int| 0 <= i < la.len() implies #[trigger] la[i] by {
                assert(la[i] == ans[i + 1]);
            }
        }
        if ans.len() > 0 {
            assert(ans[0]);
        }
        lemma_dfs_reports_go_on(g, max_depth, st2, r.1, la);
        let rep = dfs_reports_with(g, max_depth, stack, visited, ans);
        let run = dfs_run(g, max_depth, stack, visited);
        let rt = dfs_reports_with(g, max_depth, st2, r.1, la);
        let ut = dfs_run(g, max_depth, st2, r.1);
        assert(rep == seq![ev] + rt);
        assert(run == seq![(ev.0, ev.2)] + ut);
        assert forall|j: int| 0 <= j < rep.len() implies run[j] == ((#[trigger] rep[j]).0, rep[j].2) by {
            if j > 0 {
                assert(rep[j] == rt[j - 1]);
                assert(run[j] == ut[j - 1]);
            }
        }
    }
}

/// When its callback answers "go on" to every event, a bounded depth-first
/// traversal reports the nodes and depths of [`dfs_preorder`], in that
/// order.
pub proof fn law_dfs_visits_follow_preorder<N: Node, E: Edge>(
    g: Graph<N, E>,
    start: NodeId,
    max_depth: usize,
    ans: Seq<bool>,
)
    requires
        g.wf(),
        g.node_ids().contains(start),
        max_depth >= 1,
        all_go_on(ans),
    ensures
        ({
            let vs = dfs_visits_with(g, pos_of(g.node_ids(), start), max_depth as int, ans);
            let order = dfs_preorder(g, start, max_depth);
            &&& vs.len() == order.len()
            &&& forall|j: int|
                0 <= j < vs.len() ==> order[j] == (g.node_ids()[(#[trigger] vs[j]).0], vs[j].2 as usize)
        }),
{
    let s = pos_of(g.node_ids(), start);
    let m = max_depth as int;
    let marks = start_marks(g.node_ids().len(), s);
    let st = seq![(s, 0int, 0int)];
    let la = later_answers(ans);
    assert(all_go_on(la)) by {
        assert forall|i: int| 0 <= i < la.len() implies #[trigger] la[i] by {
            assert(la[i] == ans[i + 1]);
        }
    }
    if ans.len() > 0 {
        assert(ans[0]);
    }
    lemma_dfs_reports_go_on(g, m, st, marks, la);
    let rep = dfs_reports_with(g, m, st, marks, la);
    let run = dfs_run(g, m, st, marks);
    let vs = dfs_visits_with(g, s, m, ans);
    let trace = dfs_trace(g, s, m);
    let order = dfs_preorder(g, start, max_depth);
    assert forall|j: int| 0 <= j < vs.len() implies order[j] == (g.node_ids()[(#[trigger] vs[j]).0], vs[j].2 as usize) by {
        assert(order[j] == entry_id(g, trace[j]));
        if j > 0 {
            assert(vs[j] == visit_of(rep[j - 1]));
            assert(trace[j] == run[j - 1]);
        }
    }
}

} // verus!
