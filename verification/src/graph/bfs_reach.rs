//! Reach of the bounded breadth-first traversal: it visits every node that a
//! chain of fewer than `max_depth` stored edges leads to from the start, and
//! the depth it reports for a node is the length of a shortest such chain.

use vstd::prelude::*;
use crate::graph::edge::{Edge, EdgeId};
use crate::graph::graph::{edges_from, lemma_pos_of, pos_of, Graph};
use crate::graph::node::{Node, NodeId};
use crate::graph::traversal_laws::{
    entered_at, entered_from_parent, has_edge, law_bfs_entered_from_parent, law_bfs_visits_once,
    lemma_bfs_run_depths, lemma_bfs_run_fresh, levels_ok, linked_at,
};
use crate::graph::walker::{
    bfs_measure, bfs_run, bfs_seek, bfs_trace, bfs_visit_order, count_unvisited, cur_left, cur_ok,
    entry_id, entry_ids, frame_done, lemma_bfs_seek, out_at, queue_ok, start_marks, target_at,
};

verus! {

/// Some entry of `done` visits node index `t` at depth at most `d`.
pub open spec fn covered(done: Seq<(int, int)>, t: int, d: int) -> bool {
    exists|j: int| 0 <= j < done.len() && (#[trigger] done[j]).0 == t && done[j].1 <= d
}

/// Some entry of `done` visits node index `t`.
pub open spec fn visits(done: Seq<(int, int)>, t: int) -> bool {
    exists|j: int| 0 <= j < done.len() && (#[trigger] done[j]).0 == t
}

/// Every stored node that an edge from node index `u` enters is visited in
/// `done` at depth at most `d + 1`.
pub open spec fn settled<N: Node, E: Edge>(g: Graph<N, E>, done: Seq<(int, int)>, u: int, d: int) -> bool {
    forall|k: int|
        0 <= k < out_at(g, u).len() && 0 <= #[trigger] target_at(g, out_at(g, u)[k])
            < g.node_ids().len() ==> covered(done, target_at(g, out_at(g, u)[k]), d + 1)
}

/// Visit `p` is still to be expanded: queued, or the frame being expanded.
pub open spec fn pending(queue: Seq<(int, int)>, cur: Option<(int, int, int)>, p: (int, int)) -> bool {
    queue.contains(p) || (cur matches Some(f) && f.0 == p.0 && f.1 == p.1)
}

/// Every visit of `all` below the last level has its edges followed.
pub open spec fn all_settled<N: Node, E: Edge>(g: Graph<N, E>, max_depth: int, all: Seq<(int, int)>) -> bool {
    forall|j: int|
        0 <= j < all.len() && (#[trigger] all[j]).1 + 1 < max_depth ==> settled(g, all, all[j].0, all[j].1)
}

/// State of a breadth-first traversal that has reported `done`, latest at
/// depth `last`: the marks are the visited nodes; every visit is at most
/// `last` deep, under the level discipline; every visit below the last level
/// that is no longer pending has its edges followed; and the edges of the
/// frame being expanded that were tried lead to visits one level down at
/// most.
pub open spec fn closure_ok<N: Node, E: Edge>(
    g: Graph<N, E>,
    max_depth: int,
    done: Seq<(int, int)>,
    queue: Seq<(int, int)>,
    cur: Option<(int, int, int)>,
    visited: Seq<bool>,
    last: int,
) -> bool {
    &&& visited.len() == g.node_ids().len()
    &&& forall|x: int| 0 <= x < visited.len() ==> (#[trigger] visited[x] <==> visits(done, x))
    &&& forall|j: int| 0 <= j < done.len() ==> (#[trigger] done[j]).1 <= last
    &&& levels_ok(queue, cur, last)
    &&& forall|j: int|
        0 <= j < done.len() && (#[trigger] done[j]).1 + 1 < max_depth && !pending(queue, cur, done[j])
            ==> settled(g, done, done[j].0, done[j].1)
    &&& cur matches Some(f) ==> forall|k: int|
        0 <= k < f.2 && k < out_at(g, f.0).len() && 0 <= #[trigger] target_at(g, out_at(g, f.0)[k])
            < g.node_ids().len() ==> covered(done, target_at(g, out_at(g, f.0)[k]), f.1 + 1)
}

/// A breadth-first search step keeps the closure state: with no report it
/// ends with nothing pending; with a report, the state after recording and
/// queueing it is a closure state again.
pub proof fn lemma_bfs_seek_closure<N: Node, E: Edge>(
    g: Graph<N, E>,
    max_depth: int,
    done: Seq<(int, int)>,
    queue: Seq<(int, int)>,
    cur: Option<(int, int, int)>,
    visited: Seq<bool>,
    last: int,
)
    requires
        closure_ok(g, max_depth, done, queue, cur, visited, last),
    ensures
        ({
            let r = bfs_seek(g, max_depth, queue, cur, visited);
            match r.3 {
                None => r.0.len() == 0 && r.1 is None && closure_ok(g, max_depth, done, r.0, r.1, r.2, last),
                Some(ev) => closure_ok(
                    g,
                    max_depth,
                    done.push((ev.0, ev.2)),
                    r.0.push((ev.0, ev.2)),
                    r.1,
                    r.2,
                    ev.2,
                ),
            }
        }),
    decreases bfs_measure(queue, cur), cur_left(g, cur),
{
    match cur {
        None => {
            if queue.len() > 0 {
                let nf = Some((queue[0].0, queue[0].1, 0int));
                let rest = queue.drop_first();
                assert(levels_ok(rest, nf, last)) by {
                    assert forall|a: int, b: int| 0 <= a < b < rest.len() implies rest[a].1 <= rest[b].1 by {
                        assert(rest[a] == queue[a + 1]);
                        assert(rest[b] == queue[b + 1]);
                    }
                    assert forall|m: int| 0 <= m < rest.len() implies (#[trigger] rest[m]).1 <= last
                        && queue[0].1 <= rest[m].1 <= queue[0].1 + 1 by {
                        assert(rest[m] == queue[m + 1]);
                    }
                }
                assert forall|j: int|
                    0 <= j < done.len() && (#[trigger] done[j]).1 + 1 < max_depth && !pending(rest, nf, done[j])
                        implies settled(g, done, done[j].0, done[j].1) by {
                    if queue.contains(done[j]) {
                        let w = choose|w: int| 0 <= w < queue.len() && queue[w] == done[j];
                        if w > 0 {
                            assert(rest[w - 1] == done[j]);
                        }
                    }
                }
                lemma_bfs_seek_closure(g, max_depth, done, rest, nf, visited, last);
            }
        },
        Some(f) => {
            if frame_done(g, max_depth, f) {
                assert(levels_ok(queue, None, last)) by {
                    if queue.len() > 0 {
                        assert(f.1 <= queue[0].1);
                        assert forall|m: int| 0 <= m < queue.len() implies queue[0].1 <= (
                        #[trigger] queue[m]).1 <= queue[0].1 + 1 by {
                            if m > 0 {
                                assert(queue[0].1 <= queue[m].1);
                            }
                        }
                    }
                }
                lemma_bfs_seek_closure(g, max_depth, done, queue, None, visited, last);
            } else {
                let e = out_at(g, f.0)[f.2];
                let t = target_at(g, e);
                let moved = Some((f.0, f.1, f.2 + 1));
                if 0 <= t < visited.len() && !visited[t] {
                    lemma_bfs_seek(g, max_depth, queue, cur, visited);
                    let ev = (t, f.1 + 1);
                    let done2 = done.push(ev);
                    let q2 = queue.push(ev);
                    let vis2 = visited.update(t, true);
                    assert(levels_ok(q2, moved, f.1 + 1)) by {
                        assert forall|a: int, b: int| 0 <= a < b < q2.len() implies q2[a].1 <= q2[b].1 by {
                            assert(q2[a] == queue[a]);
                            if b < queue.len() {
                                assert(q2[b] == queue[b]);
                            }
                        }
                        assert forall|m: int| 0 <= m < q2.len() implies (#[trigger] q2[m]).1 <= f.1 + 1
                            && f.1 <= q2[m].1 by {
                            if m < queue.len() {
                                assert(q2[m] == queue[m]);
                            }
                        }
                    }
                    assert forall|x: int| 0 <= x < vis2.len() implies (#[trigger] vis2[x] <==> visits(done2, x)) by {
                        if x == t {
                            assert(done2[done.len() as int] == ev);
                        } else {
                            if visits(done, x) {
                                let j = choose|j: int| 0 <= j < done.len() && (#[trigger] done[j]).0 == x;
                                assert(done2[j] == done[j]);
                            }
                            if visits(done2, x) {
                                let j = choose|j: int| 0 <= j < done2.len() && (#[trigger] done2[j]).0 == x;
                                assert(done2[j] == done[j]);
                            }
                        }
                    }
                    assert forall|j: int| 0 <= j < done2.len() implies (#[trigger] done2[j]).1 <= f.1 + 1 by {
                        if j < done.len() {
                            assert(done2[j] == done[j]);
                        }
                    }
                    assert forall|tt: int, dd: int| covered(done, tt, dd) implies covered(done2, tt, dd) by {
                        let j = choose|j: int| 0 <= j < done.len() && (#[trigger] done[j]).0 == tt && done[j].1 <= dd;
                        assert(done2[j] == done[j]);
                    }
                    assert forall|j: int|
                        0 <= j < done2.len() && (#[trigger] done2[j]).1 + 1 < max_depth && !pending(q2, moved, done2[j])
                            implies settled(g, done2, done2[j].0, done2[j].1) by {
                        if j == done.len() {
                            assert(q2[queue.len() as int] == ev);
                            assert(q2.contains(done2[j]));
                        } else {
                            assert(done2[j] == done[j]);
                            if queue.contains(done[j]) {
                                let w = choose|w: int| 0 <= w < queue.len() && queue[w] == done[j];
                                assert(q2[w] == done[j]);
                            }
                            assert(settled(g, done, done[j].0, done[j].1));
                        }
                    }
                    assert forall|k: int|
                        0 <= k < f.2 + 1 && k < out_at(g, f.0).len() && 0 <= #[trigger] target_at(
                            g,
                            out_at(g, f.0)[k],
                        ) < g.node_ids().len() implies covered(done2, target_at(g, out_at(g, f.0)[k]), f.1 + 1) by {
                        if k == f.2 {
                            assert(done2[done.len() as int] == ev);
                        }
                    }
                } else {
                    assert forall|k: int|
                        0 <= k < f.2 + 1 && k < out_at(g, f.0).len() && 0 <= #[trigger] target_at(
                            g,
                            out_at(g, f.0)[k],
                        ) < g.node_ids().len() implies covered(done, target_at(g, out_at(g, f.0)[k]), f.1 + 1) by {
                        if k == f.2 {
                            assert(visited[t]);
                            assert(visits(done, t));
                            let j = choose|j: int| 0 <= j < done.len() && (#[trigger] done[j]).0 == t;
                            assert(done[j].1 <= last);
                        }
                    }
                    lemma_bfs_seek_closure(g, max_depth, done, queue, moved, visited, last);
                }
            }
        },
    }
}

/// Under a closure state, the full record of a breadth-first traversal
/// (what was reported, then what the run reports) has every visit below the
/// last level settled.
pub proof fn lemma_bfs_run_closure<N: Node, E: Edge>(
    g: Graph<N, E>,
    max_depth: int,
    done: Seq<(int, int)>,
    queue: Seq<(int, int)>,
    cur: Option<(int, int, int)>,
    visited: Seq<bool>,
    last: int,
)
    requires
        closure_ok(g, max_depth, done, queue, cur, visited, last),
    ensures
        all_settled(g, max_depth, done + bfs_run(g, max_depth, queue, cur, visited)),
    decreases count_unvisited(visited),
{
    let r = bfs_seek(g, max_depth, queue, cur, visited);
    lemma_bfs_seek(g, max_depth, queue, cur, visited);
    lemma_bfs_seek_closure(g, max_depth, done, queue, cur, visited, last);
    let run = bfs_run(g, max_depth, queue, cur, visited);
    match r.3 {
        None => {
            assert(run =~= Seq::<(int, int)>::empty());
            assert(done + run =~= done);
            assert forall|j: int| 0 <= j < done.len() && (#[trigger] done[j]).1 + 1 < max_depth implies settled(
                g,
                done,
                done[j].0,
                done[j].1,
            ) by {
                assert(!pending(r.0, r.1, done[j]));
            }
        },
        Some(ev) => {
            let p = (ev.0, ev.2);
            let q2 = r.0.push(p);
            let done2 = done.push(p);
            lemma_bfs_run_closure(g, max_depth, done2, q2, r.1, r.2, ev.2);
            let tail = bfs_run(g, max_depth, q2, r.1, r.2);
            assert(run == seq![p] + tail);
            assert(done + run =~= done2 + tail);
        },
    }
}

/// Every edge of `es` leaving `n` is listed by `edges_from(es, n)`.
pub proof fn lemma_edges_from_complete(es: Seq<(EdgeId, NodeId, NodeId)>, n: NodeId, j: int)
    requires
        0 <= j < es.len(),
        es[j].1 == n,
    ensures
        edges_from(es, n).contains(es[j].0),
    decreases es.len(),
{
    let p = es.drop_last();
    if j == es.len() - 1 {
        assert(edges_from(es, n) == edges_from(p, n).push(es.last().0));
        assert(edges_from(es, n)[edges_from(p, n).len() as int] == es[j].0);
    } else {
        assert(p[j] == es[j]);
        lemma_edges_from_complete(p, n, j);
        let k = choose|k: int| 0 <= k < edges_from(p, n).len() && edges_from(p, n)[k] == es[j].0;
        if es.last().1 == n {
            assert(edges_from(es, n)[k] == edges_from(p, n)[k]);
        }
    }
}

/// A stored edge between two ids links their indices.
pub proof fn lemma_has_edge_linked<N: Node, E: Edge>(g: Graph<N, E>, x: NodeId, y: NodeId)
    requires
        g.wf(),
        g.node_ids().contains(x),
        has_edge(g, x, y),
    ensures
        g.node_ids().contains(y),
        linked_at(g, pos_of(g.node_ids(), x), pos_of(g.node_ids(), y)),
{
    let es = g.edge_list();
    let j = choose|j: int| 0 <= j < es.len() && es[j].1 == x && es[j].2 == y;
    let e = es[j].0;
    lemma_edges_from_complete(es, x, j);
    let a = pos_of(g.node_ids(), x);
    lemma_pos_of(g.node_ids(), x);
    let out = out_at(g, a);
    assert(out == edges_from(es, x));
    let k = choose|k: int| 0 <= k < out.len() && out[k] == e;
    g.lemma_out_edges_stored(x);
    g.lemma_edge_dst_at(j);
    assert(g.node_ids().contains(g.edge_dst(out[k])));
    assert(target_at(g, out[k]) == pos_of(g.node_ids(), y));
}

/// A chain of at most `k` stored edges leads from `x` to `y`.
pub open spec fn reach_in<N: Node, E: Edge>(g: Graph<N, E>, x: NodeId, y: NodeId, k: nat) -> bool
    decreases k,
{
    y == x || (k > 0 && exists|z: NodeId| #[trigger] has_edge(g, z, y) && reach_in(g, x, z, (k - 1) as nat))
}

/// The trace of a bounded breadth-first traversal from a stored node index:
/// its start comes first at depth 0, its entries are stored node indices at
/// depths below the limit, and every visit below the last level is settled.
proof fn lemma_trace_settled<N: Node, E: Edge>(g: Graph<N, E>, s: int, max_depth: int)
    requires
        0 <= s < g.node_ids().len(),
        max_depth >= 1,
    ensures
        bfs_trace(g, s, max_depth).len() >= 1,
        bfs_trace(g, s, max_depth)[0] == (s, 0int),
        forall|j: int|
            0 <= j < bfs_trace(g, s, max_depth).len() ==> 0 <= (#[trigger] bfs_trace(g, s, max_depth)[j]).0
                < g.node_ids().len() && 0 <= bfs_trace(g, s, max_depth)[j].1 < max_depth,
        all_settled(g, max_depth, bfs_trace(g, s, max_depth)),
{
    let n = g.node_ids().len();
    let marks = start_marks(n, s);
    let q = seq![(s, 0int)];
    let done = seq![(s, 0int)];
    assert(queue_ok(g, max_depth, q)) by {
        assert(q[0] == (s, 0int));
    }
    assert(levels_ok(q, None, 0)) by {
        assert(q[0] == (s, 0int));
    }
    assert forall|x: int| 0 <= x < marks.len() implies (#[trigger] marks[x] <==> visits(done, x)) by {
        if x == s {
            assert(done[0].0 == s);
        }
    }
    assert forall|j: int|
        0 <= j < done.len() && (#[trigger] done[j]).1 + 1 < max_depth && !pending(q, None, done[j])
            implies settled(g, done, done[j].0, done[j].1) by {
        assert(q[0] == done[0]);
    }
    assert(closure_ok(g, max_depth, done, q, None, marks, 0));
    lemma_bfs_run_closure(g, max_depth, done, q, None, marks, 0);
    lemma_bfs_run_fresh(g, max_depth, q, None, marks);
    lemma_bfs_run_depths(g, max_depth, q, None, marks);
    let run = bfs_run(g, max_depth, q, None, marks);
    let trace = bfs_trace(g, s, max_depth);
    assert(trace == done + run);
    assert forall|j: int| 0 <= j < trace.len() implies 0 <= (#[trigger] trace[j]).0 < n && 0 <= trace[j].1
        < max_depth by {
        if j > 0 {
            assert(trace[j] == run[j - 1]);
        }
    }
}

/// Reach over a settled trace: a chain of at most `k` edges from the start,
/// with `k` below the limit, ends at a node the trace visits at depth at
/// most `k`.
proof fn lemma_settled_reach<N: Node, E: Edge>(
    g: Graph<N, E>,
    max_depth: int,
    all: Seq<(int, int)>,
    start: NodeId,
    target: NodeId,
    k: nat,
)
    requires
        g.wf(),
        g.node_ids().contains(start),
        all.len() >= 1,
        all[0] == (pos_of(g.node_ids(), start), 0int),
        forall|j: int| 0 <= j < all.len() ==> 0 <= (#[trigger] all[j]).0 < g.node_ids().len(),
        all_settled(g, max_depth, all),
        k < max_depth,
        reach_in(g, start, target, k),
    ensures
        g.node_ids().contains(target),
        covered(all, pos_of(g.node_ids(), target), k as int),
    decreases k,
{
    lemma_pos_of(g.node_ids(), start);
    if target == start {
        assert(all[0].0 == pos_of(g.node_ids(), target));
    } else {
        let z = choose|z: NodeId| #[trigger] has_edge(g, z, target) && reach_in(g, start, z, (k - 1) as nat);
        lemma_settled_reach(g, max_depth, all, start, z, (k - 1) as nat);
        let pz = pos_of(g.node_ids(), z);
        let j = choose|j: int| 0 <= j < all.len() && (#[trigger] all[j]).0 == pz && all[j].1 <= k - 1;
        lemma_has_edge_linked(g, z, target);
        let pt = pos_of(g.node_ids(), target);
        lemma_pos_of(g.node_ids(), target);
        let kk = choose|kk: int| 0 <= kk < out_at(g, pz).len() && target_at(g, out_at(g, pz)[kk]) == pt;
        assert(settled(g, all, all[j].0, all[j].1));
        assert(covered(all, target_at(g, out_at(g, pz)[kk]), all[j].1 + 1));
    }
}

/// A bounded breadth-first traversal visits every node that a chain of at
/// most `k` stored edges leads to from `start`, for `k` below `max_depth`,
/// at a depth of at most `k`.
pub proof fn law_bfs_reaches_near_nodes<N: Node, E: Edge>(
    g: Graph<N, E>,
    start: NodeId,
    max_depth: usize,
    target: NodeId,
    k: nat,
)
    requires
        g.wf(),
        g.node_ids().contains(start),
        k < max_depth,
        reach_in(g, start, target, k),
    ensures
        exists|j: int|
            0 <= j < bfs_visit_order(g, start, max_depth).len() && (#[trigger] bfs_visit_order(
                g,
                start,
                max_depth,
            )[j]).0 == target && bfs_visit_order(g, start, max_depth)[j].1 <= k,
{
    let s = pos_of(g.node_ids(), start);
    lemma_pos_of(g.node_ids(), start);
    let m = max_depth as int;
    lemma_trace_settled(g, s, m);
    let trace = bfs_trace(g, s, m);
    lemma_settled_reach(g, m, trace, start, target, k);
    lemma_pos_of(g.node_ids(), target);
    let pt = pos_of(g.node_ids(), target);
    let j = choose|j: int| 0 <= j < trace.len() && (#[trigger] trace[j]).0 == pt && trace[j].1 <= k;
    let order = bfs_visit_order(g, start, max_depth);
    assert(order[j] == entry_id(g, trace[j]));
    assert(order[j].0 == target && order[j].1 <= k);
}

/// `d` is the length of a shortest chain of stored edges from `x` to `y`.
pub open spec fn distance_is<N: Node, E: Edge>(g: Graph<N, E>, x: NodeId, y: NodeId, d: nat) -> bool {
    reach_in(g, x, y, d) && forall|k: nat| k < d ==> !#[trigger] reach_in(g, x, y, k)
}

/// Each entry of a visiting order that starts at `start` and enters every
/// later node from an earlier one a level up is reached by a chain as long
/// as its depth.
proof fn lemma_order_reach<N: Node, E: Edge>(
    g: Graph<N, E>,
    start: NodeId,
    order: Seq<(NodeId, usize)>,
    j: int,
)
    requires
        order.len() >= 1,
        order[0] == (start, 0usize),
        entered_from_parent(g, order),
        0 <= j < order.len(),
    ensures
        reach_in(g, start, order[j].0, order[j].1 as nat),
    decreases j,
{
    if j > 0 {
        assert(entered_at(g, order, j));
        let i = choose|i: int| 0 <= i < j && order[i].1 + 1 == order[j].1 && has_edge(g, order[i].0, order[j].0);
        lemma_order_reach(g, start, order, i);
        assert(has_edge(g, order[i].0, order[j].0) && reach_in(g, start, order[i].0, (order[j].1 - 1) as nat));
    }
}

/// The depth a bounded breadth-first traversal reports for a node is the
/// length of a shortest chain of stored edges from `start` to it.
pub proof fn law_bfs_depth_is_distance<N: Node, E: Edge>(g: Graph<N, E>, start: NodeId, max_depth: usize)
    requires
        g.wf(),
        g.node_ids().contains(start),
        max_depth >= 1,
    ensures
        forall|j: int|
            0 <= j < bfs_visit_order(g, start, max_depth).len() ==> distance_is(
                g,
                start,
                (#[trigger] bfs_visit_order(g, start, max_depth)[j]).0,
                bfs_visit_order(g, start, max_depth)[j].1 as nat,
            ),
{
    let s = pos_of(g.node_ids(), start);
    lemma_pos_of(g.node_ids(), start);
    let m = max_depth as int;
    lemma_trace_settled(g, s, m);
    law_bfs_entered_from_parent(g, start, max_depth);
    law_bfs_visits_once(g, start, max_depth);
    let trace = bfs_trace(g, s, m);
    let order = bfs_visit_order(g, start, max_depth);
    assert(order[0] == entry_id(g, trace[0]));
    assert forall|j: int| 0 <= j < order.len() implies distance_is(g, start, (#[trigger] order[j]).0, order[j].1 as nat) by {
        lemma_order_reach(g, start, order, j);
        assert(order[j] == entry_id(g, trace[j]));
        assert forall|k: nat| k < order[j].1 implies !#[trigger] reach_in(g, start, order[j].0, k) by {
            if reach_in(g, start, order[j].0, k) {
                law_bfs_reaches_near_nodes(g, start, max_depth, order[j].0, k);
                let i = choose|i: int| 0 <= i < order.len() && (#[trigger] order[i]).0 == order[j].0 && order[i].1 <= k;
                assert(entry_ids(order)[i] == order[i].0);
                assert(entry_ids(order)[j] == order[j].0);
            }
        }
    }
}

} // verus!
