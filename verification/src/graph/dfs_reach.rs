//! Reach of the unbounded depth-first traversal: a depth-first traversal
//! whose depth limit is never met visits every node that a chain of stored
//! edges leads to from its start.

use vstd::prelude::*;
use crate::graph::bfs_reach::{lemma_has_edge_linked, reach_in, visits};
use crate::graph::edge::Edge;
use crate::graph::graph::{lemma_pos_of, pos_of, Graph};
use crate::graph::node::{Node, NodeId};
use crate::graph::traversal_laws::{has_edge, law_dfs_depth_bound, lemma_dfs_run_fresh};
use crate::graph::walker::{
    count_unvisited, dfs_preorder, dfs_run, dfs_seek, dfs_trace,
    entry_id, entry_ids, frame_done, lemma_dfs_seek_marks, out_at, start_marks, target_at,
};

verus! {

/// The frame `(node, depth, _)` of visit `p` is on the stack.
pub open spec fn on_stack(stack: Seq<(int, int, int)>, p: (int, int)) -> bool {
    exists|i: int| 0 <= i < stack.len() && (#[trigger] stack[i]).0 == p.0 && stack[i].1 == p.1
}

/// The stored nodes entered by the first `upto` edges leaving node index `u`
/// are visited in `done`.
pub open spec fn edges_visited<N: Node, E: Edge>(g: Graph<N, E>, done: Seq<(int, int)>, u: int, upto: int) -> bool {
    forall|k: int|
        0 <= k < upto && k < out_at(g, u).len() && 0 <= #[trigger] target_at(g, out_at(g, u)[k])
            < g.node_ids().len() ==> visits(done, target_at(g, out_at(g, u)[k]))
}

/// State of a depth-first traversal that has reported `done`: the marks are
/// the visited nodes; each visit is no deeper than its position in `done`;
/// each frame was visited and its tried edges lead to visited nodes; every
/// visit below the last level whose frame has left the stack has all its
/// edges leading to visited nodes.
pub open spec fn dfs_closure_ok<N: Node, E: Edge>(
    g: Graph<N, E>,
    max_depth: int,
    done: Seq<(int, int)>,
    stack: Seq<(int, int, int)>,
    visited: Seq<bool>,
) -> bool {
    &&& visited.len() == g.node_ids().len()
    &&& forall|x: int| 0 <= x < visited.len() ==> (#[trigger] visited[x] <==> visits(done, x))
    &&& forall|j: int| 0 <= j < done.len() ==> (#[trigger] done[j]).1 <= j
    &&& forall|i: int| 0 <= i < stack.len() ==> done.contains(((#[trigger] stack[i]).0, stack[i].1))
    &&& forall|i: int| 0 <= i < stack.len() ==> edges_visited(g, done, (#[trigger] stack[i]).0, stack[i].2)
    &&& forall|j: int|
        0 <= j < done.len() && (#[trigger] done[j]).1 + 1 < max_depth && !on_stack(stack, done[j])
            ==> edges_visited(g, done, done[j].0, out_at(g, done[j].0).len() as int)
}

/// Recording one more visit keeps what `done` visits.
proof fn lemma_visits_push<N: Node, E: Edge>(g: Graph<N, E>, done: Seq<(int, int)>, p: (int, int))
    ensures
        forall|t: int| visits(done, t) ==> visits(done.push(p), t),
        forall|u: int, upto: int| edges_visited(g, done, u, upto) ==> edges_visited(g, done.push(p), u, upto),
{
    assert forall|t: int| visits(done, t) implies visits(done.push(p), t) by {
        let j = choose|j: int| 0 <= j < done.len() && (#[trigger] done[j]).0 == t;
        assert(done.push(p)[j] == done[j]);
    }
}

/// A depth-first search step keeps the closure state: with no report the
/// stack is empty; with a report, the state after recording it and pushing
/// its frame is a closure state again.
pub proof fn lemma_dfs_seek_closure<N: Node, E: Edge>(
    g: Graph<N, E>,
    max_depth: int,
    done: Seq<(int, int)>,
    stack: Seq<(int, int, int)>,
    visited: Seq<bool>,
)
    requires
        dfs_closure_ok(g, max_depth, done, stack, visited),
    ensures
        ({
            let r = dfs_seek(g, max_depth, stack, visited);
            match r.2 {
                None => r.0.len() == 0 && dfs_closure_ok(g, max_depth, done, r.0, r.1),
                Some(ev) => dfs_closure_ok(
                    g,
                    max_depth,
                    done.push((ev.0, ev.2)),
                    r.0.push((ev.0, ev.2, 0)),
                    r.1,
                ),
            }
        }),
    decreases stack.len(), if stack.len() > 0 {
        out_at(g, stack.last().0).len() - stack.last().2
    } else {
        0
    },
{
    if stack.len() > 0 {
        let top = stack.len() - 1;
        let f = stack.last();
        assert(stack[top] == f);
        if frame_done(g, max_depth, f) {
            let rest = stack.drop_last();
            assert forall|j: int|
                0 <= j < done.len() && (#[trigger] done[j]).1 + 1 < max_depth && !on_stack(rest, done[j])
                    implies edges_visited(g, done, done[j].0, out_at(g, done[j].0).len() as int) by {
                if on_stack(stack, done[j]) {
                    let i = choose|i: int| 0 <= i < stack.len() && (#[trigger] stack[i]).0 == done[j].0 && stack[i].1 == done[j].1;
                    if i < top {
                        assert(rest[i] == stack[i]);
                    }
                    assert(edges_visited(g, done, f.0, f.2));
                }
            }
            assert forall|i: int| 0 <= i < rest.len() implies done.contains(((#[trigger] rest[i]).0, rest[i].1))
                && edges_visited(g, done, rest[i].0, rest[i].2) by {
                assert(rest[i] == stack[i]);
            }
            lemma_dfs_seek_closure(g, max_depth, done, rest, visited);
        } else {
            let e = out_at(g, f.0)[f.2];
            let t = target_at(g, e);
            let mf = (f.0, f.1, f.2 + 1);
            let moved = stack.update(top, mf);
            assert forall|p: (int, int)| on_stack(stack, p) implies on_stack(moved, p) by {
                let i = choose|i: int| 0 <= i < stack.len() && (#[trigger] stack[i]).0 == p.0 && stack[i].1 == p.1;
                assert(moved[i].0 == stack[i].0 && moved[i].1 == stack[i].1);
            }
            if 0 <= t < visited.len() && !visited[t] {
                lemma_dfs_seek_marks(g, max_depth, stack, visited);
                let ev = (t, f.1 + 1);
                let done2 = done.push(ev);
                let st2 = moved.push((t, f.1 + 1, 0int));
                let vis2 = visited.update(t, true);
                lemma_visits_push(g, done, ev);
                assert(done2[done.len() as int] == ev);
                assert forall|x: int| 0 <= x < vis2.len() implies (#[trigger] vis2[x] <==> visits(done2, x)) by {
                    if x != t && visits(done2, x) {
                        let j = choose|j: int| 0 <= j < done2.len() && (#[trigger] done2[j]).0 == x;
                        assert(done2[j] == done[j]);
                    }
                }
                assert(done.contains((f.0, f.1)));
                let w = choose|w: int| 0 <= w < done.len() && done[w] == (f.0, f.1);
                assert(done[w].1 <= w);
                assert forall|j: int| 0 <= j < done2.len() implies (#[trigger] done2[j]).1 <= j by {
                    if j < done.len() {
                        assert(done2[j] == done[j]);
                    }
                }
                assert forall|i: int| 0 <= i < st2.len() implies done2.contains(((#[trigger] st2[i]).0, st2[i].1))
                    && edges_visited(g, done2, st2[i].0, st2[i].2) by {
                    if i < stack.len() {
                        assert(st2[i] == moved[i]);
                        assert(done.contains((stack[i].0, stack[i].1)));
                        let v = choose|v: int| 0 <= v < done.len() && done[v] == (stack[i].0, stack[i].1);
                        assert(done2[v] == done[v]);
                        if i == top {
                            assert(edges_visited(g, done2, f.0, f.2));
                            assert forall|k: int|
                                0 <= k < f.2 + 1 && k < out_at(g, f.0).len() && 0 <= #[trigger] target_at(
                                    g,
                                    out_at(g, f.0)[k],
                                ) < g.node_ids().len() implies visits(done2, target_at(g, out_at(g, f.0)[k])) by {
                                if k == f.2 {
                                    assert(done2[done.len() as int].0 == t);
                                }
                            }
                        } else {
                            assert(moved[i] == stack[i]);
                        }
                    } else {
                        assert(st2[i] == (t, f.1 + 1, 0int));
                    }
                }
                assert forall|j: int|
                    0 <= j < done2.len() && (#[trigger] done2[j]).1 + 1 < max_depth && !on_stack(st2, done2[j])
                        implies edges_visited(g, done2, done2[j].0, out_at(g, done2[j].0).len() as int) by {
                    if j == done.len() {
                        assert(st2[moved.len() as int] == (t, f.1 + 1, 0int));
                    } else {
                        assert(done2[j] == done[j]);
                        if on_stack(moved, done[j]) {
                            let i = choose|i: int| 0 <= i < moved.len() && (#[trigger] moved[i]).0 == done[j].0 && moved[i].1 == done[j].1;
                            assert(st2[i] == moved[i]);
                        }
                    }
                }
            } else {
                assert forall|i: int| 0 <= i < moved.len() implies done.contains(((#[trigger] moved[i]).0, moved[i].1))
                    && edges_visited(g, done, moved[i].0, moved[i].2) by {
                    if i == top {
                        assert(edges_visited(g, done, f.0, f.2));
                        assert forall|k: int|
                            0 <= k < f.2 + 1 && k < out_at(g, f.0).len() && 0 <= #[trigger] target_at(
                                g,
                                out_at(g, f.0)[k],
                            ) < g.node_ids().len() implies visits(done, target_at(g, out_at(g, f.0)[k])) by {
                            if k == f.2 {
                                assert(visited[t]);
                            }
                        }
                    } else {
                        assert(moved[i] == stack[i]);
                    }
                }
                assert(moved.last() == mf);
                lemma_dfs_seek_closure(g, max_depth, done, moved, visited);
            }
        }
    }
}

/// Under a closure state, the full record of a depth-first traversal keeps
/// each visit no deeper than its position, and every visit below the last
/// level has all its edges leading to visited nodes.
pub proof fn lemma_dfs_run_closure<N: Node, E: Edge>(
    g: Graph<N, E>,
    max_depth: int,
    done: Seq<(int, int)>,
    stack: Seq<(int, int, int)>,
    visited: Seq<bool>,
)
    requires
        dfs_closure_ok(g, max_depth, done, stack, visited),
    ensures
        ({
            let all = done + dfs_run(g, max_depth, stack, visited);
            &&& forall|j: int| 0 <= j < all.len() ==> (#[trigger] all[j]).1 <= j
            &&& forall|j: int|
                0 <= j < all.len() && (#[trigger] all[j]).1 + 1 < max_depth ==> edges_visited(
                    g,
                    all,
                    all[j].0,
                    out_at(g, all[j].0).len() as int,
                )
        }),
    decreases count_unvisited(visited),
{
    let r = dfs_seek(g, max_depth, stack, visited);
    lemma_dfs_seek_marks(g, max_depth, stack, visited);
    lemma_dfs_seek_closure(g, max_depth, done, stack, visited);
    let run = dfs_run(g, max_depth, stack, visited);
    match r.2 {
        None => {
            assert(run =~= Seq::<(int, int)>::empty());
            assert(done + run =~= done);
            assert forall|j: int| 0 <= j < done.len() && (#[trigger] done[j]).1 + 1 < max_depth implies edges_visited(
                g,
                done,
                done[j].0,
                out_at(g, done[j].0).len() as int,
            ) by {
                assert(!on_stack(r.0, done[j]));
            }
        },
        Some(ev) => {
            let p = (ev.0, ev.2);
            let st2 = r.0.push((ev.0, ev.2, 0));
            let done2 = done.push(p);
            lemma_dfs_run_closure(g, max_depth, done2, st2, r.1);
            let tail = dfs_run(g, max_depth, st2, r.1);
            assert(run == seq![p] + tail);
            assert(done + run =~= done2 + tail);
        },
    }
}

/// At most one visit per unvisited mark.
proof fn lemma_count_unvisited_len(v: Seq<bool>)
    ensures
        count_unvisited(v) <= v.len(),
    decreases v.len(),
{
    if v.len() > 0 {
        lemma_count_unvisited_len(v.drop_last());
    }
}

/// A depth-first run reports at most as many visits as there are
/// unvisited marks.
proof fn lemma_dfs_run_len<N: Node, E: Edge>(
    g: Graph<N, E>,
    max_depth: int,
    stack: Seq<(int, int, int)>,
    visited: Seq<bool>,
)
    ensures
        dfs_run(g, max_depth, stack, visited).len() <= count_unvisited(visited),
    decreases count_unvisited(visited),
{
    let r = dfs_seek(g, max_depth, stack, visited);
    lemma_dfs_seek_marks(g, max_depth, stack, visited);
    if let Some(ev) = r.2 {
        lemma_dfs_run_len(g, max_depth, r.0.push((ev.0, ev.2, 0)), r.1);
    }
}

/// The trace of a depth-first traversal from a stored node index starts at
/// it, names stored node indices, has at most one entry more than there are
/// nodes, keeps each visit no deeper than its position, and leaves every
/// visit below the last level with all its edges leading to visited nodes.
proof fn lemma_dfs_trace_settled<N: Node, E: Edge>(g: Graph<N, E>, s: int, max_depth: int)
    requires
        0 <= s < g.node_ids().len(),
        max_depth >= 1,
    ensures
        ({
            let trace = dfs_trace(g, s, max_depth);
            &&& trace.len() >= 1
            &&& trace[0] == (s, 0int)
            &&& trace.len() <= g.node_ids().len() + 1
            &&& forall|j: int| 0 <= j < trace.len() ==> 0 <= (#[trigger] trace[j]).0 < g.node_ids().len()
            &&& forall|j: int| 0 <= j < trace.len() ==> (#[trigger] trace[j]).1 <= j
            &&& forall|j: int|
                0 <= j < trace.len() && (#[trigger] trace[j]).1 + 1 < max_depth ==> edges_visited(
                    g,
                    trace,
                    trace[j].0,
                    out_at(g, trace[j].0).len() as int,
                )
        }),
{
    let n = g.node_ids().len();
    let marks = start_marks(n, s);
    let st = seq![(s, 0int, 0int)];
    let done = seq![(s, 0int)];
    assert(done[0] == (s, 0int));
    assert forall|x: int| 0 <= x < marks.len() implies (#[trigger] marks[x] <==> visits(done, x)) by {
        if x == s {
            assert(done[0].0 == s);
        }
    }
    assert forall|i: int| 0 <= i < st.len() implies done.contains(((#[trigger] st[i]).0, st[i].1)) by {
        assert(st[i] == (s, 0int, 0int));
    }
    assert forall|j: int|
        0 <= j < done.len() && (#[trigger] done[j]).1 + 1 < max_depth && !on_stack(st, done[j]) implies edges_visited(
            g,
            done,
            done[j].0,
            out_at(g, done[j].0).len() as int,
        ) by {
        assert(st[0].0 == done[0].0 && st[0].1 == done[0].1);
    }
    assert(dfs_closure_ok(g, max_depth, done, st, marks));
    lemma_dfs_run_closure(g, max_depth, done, st, marks);
    lemma_dfs_run_fresh(g, max_depth, st, marks);
    lemma_dfs_run_len(g, max_depth, st, marks);
    lemma_count_unvisited_len(marks);
    let run = dfs_run(g, max_depth, st, marks);
    let trace = dfs_trace(g, s, max_depth);
    assert(trace == done + run);
    assert forall|j: int| 0 <= j < trace.len() implies 0 <= (#[trigger] trace[j]).0 < n by {
        if j > 0 {
            assert(trace[j] == run[j - 1]);
        }
    }
}

/// Reach over a depth-first trace whose depth limit is never met: a chain
/// of stored edges from the start ends at a node the trace visits.
proof fn lemma_dfs_trace_reach<N: Node, E: Edge>(
    g: Graph<N, E>,
    trace: Seq<(int, int)>,
    max_depth: int,
    start: NodeId,
    target: NodeId,
    k: nat,
)
    requires
        g.wf(),
        g.node_ids().contains(start),
        trace.len() >= 1,
        trace[0] == (pos_of(g.node_ids(), start), 0int),
        trace.len() < max_depth,
        forall|j: int| 0 <= j < trace.len() ==> 0 <= (#[trigger] trace[j]).0 < g.node_ids().len(),
        forall|j: int| 0 <= j < trace.len() ==> (#[trigger] trace[j]).1 <= j,
        forall|j: int|
            0 <= j < trace.len() && (#[trigger] trace[j]).1 + 1 < max_depth ==> edges_visited(
                g,
                trace,
                trace[j].0,
                out_at(g, trace[j].0).len() as int,
            ),
        reach_in(g, start, target, k),
    ensures
        g.node_ids().contains(target),
        visits(trace, pos_of(g.node_ids(), target)),
    decreases k,
{
    lemma_pos_of(g.node_ids(), start);
    if target == start {
        assert(trace[0].0 == pos_of(g.node_ids(), target));
    } else {
        let z = choose|z: NodeId| #[trigger] has_edge(g, z, target) && reach_in(g, start, z, (k - 1) as nat);
        lemma_dfs_trace_reach(g, trace, max_depth, start, z, (k - 1) as nat);
        let pz = pos_of(g.node_ids(), z);
        let j = choose|j: int| 0 <= j < trace.len() && (#[trigger] trace[j]).0 == pz;
        lemma_has_edge_linked(g, z, target);
        let pt = pos_of(g.node_ids(), target);
        lemma_pos_of(g.node_ids(), target);
        let kk = choose|kk: int| 0 <= kk < out_at(g, pz).len() && target_at(g, out_at(g, pz)[kk]) == pt;
        assert(trace[j].1 + 1 < max_depth);
        assert(edges_visited(g, trace, pz, out_at(g, pz).len() as int));
        assert(visits(trace, target_at(g, out_at(g, pz)[kk])));
    }
}

/// A depth-first traversal from `start` with the depth limit `usize::MAX`
/// (which a graph of fewer than `usize::MAX - 1` nodes never meets) visits
/// every node that a chain of stored edges leads to from `start`.
pub proof fn law_dfs_unbounded_reaches_all<N: Node, E: Edge>(
    g: Graph<N, E>,
    start: NodeId,
    target: NodeId,
    k: nat,
)
    requires
        g.wf(),
        g.node_ids().contains(start),
        g.node_ids().len() + 1 < usize::MAX,
        reach_in(g, start, target, k),
    ensures
        entry_ids(dfs_preorder(g, start, usize::MAX)).contains(target),
{
    let s = pos_of(g.node_ids(), start);
    lemma_pos_of(g.node_ids(), start);
    let m = usize::MAX as int;
    lemma_dfs_trace_settled(g, s, m);
    let trace = dfs_trace(g, s, m);
    lemma_dfs_trace_reach(g, trace, m, start, target, k);
    lemma_pos_of(g.node_ids(), target);
    let pt = pos_of(g.node_ids(), target);
    let j = choose|j: int| 0 <= j < trace.len() && (#[trigger] trace[j]).0 == pt;
    let order = dfs_preorder(g, start, usize::MAX);
    assert(order[j] == entry_id(g, trace[j]));
    assert(entry_ids(order)[j] == target);
}

} // verus!
