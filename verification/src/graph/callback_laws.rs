//! Laws of the callback traversals: what a "stop" answer does. A bounded
//! depth-first traversal abandons the branch that was stopped (the next
//! report lies strictly above the stopped one, so a stop at the start ends
//! the traversal); a bounded breadth-first traversal reports nothing after
//! a stop.

use vstd::prelude::*;
use crate::graph::edge::{Edge, EdgeId};
use crate::graph::graph::{lemma_pos_of, pos_of, Graph};
use crate::graph::node::{Node, NodeId};
use crate::graph::walker::{
    bfs_answered, bfs_visits, count_unvisited, dfs_answered, dfs_reports_with, dfs_seek,
    dfs_visits_with, event_fits, frame_done, later_answers, lemma_dfs_seek_marks, out_at,
    start_marks, target_at, visit_of, TraversalEvent,
};

verus! {

/// Frame `t` of a depth-first stack sits at depth `t`.
pub open spec fn depth_indexed(stack: Seq<(int, int, int)>) -> bool {
    forall|t: int| 0 <= t < stack.len() ==> #[trigger] stack[t].1 == t
}

/// The answer given to report `i` (answers past the end count as "go on").
pub open spec fn answer_at(ans: Seq<bool>, i: int) -> bool {
    i >= ans.len() || ans[i]
}

/// A depth-first search step keeps frames at their depths and reports a
/// node one level below the frame it came from, the top frame of the
/// stack it leaves.
proof fn lemma_seek_depth<N: Node, E: Edge>(
    g: Graph<N, E>,
    max_depth: int,
    stack: Seq<(int, int, int)>,
    visited: Seq<bool>,
)
    requires
        depth_indexed(stack),
    ensures
        ({
            let r = dfs_seek(g, max_depth, stack, visited);
            &&& depth_indexed(r.0)
            &&& r.0.len() <= stack.len()
            &&& r.2 matches Some(ev) ==> ev.2 == r.0.len() && r.0.len() > 0
        }),
    decreases stack.len(), if stack.len() > 0 {
        out_at(g, stack.last().0).len() - stack.last().2
    } else {
        0
    },
{
    if stack.len() > 0 {
        let f = stack.last();
        assert(stack[stack.len() - 1] == f);
        if frame_done(g, max_depth, f) {
            let d = stack.drop_last();
            assert forall|t: int| 0 <= t < d.len() implies #[trigger] d[t].1 == t by {
                assert(d[t] == stack[t]);
            }
            lemma_seek_depth(g, max_depth, d, visited);
        } else {
            let e = out_at(g, f.0)[f.2];
            let t = target_at(g, e);
            let moved = stack.update(stack.len() - 1, (f.0, f.1, f.2 + 1));
            assert forall|u: int| 0 <= u < moved.len() implies #[trigger] moved[u].1 == u by {
                if u != stack.len() - 1 {
                    assert(moved[u] == stack[u]);
                }
            }
            if !(0 <= t < visited.len() && !visited[t]) {
                assert(moved.last() == (f.0, f.1, f.2 + 1));
                lemma_seek_depth(g, max_depth, moved, visited);
            }
        }
    }
}

/// Later answers are the answers shifted by one.
proof fn lemma_later_answer(ans: Seq<bool>, i: int)
    requires
        0 <= i,
    ensures
        answer_at(later_answers(ans), i) == answer_at(ans, i + 1),
{
    if ans.len() > 0 {
        if i < ans.len() - 1 {
            assert(later_answers(ans)[i] == ans[i + 1]);
        }
    }
}

/// From frames at their depths, the first report lies at most one level
/// below the stack's top, and each report lies at most one level below the
/// previous one when that one was answered "go on", and strictly above it
/// when it was answered "stop".
proof fn lemma_reports_depths<N: Node, E: Edge>(
    g: Graph<N, E>,
    max_depth: int,
    stack: Seq<(int, int, int)>,
    visited: Seq<bool>,
    ans: Seq<bool>,
)
    requires
        depth_indexed(stack),
    ensures
        ({
            let rep = dfs_reports_with(g, max_depth, stack, visited, ans);
            &&& rep.len() > 0 ==> rep[0].2 <= stack.len()
            &&& forall|i: int|
                0 <= i < rep.len() - 1 ==> rep[i + 1].2 <= #[trigger] rep[i].2 + (if answer_at(ans, i) {
                    1int
                } else {
                    -1int
                })
        }),
    decreases count_unvisited(visited),
{
    let r = dfs_seek(g, max_depth, stack, visited);
    lemma_dfs_seek_marks(g, max_depth, stack, visited);
    lemma_seek_depth(g, max_depth, stack, visited);
    if let Some(ev) = r.2 {
        let go = ans.len() == 0 || ans[0];
        let next = if go {
            r.0.push((ev.0, ev.2, 0))
        } else {
            r.0.drop_last()
        };
        assert forall|t: int| 0 <= t < next.len() implies #[trigger] next[t].1 == t by {
            if t < r.0.len() - 1 || (go && t < r.0.len()) {
                assert(next[t] == r.0[t]);
            }
        }
        let later = later_answers(ans);
        lemma_reports_depths(g, max_depth, next, r.1, later);
        let rest = dfs_reports_with(g, max_depth, next, r.1, later);
        let rep = dfs_reports_with(g, max_depth, stack, visited, ans);
        assert(rep == seq![ev] + rest);
        assert(answer_at(ans, 0) == go);
        assert forall|i: int| 0 <= i < rep.len() - 1 implies rep[i + 1].2 <= #[trigger] rep[i].2 + (if answer_at(
            ans,
            i,
        ) {
            1int
        } else {
            -1int
        }) by {
            assert(rep[i + 1] == rest[i]);
            if i > 0 {
                assert(rep[i] == rest[i - 1]);
                lemma_later_answer(ans, i - 1);
            }
        }
    }
}

/// The visits of a bounded depth-first traversal under answers `ans`: the
/// start comes first at depth 0; each visit lies at most one level below
/// the one before it; a visit answered "stop" ends its branch, so the next
/// visit lies strictly above it, and a "stop" at the start ends the
/// traversal.
pub proof fn law_dfs_stop_ends_branch<N: Node, E: Edge>(
    g: Graph<N, E>,
    s: int,
    max_depth: int,
    ans: Seq<bool>,
)
    ensures
        ({
            let vs = dfs_visits_with(g, s, max_depth, ans);
            &&& vs.len() >= 1
            &&& vs[0] == (s, None::<EdgeId>, 0int)
            &&& ans.len() > 0 && !ans[0] ==> vs.len() == 1
            &&& forall|i: int|
                0 <= i < vs.len() - 1 ==> vs[i + 1].2 <= #[trigger] vs[i].2 + 1 && (!answer_at(ans, i)
                    ==> vs[i + 1].2 < vs[i].2)
        }),
{
    let vs = dfs_visits_with(g, s, max_depth, ans);
    if !(ans.len() > 0 && !ans[0]) {
        let st = seq![(s, 0int, 0int)];
        assert forall|t: int| 0 <= t < st.len() implies #[trigger] st[t].1 == t by {}
        let later = later_answers(ans);
        let marks = start_marks(g.node_ids().len(), s);
        lemma_reports_depths(g, max_depth, st, marks, later);
        let rep = dfs_reports_with(g, max_depth, st, marks, later);
        let mv = rep.map_values(|r: (int, EdgeId, int)| visit_of(r));
        assert(vs == seq![(s, None::<EdgeId>, 0int)] + mv);
        assert forall|i: int| 0 <= i < vs.len() - 1 implies vs[i + 1].2 <= #[trigger] vs[i].2 + 1 && (
        !answer_at(ans, i) ==> vs[i + 1].2 < vs[i].2) by {
            assert(vs[i + 1] == visit_of(rep[i]));
            if i > 0 {
                assert(vs[i] == visit_of(rep[i - 1]));
                lemma_later_answer(ans, i - 1);
                assert(rep[i].2 <= rep[i - 1].2 + (if answer_at(later, i - 1) {
                    1int
                } else {
                    -1int
                }));
            } else {
                assert(answer_at(ans, 0));
            }
        }
    }
}

/// What the callback of a bounded depth-first traversal sees: the first
/// event is the start at depth 0; each event lies at most one level below
/// the one before; after an event answered "stop" the next lies strictly
/// above it; so a "stop" at the start is the only event, and a callback
/// that cannot answer "go on" to the start sees only the start.
pub proof fn law_dfs_callback_stop<'a, N: Node, E: Edge, F: FnMut(TraversalEvent<'a, N, E>) -> bool>(
    g: Graph<N, E>,
    cb: F,
    start: NodeId,
    max_depth: usize,
    ans: Seq<bool>,
    evs: Seq<TraversalEvent<'a, N, E>>,
)
    requires
        g.node_ids().contains(start),
        dfs_answered(g, cb, start, max_depth, ans, evs),
    ensures
        evs.len() >= 1,
        evs[0].node_id == start && evs[0].depth == 0 && evs[0].via_edge is None,
        forall|j: int| 0 <= j < evs.len() ==> call_ensures(cb, (#[trigger] evs[j],), ans[j]),
        !ans[0] ==> evs.len() == 1,
        forall|j: int|
            0 <= j < evs.len() - 1 ==> evs[j + 1].depth <= #[trigger] evs[j].depth + 1 && (!ans[j]
                ==> evs[j + 1].depth < evs[j].depth),
        (forall|r: bool| call_ensures(cb, (evs[0],), r) ==> !r) ==> evs.len() == 1,
{
    let s = pos_of(g.node_ids(), start);
    lemma_pos_of(g.node_ids(), start);
    let vs = dfs_visits_with(g, s, max_depth as int, ans);
    law_dfs_stop_ends_branch(g, s, max_depth as int, ans);
    assert(event_fits(g, evs[0], vs[0]));
    assert forall|j: int| 0 <= j < evs.len() - 1 implies evs[j + 1].depth <= #[trigger] evs[j].depth + 1 && (
    !ans[j] ==> evs[j + 1].depth < evs[j].depth) by {
        assert(event_fits(g, evs[j], vs[j]));
        assert(event_fits(g, evs[j + 1], vs[j + 1]));
        assert(answer_at(ans, j) == ans[j]);
        assert(vs[j + 1].2 <= vs[j].2 + 1);
    }
    if forall|r: bool| call_ensures(cb, (evs[0],), r) ==> !r {
        assert(call_ensures(cb, (evs[0],), ans[0]));
    }
}

/// What the callback of a bounded breadth-first traversal sees: the first
/// event is the start at depth 0; every event but the last was one the
/// callback may answer "go on" to; when the traversal ended before its
/// visits ran out, the last event was one the callback may answer "stop"
/// to; so a callback that cannot answer "go on" to the start sees only the
/// start.
pub proof fn law_bfs_callback_stop<'a, N: Node, E: Edge, F: FnMut(TraversalEvent<'a, N, E>) -> bool>(
    g: Graph<N, E>,
    cb: F,
    start: NodeId,
    max_depth: usize,
    k: int,
    evs: Seq<TraversalEvent<'a, N, E>>,
)
    requires
        g.node_ids().contains(start),
        bfs_answered(g, cb, start, max_depth, k, evs),
    ensures
        evs.len() >= 1,
        evs[0].node_id == start && evs[0].depth == 0 && evs[0].via_edge is None,
        forall|j: int| 0 <= j < evs.len() - 1 ==> call_ensures(cb, (#[trigger] evs[j],), true),
        evs.len()
            < bfs_visits(g, pos_of(g.node_ids(), start), max_depth as int).len() ==> call_ensures(
            cb,
            (evs.last(),),
            false,
        ),
        (forall|r: bool| call_ensures(cb, (evs[0],), r) ==> !r) ==> evs.len() == 1,
{
    let s = pos_of(g.node_ids(), start);
    lemma_pos_of(g.node_ids(), start);
    let vs = bfs_visits(g, s, max_depth as int);
    assert(vs[0] == (s, None::<EdgeId>, 0int));
    assert(vs.len() >= 1);
    assert(event_fits(g, evs[0], vs[0]));
    if forall|r: bool| call_ensures(cb, (evs[0],), r) ==> !r {
        if k >= 1 {
            assert(call_ensures(cb, (evs[0],), true));
        }
    }
    if evs.len() < vs.len() {
        assert(evs.len() == k + 1);
        assert(evs.last() == evs[k]);
    }
}

} // verus!
