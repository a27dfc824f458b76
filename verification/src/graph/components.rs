//! Connected components of a [`Graph`] in the undirected view: two nodes
//! belong to one component when a chain of edges, each taken in either
//! direction, joins them.

use vstd::prelude::*;
use crate::graph::edge::Edge;
use crate::graph::graph::{lemma_pos_of, pos_of, Graph};
use crate::graph::node::{Node, NodeId};
use crate::graph::walker::{count_unvisited, lemma_mark, ComponentId};

verus! {

/// Node indices (insertion order) of the source and the target of edge `j`.
pub open spec fn end_at<N: Node, E: Edge>(g: Graph<N, E>, j: int) -> (int, int) {
    (pos_of(g.node_ids(), g.edge_list()[j].1), pos_of(g.node_ids(), g.edge_list()[j].2))
}

/// Nodes `a` and `b` (by insertion index) are the two ends of some edge,
/// in either direction.
pub open spec fn joined<N: Node, E: Edge>(g: Graph<N, E>, a: int, b: int) -> bool {
    exists|j: int|
        0 <= j < g.edge_list().len() && (#[trigger] end_at(g, j) == (a, b) || end_at(g, j) == (b, a))
}

/// `p` is a chain of node indices, each joined to the next.
pub open spec fn is_chain<N: Node, E: Edge>(g: Graph<N, E>, p: Seq<int>) -> bool {
    &&& p.len() >= 1
    &&& forall|t: int| 0 <= t < p.len() ==> 0 <= #[trigger] p[t] < g.node_ids().len()
    &&& forall|t: int| 0 <= t < p.len() - 1 ==> #[trigger] joined(g, p[t], p[t + 1])
}

/// Nodes `a` and `b` (by insertion index) are joined by a chain of edges,
/// each taken in either direction.
pub open spec fn connected<N: Node, E: Edge>(g: Graph<N, E>, a: int, b: int) -> bool {
    exists|p: Seq<int>| #[trigger] is_chain(g, p) && p[0] == a && p.last() == b
}

/// Some node carries label `k`.
pub open spec fn label_used(lab: Seq<int>, k: int) -> bool {
    exists|i: int| 0 <= i < lab.len() && lab[i] == k
}

/// `lab[i]` numbers the component of node `i`: `c` components, each
/// non-empty, numbered in order of their first node, and two nodes share a
/// number exactly when they are connected.
pub open spec fn component_labels<N: Node, E: Edge>(g: Graph<N, E>, lab: Seq<int>, c: int) -> bool {
    &&& lab.len() == g.node_ids().len()
    &&& forall|i: int| 0 <= i < lab.len() ==> 0 <= #[trigger] lab[i] < c
    &&& forall|k: int| 0 <= k < c ==> #[trigger] label_used(lab, k)
    &&& forall|i: int|
        0 <= i < lab.len() && #[trigger] lab[i] > 0 ==> exists|j: int|
            0 <= j < i && lab[j] == lab[i] - 1
    &&& forall|i: int, j: int|
        0 <= i < lab.len() && 0 <= j < lab.len() ==> (#[trigger] connected(g, i, j) <==> lab[i]
            == lab[j])
}

/// The ids among the first `t` of `ids` whose label is `k`, in order.
pub open spec fn labeled_ids(ids: Seq<NodeId>, lab: Seq<int>, k: int, t: int) -> Seq<NodeId>
    decreases t,
{
    if t <= 0 {
        Seq::empty()
    } else if lab[t - 1] == k {
        labeled_ids(ids, lab, k, t - 1).push(ids[t - 1])
    } else {
        labeled_ids(ids, lab, k, t - 1)
    }
}

/// Membership in [`labeled_ids`].
pub proof fn lemma_labeled_ids(ids: Seq<NodeId>, lab: Seq<int>, k: int, t: int, x: NodeId)
    requires
        0 <= t <= ids.len(),
        t <= lab.len(),
    ensures
        labeled_ids(ids, lab, k, t).contains(x) <==> exists|i: int|
            0 <= i < t && #[trigger] ids[i] == x && lab[i] == k,
    decreases t,
{
    if t > 0 {
        lemma_labeled_ids(ids, lab, k, t - 1, x);
        let prev = labeled_ids(ids, lab, k, t - 1);
        if lab[t - 1] == k {
            let cur = prev.push(ids[t - 1]);
            if cur.contains(x) {
                let m = choose|m: int| 0 <= m < cur.len() && cur[m] == x;
                if m == prev.len() {
                    assert(ids[t - 1] == x);
                } else {
                    assert(prev[m] == x);
                }
            }
            if exists|i: int| 0 <= i < t && #[trigger] ids[i] == x && lab[i] == k {
                let i = choose|i: int| 0 <= i < t && #[trigger] ids[i] == x && lab[i] == k;
                if i == t - 1 {
                    assert(cur[prev.len() as int] == x);
                } else {
                    let m = choose|m: int| 0 <= m < prev.len() && prev[m] == x;
                    assert(cur[m] == x);
                }
            }
        } else {
            if exists|i: int| 0 <= i < t && #[trigger] ids[i] == x && lab[i] == k {
                let i = choose|i: int| 0 <= i < t && #[trigger] ids[i] == x && lab[i] == k;
                assert(i != t - 1);
            }
        }
    }
}

/// A single node is a chain.
pub proof fn lemma_connected_refl<N: Node, E: Edge>(g: Graph<N, E>, a: int)
    requires
        0 <= a < g.node_ids().len(),
    ensures
        connected(g, a, a),
{
    let p = seq![a];
    assert(is_chain(g, p));
}

/// Joined nodes are connected.
pub proof fn lemma_joined_connected<N: Node, E: Edge>(g: Graph<N, E>, a: int, b: int)
    requires
        0 <= a < g.node_ids().len(),
        0 <= b < g.node_ids().len(),
        joined(g, a, b),
    ensures
        connected(g, a, b),
{
    let p = seq![a, b];
    assert(p[0] == a && p[1] == b);
    assert(is_chain(g, p));
}

/// Connection is symmetric.
pub proof fn lemma_connected_sym<N: Node, E: Edge>(g: Graph<N, E>, a: int, b: int)
    requires
        connected(g, a, b),
    ensures
        connected(g, b, a),
{
    let p = choose|p: Seq<int>| #[trigger] is_chain(g, p) && p[0] == a && p.last() == b;
    let q = p.reverse();
    assert forall|t: int| 0 <= t < q.len() - 1 implies #[trigger] joined(g, q[t], q[t + 1]) by {
        let u = p.len() - 2 - t;
        assert(joined(g, p[u], p[u + 1]));
        assert(q[t] == p[u + 1] && q[t + 1] == p[u]);
        let j = choose|j: int|
            0 <= j < g.edge_list().len() && (#[trigger] end_at(g, j) == (p[u], p[u + 1]) || end_at(
                g,
                j,
            ) == (p[u + 1], p[u]));
        assert(end_at(g, j) == (q[t], q[t + 1]) || end_at(g, j) == (q[t + 1], q[t]));
    }
    assert forall|t: int| 0 <= t < q.len() implies 0 <= #[trigger] q[t] < g.node_ids().len() by {
        assert(q[t] == p[p.len() - 1 - t]);
    }
    assert(is_chain(g, q));
    assert(q[0] == b && q.last() == a);
}

/// Connection is transitive.
pub proof fn lemma_connected_trans<N: Node, E: Edge>(g: Graph<N, E>, a: int, b: int, c: int)
    requires
        connected(g, a, b),
        connected(g, b, c),
    ensures
        connected(g, a, c),
{
    let p = choose|p: Seq<int>| #[trigger] is_chain(g, p) && p[0] == a && p.last() == b;
    let q = choose|q: Seq<int>| #[trigger] is_chain(g, q) && q[0] == b && q.last() == c;
    let r = p + q.drop_first();
    assert forall|t: int| 0 <= t < r.len() implies 0 <= #[trigger] r[t] < g.node_ids().len() by {
        if t >= p.len() {
            assert(r[t] == q[t - p.len() + 1]);
        }
    }
    assert forall|t: int| 0 <= t < r.len() - 1 implies #[trigger] joined(g, r[t], r[t + 1]) by {
        if t < p.len() - 1 {
            assert(joined(g, p[t], p[t + 1]));
        } else {
            let u = t - p.len() + 1;
            assert(r[t] == q[u] && r[t + 1] == q[u + 1]);
            assert(joined(g, q[u], q[u + 1]));
        }
    }
    assert(is_chain(g, r));
    if q.len() == 1 {
        assert(r =~= p);
    } else {
        assert(r.last() == q.last());
    }
}

/// Along a chain, a labeling under which the two ends of every edge share
/// a label gives every node of the chain the label of its first node.
pub proof fn lemma_chain_keeps_label<N: Node, E: Edge>(g: Graph<N, E>, lab: Seq<int>, p: Seq<int>)
    requires
        is_chain(g, p),
        lab.len() == g.node_ids().len(),
        forall|j: int|
            0 <= j < g.edge_list().len() ==> lab[(#[trigger] end_at(g, j)).0] == lab[end_at(g, j).1],
    ensures
        lab[p.last()] == lab[p[0]],
    decreases p.len(),
{
    if p.len() > 1 {
        let q = p.drop_last();
        assert forall|t: int| 0 <= t < q.len() - 1 implies #[trigger] joined(g, q[t], q[t + 1]) by {
            assert(joined(g, p[t], p[t + 1]));
        }
        assert forall|t: int| 0 <= t < q.len() implies 0 <= #[trigger] q[t] < g.node_ids().len() by {
            assert(q[t] == p[t]);
        }
        lemma_chain_keeps_label(g, lab, q);
        let t = p.len() - 2;
        assert(joined(g, p[t], p[t + 1]));
        let j = choose|j: int|
            0 <= j < g.edge_list().len() && (#[trigger] end_at(g, j) == (p[t], p[t + 1]) || end_at(g, j)
                == (p[t + 1], p[t]));
        assert(lab[end_at(g, j).0] == lab[end_at(g, j).1]);
    }
}

/// The components partition the nodes: under the numbering the traversal
/// reports, every node is listed in the component of its number and in no
/// other, and the two ends of every edge lie in one component.
pub proof fn law_components_partition<N: Node, E: Edge>(g: Graph<N, E>, lab: Seq<int>, c: int)
    requires
        g.wf(),
        component_labels(g, lab, c),
    ensures
        forall|i: int|
            0 <= i < g.node_ids().len() ==> 0 <= #[trigger] lab[i] < c && labeled_ids(
                g.node_ids(),
                lab,
                lab[i],
                g.node_ids().len() as int,
            ).contains(g.node_ids()[i]),
        forall|i: int, k: int|
            0 <= i < g.node_ids().len() && 0 <= k < c && k != lab[i] ==> !#[trigger] labeled_ids(
                g.node_ids(),
                lab,
                k,
                g.node_ids().len() as int,
            ).contains(g.node_ids()[i]),
        forall|j: int|
            0 <= j < g.edge_list().len() ==> 0 <= (#[trigger] end_at(g, j)).0 < g.node_ids().len() && 0
                <= end_at(g, j).1 < g.node_ids().len() && lab[end_at(g, j).0] == lab[end_at(g, j).1],
{
    let ids = g.node_ids();
    let n = ids.len() as int;
    g.law_well_formed();
    assert forall|i: int| 0 <= i < n implies 0 <= #[trigger] lab[i] < c && labeled_ids(
        ids,
        lab,
        lab[i],
        n,
    ).contains(ids[i]) by {
        lemma_labeled_ids(ids, lab, lab[i], n, ids[i]);
    }
    assert forall|i: int, k: int| 0 <= i < n && 0 <= k < c && k != lab[i] implies !#[trigger] labeled_ids(
        ids,
        lab,
        k,
        n,
    ).contains(ids[i]) by {
        lemma_labeled_ids(ids, lab, k, n, ids[i]);
        if labeled_ids(ids, lab, k, n).contains(ids[i]) {
            let x = choose|x: int| 0 <= x < n && #[trigger] ids[x] == ids[i] && lab[x] == k;
            assert(x != i);
        }
    }
    assert forall|j: int| 0 <= j < g.edge_list().len() implies 0 <= (#[trigger] end_at(g, j)).0 < n && 0
        <= end_at(g, j).1 < n && lab[end_at(g, j).0] == lab[end_at(g, j).1] by {
        let e = g.edge_list()[j];
        assert(ids.contains(e.1) && ids.contains(e.2));
        lemma_pos_of(ids, e.1);
        lemma_pos_of(ids, e.2);
        let a = end_at(g, j).0;
        let b = end_at(g, j).1;
        assert(joined(g, a, b));
        lemma_joined_connected(g, a, b);
    }
}

/// Labels as integers.
pub open spec fn label_view(lab: Seq<usize>) -> Seq<int> {
    lab.map_values(|x: usize| x as int)
}

/// `ends[j]` holds the node indices of the ends of edge `j`, for every edge.
spec fn ends_ok<N: Node, E: Edge>(g: Graph<N, E>, ends: Seq<(usize, usize)>) -> bool {
    &&& ends.len() == g.edge_list().len()
    &&& forall|j: int|
        0 <= j < ends.len() ==> (#[trigger] ends[j]).0 as int == end_at(g, j).0 && ends[j].1 as int
            == end_at(g, j).1 && ends[j].0 < g.node_ids().len() && ends[j].1 < g.node_ids().len()
}

/// An edge with one end labeled below `c` has both ends labeled alike.
spec fn closed_at(lab: Seq<usize>, e: (usize, usize), c: int) -> bool {
    &&& lab[e.0 as int] < c ==> lab[e.1 as int] == lab[e.0 as int]
    &&& lab[e.1 as int] < c ==> lab[e.0 as int] == lab[e.1 as int]
}

/// Each end of `e` labeled `c` and not on the stack has its other end
/// labeled (`n` marks an unlabeled node).
spec fn open_ends_marked(lab: Seq<usize>, stack: Seq<usize>, e: (usize, usize), c: usize, n: usize) -> bool {
    &&& lab[e.0 as int] == c && !stack.contains(e.0) ==> lab[e.1 as int] != n
    &&& lab[e.1 as int] == c && !stack.contains(e.1) ==> lab[e.0 as int] != n
}

/// If `u` is an end of `e`, the other end is labeled.
spec fn ends_of_marked(lab: Seq<usize>, e: (usize, usize), u: usize, n: usize) -> bool {
    &&& e.0 == u ==> lab[e.1 as int] != n
    &&& e.1 == u ==> lab[e.0 as int] != n
}

/// Node indices of the ends of every edge.
fn edge_ends<N: Node, E: Edge>(g: &Graph<N, E>) -> (ends: Vec<(usize, usize)>)
    requires
        g.wf(),
    ensures
        ends_ok(*g, ends@),
{
    let m = g.edge_count();
    let mut ends: Vec<(usize, usize)> = Vec::new();
    let mut q: usize = 0;
    while q < m
        invariant
            g.wf(),
            m == g.edge_list().len(),
            q <= m,
            ends@.len() == q,
            forall|j: int|
                0 <= j < q ==> (#[trigger] ends@[j]).0 as int == end_at(*g, j).0 && ends@[j].1 as int
                    == end_at(*g, j).1 && ends@[j].0 < g.node_ids().len() && ends@[j].1
                    < g.node_ids().len(),
        decreases m - q,
    {
        let e = g.edge_end_indices(q);
        ends.push(e);
        q = q + 1;
    }
    ends
}

/// Component labels of every node, and the number of components.
#[verifier::rlimit(50)]
fn label_components<N: Node, E: Edge>(g: &Graph<N, E>) -> (res: (Vec<usize>, usize))
    requires
        g.wf(),
    ensures
        res.0@.len() == g.node_ids().len(),
        res.1 <= g.node_ids().len(),
        component_labels(*g, label_view(res.0@), res.1 as int),
{
    let n = g.node_count();
    let ends = edge_ends(g);
    let m = ends.len();
    let mut lab: Vec<usize> = vec![n; n];
    let mut marked: Vec<bool> = vec![false; n];
    let ghost mut rep: Seq<int> = Seq::empty();
    let mut c: usize = 0;
    let mut s: usize = 0;
    while s < n
        invariant
            g.wf(),
            n == g.node_ids().len(),
            ends_ok(*g, ends@),
            m == ends@.len(),
            s <= n,
            c <= s,
            lab@.len() == n,
            marked@.len() == n,
            forall|i: int| 0 <= i < n ==> (#[trigger] marked@[i] <==> lab@[i] != n),
            forall|i: int| 0 <= i < n && #[trigger] lab@[i] != n ==> lab@[i] < c,
            rep.len() == c,
            forall|k: int| 0 <= k < c ==> 0 <= #[trigger] rep[k] < s && lab@[rep[k]] == k,
            forall|k1: int, k2: int| 0 <= k1 < k2 < c ==> #[trigger] rep[k1] < #[trigger] rep[k2],
            forall|i: int|
                0 <= i < n && #[trigger] lab@[i] != n ==> rep[lab@[i] as int] <= i && connected(
                    *g,
                    rep[lab@[i] as int],
                    i,
                ),
            forall|j: int| 0 <= j < m ==> #[trigger] closed_at(lab@, ends@[j], c as int),
            forall|i: int| 0 <= i < s ==> #[trigger] lab@[i] != n,
        decreases n - s,
    {
        if lab[s] == n {
            let ghost lab_prev = lab@;
            lab.set(s, c);
            marked.set(s, true);
            proof {
                lemma_connected_refl(*g, s as int);
                rep = rep.push(s as int);
                assert forall|j: int| 0 <= j < m implies #[trigger] closed_at(lab@, ends@[j], c as int) by {
                    assert(closed_at(lab_prev, ends@[j], c as int));
                }
            }
            let mut stack: Vec<usize> = Vec::new();
            stack.push(s);
            proof {
                assert(stack@[0] == s);
                assert forall|j: int| 0 <= j < m implies #[trigger] open_ends_marked(lab@, stack@, ends@[j], c, n) by {
                    let e = ends@[j];
                    if lab@[e.0 as int] == c && e.0 != s {
                        assert(lab_prev[e.0 as int] == c);
                    }
                    if lab@[e.1 as int] == c && e.1 != s {
                        assert(lab_prev[e.1 as int] == c);
                    }
                }
            }
            while stack.len() > 0
                invariant
                    g.wf(),
                    n == g.node_ids().len(),
                    ends_ok(*g, ends@),
                    m == ends@.len(),
                    s < n,
                    c <= s,
                    lab@.len() == n,
                    marked@.len() == n,
                    lab@[s as int] == c,
                    forall|i: int| 0 <= i < n ==> (#[trigger] marked@[i] <==> lab@[i] != n),
                    forall|i: int| 0 <= i < n && #[trigger] lab@[i] != n ==> lab@[i] <= c,
                    rep.len() == c + 1,
                    rep[c as int] == s,
                    forall|k: int| 0 <= k <= c ==> 0 <= #[trigger] rep[k] <= s && lab@[rep[k]] == k,
                    forall|k1: int, k2: int| 0 <= k1 < k2 <= c ==> #[trigger] rep[k1] < #[trigger] rep[k2],
                    forall|i: int|
                        0 <= i < n && #[trigger] lab@[i] != n ==> rep[lab@[i] as int] <= i && connected(
                            *g,
                            rep[lab@[i] as int],
                            i,
                        ),
                    forall|j: int| 0 <= j < m ==> #[trigger] closed_at(lab@, ends@[j], c as int),
                    forall|j: int|
                        0 <= j < m ==> #[trigger] open_ends_marked(lab@, stack@, ends@[j], c, n),
                    forall|t: int|
                        0 <= t < stack@.len() ==> #[trigger] stack@[t] < n && lab@[stack@[t] as int] == c,
                    forall|i: int| 0 <= i < s ==> #[trigger] lab@[i] != n,
                decreases count_unvisited(marked@) + stack@.len(),
            {
                let ghost measure = count_unvisited(marked@) + stack@.len();
                let ghost stack0 = stack@;
                let u = match stack.pop() {
                    Some(u) => u,
                    None => {
                        proof {
                            assert(false);
                        }
                        0
                    },
                };
                proof {
                    assert(stack0 == stack@.push(u));
                    assert(stack0[stack0.len() - 1] == u);
                    assert forall|t: int| 0 <= t < stack@.len() implies #[trigger] stack@[t] < n && lab@[stack@[t] as int] == c by {
                        assert(stack@[t] == stack0[t]);
                    }
                }
                let mut q: usize = 0;
                while q < m
                    invariant
                        g.wf(),
                        n == g.node_ids().len(),
                        ends_ok(*g, ends@),
                        m == ends@.len(),
                        q <= m,
                        s < n,
                        c <= s,
                        u < n,
                        lab@.len() == n,
                        marked@.len() == n,
                        lab@[s as int] == c,
                        lab@[u as int] == c,
                        forall|i: int| 0 <= i < n ==> (#[trigger] marked@[i] <==> lab@[i] != n),
                        forall|i: int| 0 <= i < n && #[trigger] lab@[i] != n ==> lab@[i] <= c,
                        rep.len() == c + 1,
                        rep[c as int] == s,
                        forall|k: int| 0 <= k <= c ==> 0 <= #[trigger] rep[k] <= s && lab@[rep[k]] == k,
                        forall|k1: int, k2: int|
                            0 <= k1 < k2 <= c ==> #[trigger] rep[k1] < #[trigger] rep[k2],
                        forall|i: int|
                            0 <= i < n && #[trigger] lab@[i] != n ==> rep[lab@[i] as int] <= i && connected(
                                *g,
                                rep[lab@[i] as int],
                                i,
                            ),
                        forall|j: int| 0 <= j < m ==> #[trigger] closed_at(lab@, ends@[j], c as int),
                        forall|j: int|
                            0 <= j < m ==> #[trigger] open_ends_marked(lab@, stack@.push(u), ends@[j], c, n),
                        forall|j: int| 0 <= j < q ==> #[trigger] ends_of_marked(lab@, ends@[j], u, n),
                        forall|t: int|
                            0 <= t < stack@.len() ==> #[trigger] stack@[t] < n && lab@[stack@[t] as int] == c,
                        forall|i: int| 0 <= i < s ==> #[trigger] lab@[i] != n,
                        count_unvisited(marked@) + stack@.len() + 1 == measure,
                    decreases m - q,
                {
                    let (a, b) = ends[q];
                    proof {
                        assert(ends_ok(*g, ends@));
                        assert(ends@[q as int].0 < n && ends@[q as int].1 < n);
                    }
                    if a == u && lab[b] == n {
                        proof {
                            assert(end_at(*g, q as int) == (u as int, b as int));
                            assert(joined(*g, u as int, b as int));
                            lemma_joined_connected(*g, u as int, b as int);
                            assert(lab@[u as int] != n);
                            lemma_connected_trans(*g, s as int, u as int, b as int);
                            lemma_mark(marked@, b as int);
                            if (b as int) < s {
                                assert(lab@[b as int] != n);
                            }
                        }
                        let ghost lab0 = lab@;
                        let ghost st0 = stack@;
                        lab.set(b, c);
                        marked.set(b, true);
                        stack.push(b);
                        proof {
                            assert forall|j: int| 0 <= j < m implies #[trigger] closed_at(lab@, ends@[j], c as int) by {
                                assert(closed_at(lab0, ends@[j], c as int));
                            }
                            assert forall|x: usize| !stack@.push(u).contains(x) implies !st0.push(u).contains(x) by {
                                if st0.push(u).contains(x) {
                                    let t = choose|t: int| 0 <= t < st0.push(u).len() && st0.push(u)[t] == x;
                                    if t < st0.len() {
                                        assert(stack@.push(u)[t] == x);
                                    } else {
                                        assert(stack@.push(u)[stack@.len() as int] == x);
                                    }
                                }
                            }
                            assert(stack@.push(u)[st0.len() as int] == b);
                            assert forall|j: int| 0 <= j < m implies #[trigger] open_ends_marked(lab@, stack@.push(u), ends@[j], c, n) by {
                                assert(open_ends_marked(lab0, st0.push(u), ends@[j], c, n));
                            }
                            assert forall|j: int| 0 <= j < q implies #[trigger] ends_of_marked(lab@, ends@[j], u, n) by {
                                assert(ends_of_marked(lab0, ends@[j], u, n));
                            }
                            assert forall|t: int| 0 <= t < stack@.len() implies #[trigger] stack@[t] < n && lab@[stack@[t] as int] == c by {
                                if t < st0.len() {
                                    assert(stack@[t] == st0[t]);
                                }
                            }
                        }
                    }
                    if b == u && lab[a] == n {
                        proof {
                            assert(end_at(*g, q as int) == (a as int, u as int));
                            assert(joined(*g, u as int, a as int));
                            lemma_joined_connected(*g, u as int, a as int);
                            assert(lab@[u as int] != n);
                            lemma_connected_trans(*g, s as int, u as int, a as int);
                            lemma_mark(marked@, a as int);
                            if (a as int) < s {
                                assert(lab@[a as int] != n);
                            }
                        }
                        let ghost lab0 = lab@;
                        let ghost st0 = stack@;
                        lab.set(a, c);
                        marked.set(a, true);
                        stack.push(a);
                        proof {
                            assert forall|j: int| 0 <= j < m implies #[trigger] closed_at(lab@, ends@[j], c as int) by {
                                assert(closed_at(lab0, ends@[j], c as int));
                            }
                            assert forall|x: usize| !stack@.push(u).contains(x) implies !st0.push(u).contains(x) by {
                                if st0.push(u).contains(x) {
                                    let t = choose|t: int| 0 <= t < st0.push(u).len() && st0.push(u)[t] == x;
                                    if t < st0.len() {
                                        assert(stack@.push(u)[t] == x);
                                    } else {
                                        assert(stack@.push(u)[stack@.len() as int] == x);
                                    }
                                }
                            }
                            assert(stack@.push(u)[st0.len() as int] == a);
                            assert forall|j: int| 0 <= j < m implies #[trigger] open_ends_marked(lab@, stack@.push(u), ends@[j], c, n) by {
                                assert(open_ends_marked(lab0, st0.push(u), ends@[j], c, n));
                            }
                            assert forall|j: int| 0 <= j < q implies #[trigger] ends_of_marked(lab@, ends@[j], u, n) by {
                                assert(ends_of_marked(lab0, ends@[j], u, n));
                            }
                            assert forall|t: int| 0 <= t < stack@.len() implies #[trigger] stack@[t] < n && lab@[stack@[t] as int] == c by {
                                if t < st0.len() {
                                    assert(stack@[t] == st0[t]);
                                }
                            }
                        }
                    }
                    proof {
                        assert(ends_of_marked(lab@, ends@[q as int], u, n));
                    }
                    q = q + 1;
                }
                proof {
                    assert forall|j: int| 0 <= j < m implies #[trigger] open_ends_marked(lab@, stack@, ends@[j], c, n) by {
                        assert(open_ends_marked(lab@, stack@.push(u), ends@[j], c, n));
                        assert(ends_of_marked(lab@, ends@[j], u, n));
                        assert forall|x: usize| stack@.push(u).contains(x) && x != u implies stack@.contains(x) by {
                            let t = choose|t: int| 0 <= t < stack@.push(u).len() && stack@.push(u)[t] == x;
                            assert(stack@[t] == x);
                        }
                        assert(stack@.push(u)[stack@.len() as int] == u);
                    }
                }
            }
            proof {
                assert forall|j: int| 0 <= j < m implies #[trigger] closed_at(lab@, ends@[j], c + 1) by {
                    assert(closed_at(lab@, ends@[j], c as int));
                    assert(open_ends_marked(lab@, stack@, ends@[j], c, n));
                    let e = ends@[j];
                    assert(!stack@.contains(e.0) && !stack@.contains(e.1));
                    if lab@[e.0 as int] != n {
                        assert(lab@[e.0 as int] <= c);
                    }
                    if lab@[e.1 as int] != n {
                        assert(lab@[e.1 as int] <= c);
                    }
                }
            }
            c = c + 1;
        }
        s = s + 1;
    }
    proof {
        let lv = label_view(lab@);
        assert forall|i: int| 0 <= i < lv.len() implies 0 <= #[trigger] lv[i] < c by {
            assert(lab@[i] != n);
        }
        assert forall|k: int| 0 <= k < c implies #[trigger] label_used(lv, k) by {
            assert(lv[rep[k]] == k);
        }
        assert forall|i: int| 0 <= i < lv.len() && #[trigger] lv[i] > 0 implies exists|j: int|
            0 <= j < i && lv[j] == lv[i] - 1 by {
            assert(lab@[i] != n);
            let k = lab@[i] as int;
            assert(rep[k - 1] < rep[k]);
            assert(lv[rep[k - 1]] == k - 1);
        }
        assert forall|j: int| 0 <= j < g.edge_list().len() implies lv[(#[trigger] end_at(*g, j)).0] == lv[end_at(
            *g,
            j,
        ).1] by {
            assert(closed_at(lab@, ends@[j], c as int));
            assert(lab@[ends@[j].0 as int] != n);
        }
        assert forall|i: int, j: int| 0 <= i < lv.len() && 0 <= j < lv.len() implies (#[trigger] connected(
            *g,
            i,
            j,
        ) <==> lv[i] == lv[j]) by {
            assert(lab@[i] != n && lab@[j] != n);
            if connected(*g, i, j) {
                let p = choose|p: Seq<int>| #[trigger] is_chain(*g, p) && p[0] == i && p.last() == j;
                lemma_chain_keeps_label(*g, lv, p);
            }
            if lv[i] == lv[j] {
                let r = rep[lab@[i] as int];
                lemma_connected_sym(*g, r, i);
                lemma_connected_trans(*g, i, r, j);
            }
        }
    }
    (lab, c)
}


/// The connected components of `g` (undirected view): component `k` holds
/// the ids of the nodes labeled `k`, in insertion order.
pub(crate) fn components_of<N: Node, E: Edge>(g: &Graph<N, E>) -> (r: Vec<(ComponentId, Vec<NodeId>)>)
    requires
        g.wf(),
    ensures
        exists|lab: Seq<int>|
            {
                &&& component_labels(*g, lab, r@.len() as int)
                &&& forall|k: int|
                    0 <= k < r@.len() ==> (#[trigger] r@[k]).0 == ComponentId(k as u32) && r@[k].1@
                        == labeled_ids(g.node_ids(), lab, k, g.node_ids().len() as int)
            },
{
    let (lab, c) = label_components(g);
    let ghost lv = label_view(lab@);
    let n = g.node_count();
    let mut result: Vec<(ComponentId, Vec<NodeId>)> = Vec::new();
    let mut k: usize = 0;
    while k < c
        invariant
            g.wf(),
            n == g.node_ids().len(),
            lab@.len() == n,
            lv == label_view(lab@),
            c <= n,
            k <= c,
            result@.len() == k,
            forall|x: int|
                0 <= x < k ==> (#[trigger] result@[x]).0 == ComponentId(x as u32) && result@[x].1@
                    == labeled_ids(g.node_ids(), lv, x, n as int),
        decreases c - k,
    {
        let mut members: Vec<NodeId> = Vec::new();
        let mut i: usize = 0;
        while i < n
            invariant
                g.wf(),
                n == g.node_ids().len(),
                lab@.len() == n,
                lv == label_view(lab@),
                i <= n,
                members@ == labeled_ids(g.node_ids(), lv, k as int, i as int),
            decreases n - i,
        {
            if lab[i] == k {
                let id = g.node_at(i).0;
                members.push(id);
            }
            i = i + 1;
        }
        result.push((ComponentId::new(k as u32), members));
        k = k + 1;
    }
    proof {
        assert(component_labels(*g, lv, result@.len() as int));
    }
    result
}

} // verus!
