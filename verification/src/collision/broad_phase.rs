//! Broad phase: sweep and prune along x.
//!
//! Boxes are sorted by their lower x bound; a sweep keeps the boxes whose
//! upper x bound reaches the current box's lower x bound, and tests the
//! current box against each of them on all three axes. Each overlapping pair
//! is reported once, as `(lower index, higher index)`.
//!
//! Bounds are given as order keys: for each axis, comparing two keys
//! compares the two bounds they stand for.

use vstd::prelude::*;

verus! {

/// Index of a body in the slice handed to [`broad_phase`].
pub type BodyIndex = u32;

/// Axis-aligned box given by the order keys of its bounds.
#[derive(Clone, Copy, Debug, Default, PartialEq, Eq, Structural)]
pub struct AabbKey {
    /// Key of the lower x bound.
    pub min_x: u32,
    /// Key of the lower y bound.
    pub min_y: u32,
    /// Key of the lower z bound.
    pub min_z: u32,
    /// Key of the upper x bound.
    pub max_x: u32,
    /// Key of the upper y bound.
    pub max_y: u32,
    /// Key of the upper z bound.
    pub max_z: u32,
}

/// Two boxes overlap when their bound intervals meet on every axis (touching
/// counts; a box with a lower bound above its upper bound is tested by the
/// same rule).
pub open spec fn boxes_overlap(a: AabbKey, b: AabbKey) -> bool {
    &&& a.min_x <= b.max_x
    &&& a.max_x >= b.min_x
    &&& a.min_y <= b.max_y
    &&& a.max_y >= b.min_y
    &&& a.min_z <= b.max_z
    &&& a.max_z >= b.min_z
}

/// Bodies `i < j` of `bodies` overlap.
pub open spec fn overlapping_pair(bodies: Seq<AabbKey>, i: int, j: int) -> bool {
    &&& 0 <= i < j < bodies.len()
    &&& boxes_overlap(bodies[i], bodies[j])
}

/// Overlap test on all three axes.
fn aabb_overlap_3d(a: &AabbKey, b: &AabbKey) -> (r: bool)
    ensures
        r == boxes_overlap(*a, *b),
{
    a.min_x <= b.max_x && a.max_x >= b.min_x && a.min_y <= b.max_y && a.max_y >= b.min_y
        && a.min_z <= b.max_z && a.max_z >= b.min_z
}

/// `pair` names two overlapping bodies, lower index first.
pub open spec fn overlap_reported(bodies: Seq<AabbKey>, pair: (BodyIndex, BodyIndex)) -> bool {
    exists|i: int, j: int| overlapping_pair(bodies, i, j) && pair == (i as BodyIndex, j as BodyIndex)
}

/// `order` lists every index below `n` exactly once.
pub open spec fn index_perm(order: Seq<usize>, n: int) -> bool {
    &&& order.len() == n
    &&& forall|k: int| 0 <= k < n ==> (#[trigger] order[k]) < n
    &&& order.no_duplicates()
    &&& forall|x: usize| x < n ==> #[trigger] order.contains(x)
}

/// `order` lists bodies by nondecreasing lower x bound.
pub open spec fn sorted_by_min_x(bodies: Seq<AabbKey>, order: Seq<usize>) -> bool {
    forall|a: int, b: int|
        0 <= a < b < order.len() ==> bodies[order[a] as int].min_x <= bodies[order[b] as int].min_x
}

/// Body `i` is swept before body `j`: its lower x bound is smaller, or the
/// bounds are equal and its index is smaller.
pub open spec fn sweeps_before(bodies: Seq<AabbKey>, i: int, j: int) -> bool {
    bodies[i].min_x < bodies[j].min_x || (bodies[i].min_x == bodies[j].min_x && i < j)
}

/// `order` lists bodies in sweep order.
pub open spec fn sweep_sorted(bodies: Seq<AabbKey>, order: Seq<usize>) -> bool {
    forall|a: int, b: int| 0 <= a < b < order.len() ==> sweeps_before(bodies, order[a] as int, order[b] as int)
}

/// Swapping two entries keeps a permutation a permutation.
proof fn lemma_swap_perm(order: Seq<usize>, n: int, a: int, b: int)
    requires
        index_perm(order, n),
        0 <= a < n,
        0 <= b < n,
    ensures
        index_perm(order.update(a, order[b]).update(b, order[a]), n),
{
    let s = order.update(a, order[b]).update(b, order[a]);
    assert forall|k: int| 0 <= k < n implies (#[trigger] s[k]) < n by {
        if k != a && k != b {
            assert(s[k] == order[k]);
        }
    }
    assert forall|i: int, j: int| 0 <= i < j < s.len() implies s[i] != s[j] by {
        let oi = if i == b { a } else if i == a { b } else { i };
        let oj = if j == b { a } else if j == a { b } else { j };
        assert(s[i] == order[oi]);
        assert(s[j] == order[oj]);
    }
    assert forall|x: usize| x < n implies #[trigger] s.contains(x) by {
        assert(order.contains(x));
        let m = choose|m: int| 0 <= m < order.len() && order[m] == x;
        let sm = if m == a { b } else if m == b { a } else { m };
        assert(s[sm] == x);
    }
}

/// Indices of `bodies` in sweep order: by nondecreasing lower x bound, equal
/// bounds by index (a stable insertion sort).
fn sort_by_min_x(bodies: &[AabbKey]) -> (order: Vec<usize>)
    ensures
        index_perm(order@, bodies@.len() as int),
        sweep_sorted(bodies@, order@),
        sorted_by_min_x(bodies@, order@),
{
    let n = bodies.len();
    let mut order: Vec<usize> = Vec::new();
    let mut i: usize = 0;
    while i < n
        invariant
            n == bodies@.len(),
            i <= n,
            order@.len() == i,
            forall|k: int| 0 <= k < i ==> order@[k] == k as usize,
        decreases n - i,
    {
        order.push(i);
        i = i + 1;
    }
    proof {
        assert forall|x: usize| x < n implies #[trigger] order@.contains(x) by {
            assert(order@[x as int] == x);
        }
    }
    let mut i: usize = 1;
    while i < n
        invariant
            n == bodies@.len(),
            1 <= i || n == 0,
            index_perm(order@, n as int),
            forall|k: int| i <= k < n ==> order@[k] == k as usize,
            forall|a: int, b: int|
                0 <= a < b < i && b < n ==> sweeps_before(bodies@, order@[a] as int, order@[b] as int),
        decreases n - i,
    {
        let mut j: usize = i;
        while j > 0 && bodies[order[j - 1]].min_x > bodies[order[j]].min_x
            invariant
                n == bodies@.len(),
                0 <= j <= i < n,
                index_perm(order@, n as int),
                order@[j as int] == i,
                forall|k: int| i < k < n ==> order@[k] == k as usize,
                forall|a: int, b: int|
                    0 <= a < b <= i && a != j && b != j ==> sweeps_before(
                        bodies@,
                        order@[a] as int,
                        order@[b] as int,
                    ),
                forall|b: int|
                    j < b <= i ==> bodies@[order@[j as int] as int].min_x < bodies@[order@[b] as int].min_x,
            decreases j,
        {
            let x = order[j - 1];
            let y = order[j];
            proof {
                lemma_swap_perm(order@, n as int, (j - 1) as int, j as int);
            }
            order.set(j - 1, y);
            order.set(j, x);
            j = j - 1;
        }
        proof {
            assert forall|k: int| 0 <= k <= i && k != j implies (#[trigger] order@[k]) < i by {
                let v = order@[k];
                if v >= i {
                    if v > i {
                        assert(order@[v as int] == v);
                    }
                    assert(order@[k] == order@[v as int] || order@[k] == order@[j as int]);
                }
            }
            assert forall|a: int, b: int|
                0 <= a < b < i + 1 && b < n implies sweeps_before(bodies@, order@[a] as int, order@[b] as int) by {
                if a == j {
                } else if b == j {
                    if a < j - 1 {
                        assert(sweeps_before(bodies@, order@[a] as int, order@[j - 1] as int));
                    }
                    assert(order@[j - 1] < i);
                }
            }
        }
        i = i + 1;
    }
    proof {
        assert forall|a: int, b: int| 0 <= a < b < order@.len() implies bodies@[order@[a] as int].min_x
            <= bodies@[order@[b] as int].min_x by {
            assert(sweeps_before(bodies@, order@[a] as int, order@[b] as int));
        }
    }
    order
}

/// Positions `p` before `t` whose box reaches every lower x bound met
/// after it, up to position `t` excluded.
pub open spec fn reaches_until(bodies: Seq<AabbKey>, order: Seq<usize>, p: int, t: int) -> bool {
    forall|s: int| p < s < t ==> bodies[order[p] as int].max_x >= bodies[order[s] as int].min_x
}

/// `active` lists, in increasing order, exactly the positions before `t`
/// that reach until `t`.
pub open spec fn active_at(bodies: Seq<AabbKey>, order: Seq<usize>, active: Seq<usize>, t: int) -> bool {
    &&& forall|a: int, b: int| 0 <= a < b < active.len() ==> active[a] < active[b]
    &&& forall|k: int| 0 <= k < active.len() ==> (#[trigger] active[k]) < t
    &&& forall|p: int|
        0 <= p < t ==> (active.contains(p as usize) <==> #[trigger] reaches_until(bodies, order, p, t))
}

/// The pair of bodies at positions `p` and `q`, lower index first.
pub open spec fn pair_at(order: Seq<usize>, p: int, q: int) -> (BodyIndex, BodyIndex) {
    let a = order[p];
    let b = order[q];
    if a < b {
        (a as BodyIndex, b as BodyIndex)
    } else {
        (b as BodyIndex, a as BodyIndex)
    }
}

/// The index of the body of `pair` that is swept later.
pub open spec fn later_of(bodies: Seq<AabbKey>, pair: (BodyIndex, BodyIndex)) -> int {
    if sweeps_before(bodies, pair.0 as int, pair.1 as int) {
        pair.1 as int
    } else {
        pair.0 as int
    }
}

/// The index of the body of `pair` that is swept earlier.
pub open spec fn earlier_of(bodies: Seq<AabbKey>, pair: (BodyIndex, BodyIndex)) -> int {
    if sweeps_before(bodies, pair.0 as int, pair.1 as int) {
        pair.0 as int
    } else {
        pair.1 as int
    }
}

/// Pair `a` is reported before pair `b`: its later-swept body is swept
/// before that of `b`, or the two are the same body and its earlier-swept
/// body is swept before that of `b`.
pub open spec fn reported_before(
    bodies: Seq<AabbKey>,
    a: (BodyIndex, BodyIndex),
    b: (BodyIndex, BodyIndex),
) -> bool {
    ||| sweeps_before(bodies, later_of(bodies, a), later_of(bodies, b))
    ||| (later_of(bodies, a) == later_of(bodies, b) && sweeps_before(
        bodies,
        earlier_of(bodies, a),
        earlier_of(bodies, b),
    ))
}

/// Position pairs `(p, q)` in increasing order of `q`, then of `p`.
pub open spec fn found_ordered(found: Seq<(int, int)>) -> bool {
    forall|x: int, y: int|
        0 <= x < y < found.len() ==> found[x].1 < found[y].1 || (found[x].1 == found[y].1 && found[x].0
            < found[y].0)
}

/// The pair of the bodies at sweep positions `p < q`: its later-swept body
/// is the one at `q`, its earlier-swept body the one at `p`.
proof fn lemma_pair_at_sides(bodies: Seq<AabbKey>, order: Seq<usize>, p: int, q: int)
    requires
        bodies.len() <= BodyIndex::MAX + 1,
        index_perm(order, bodies.len() as int),
        sweep_sorted(bodies, order),
        0 <= p < q < bodies.len(),
    ensures
        later_of(bodies, pair_at(order, p, q)) == order[q] as int,
        earlier_of(bodies, pair_at(order, p, q)) == order[p] as int,
{
    let a = order[p];
    let b = order[q];
    assert(sweeps_before(bodies, a as int, b as int));
    assert((a as BodyIndex) as int == a as int);
    assert((b as BodyIndex) as int == b as int);
}

/// What a sequence holds after a push.
proof fn lemma_push_contains<A>(s: Seq<A>, x: A, q: A)
    ensures
        s.push(x).contains(q) <==> (s.contains(q) || q == x),
{
    if s.contains(q) {
        let m = choose|m: int| 0 <= m < s.len() && s[m] == q;
        assert(s.push(x)[m] == q);
    }
    if q == x {
        assert(s.push(x)[s.len() as int] == q);
    }
    if s.push(x).contains(q) {
        let m = choose|m: int| 0 <= m < s.push(x).len() && s.push(x)[m] == q;
        if m < s.len() {
            assert(s[m] == q);
        }
    }
}

/// Keeps the active positions whose box reaches `min_x`.
fn retain_reaching(
    bodies: &[AabbKey],
    order: &Vec<usize>,
    active: &Vec<usize>,
    min_x: u32,
) -> (kept: Vec<usize>)
    requires
        forall|k: int| 0 <= k < active@.len() ==> (#[trigger] active@[k]) < order@.len(),
        forall|k: int| 0 <= k < order@.len() ==> (#[trigger] order@[k]) < bodies@.len(),
        forall|a: int, b: int| 0 <= a < b < active@.len() ==> active@[a] < active@[b],
    ensures
        forall|a: int, b: int| 0 <= a < b < kept@.len() ==> kept@[a] < kept@[b],
        forall|p: usize|
            kept@.contains(p) <==> (active@.contains(p) && bodies@[order@[p as int] as int].max_x
                >= min_x),
{
    let mut kept: Vec<usize> = Vec::new();
    let mut i: usize = 0;
    while i < active.len()
        invariant
            i <= active@.len(),
            forall|k: int| 0 <= k < active@.len() ==> (#[trigger] active@[k]) < order@.len(),
            forall|k: int| 0 <= k < order@.len() ==> (#[trigger] order@[k]) < bodies@.len(),
            forall|a: int, b: int| 0 <= a < b < active@.len() ==> active@[a] < active@[b],
            forall|a: int, b: int| 0 <= a < b < kept@.len() ==> kept@[a] < kept@[b],
            forall|k: int|
                0 <= k < kept@.len() ==> exists|m: int| 0 <= m < i && active@[m] == #[trigger] kept@[k],
            forall|p: usize|
                kept@.contains(p) <==> (active@.take(i as int).contains(p) && bodies@[order@[p as int] as int].max_x
                    >= min_x),
        decreases active@.len() - i,
    {
        let p = active[i];
        let ghost old_kept = kept@;
        if bodies[order[p]].max_x >= min_x {
            kept.push(p);
            proof {
                assert forall|a: int, b: int| 0 <= a < b < kept@.len() implies kept@[a] < kept@[b] by {
                    if b == kept@.len() - 1 && a < b {
                        let m = choose|m: int| 0 <= m < i && active@[m] == old_kept[a];
                        assert(kept@[a] == old_kept[a]);
                    } else {
                        assert(kept@[a] == old_kept[a]);
                        assert(kept@[b] == old_kept[b]);
                    }
                }
                assert forall|k: int| 0 <= k < kept@.len() implies exists|m: int|
                    0 <= m < i + 1 && active@[m] == #[trigger] kept@[k] by {
                    if k < old_kept.len() {
                        assert(kept@[k] == old_kept[k]);
                        let m = choose|m: int| 0 <= m < i && active@[m] == old_kept[k];
                    } else {
                        assert(active@[i as int] == kept@[k]);
                    }
                }
            }
        } else {
            proof {
                assert forall|k: int| 0 <= k < kept@.len() implies exists|m: int|
                    0 <= m < i + 1 && active@[m] == #[trigger] kept@[k] by {
                    let m = choose|m: int| 0 <= m < i && active@[m] == kept@[k];
                }
            }
        }
        proof {
            let pre = active@.take(i as int);
            let now = active@.take(i + 1);
            assert(now =~= pre.push(p));
            assert forall|q: usize| kept@.contains(q) <==> (now.contains(q) && bodies@[order@[q as int] as int].max_x
                >= min_x) by {
                lemma_push_contains(pre, p, q);
                if bodies@[order@[p as int] as int].max_x >= min_x {
                    assert(kept@ == old_kept.push(p));
                    lemma_push_contains(old_kept, p, q);
                } else {
                    assert(kept@ == old_kept);
                }
            }
        }
        i = i + 1;
    }
    proof {
        assert(active@.take(i as int) =~= active@);
    }
    kept
}

/// All pairs `(i, j)`, `i < j`, of bodies whose boxes overlap, each once, in
/// the order the sweep meets them: by the later-swept body of the pair, then
/// by the earlier-swept one (bodies are swept by lower x bound, equal bounds
/// by index).
pub fn broad_phase(bodies: &[AabbKey]) -> (pairs: Vec<(BodyIndex, BodyIndex)>)
    ensures
        forall|k: int| 0 <= k < pairs@.len() ==> overlap_reported(bodies@, #[trigger] pairs@[k]),
        forall|i: int, j: int|
            overlapping_pair(bodies@, i, j) ==> pairs@.contains((i as BodyIndex, j as BodyIndex)),
        bodies@.len() <= BodyIndex::MAX + 1 ==> pairs@.no_duplicates(),
        bodies@.len() <= BodyIndex::MAX + 1 ==> forall|x: int, y: int|
            0 <= x < y < pairs@.len() ==> reported_before(bodies@, pairs@[x], pairs@[y]),
{
    let n = bodies.len();
    if n < 2 {
        return Vec::new();
    }
    let order = sort_by_min_x(bodies);
    let mut pairs: Vec<(BodyIndex, BodyIndex)> = Vec::new();
    let mut active: Vec<usize> = Vec::new();
    let ghost mut found: Seq<(int, int)> = Seq::empty();
    let mut t: usize = 0;
    while t < n
        invariant
            n == bodies@.len(),
            t <= n,
            index_perm(order@, n as int),
            sorted_by_min_x(bodies@, order@),
            sweep_sorted(bodies@, order@),
            active_at(bodies@, order@, active@, t as int),
            found_ordered(found),
            pairs@.len() == found.len(),
            forall|k: int|
                0 <= k < found.len() ==> {
                    let pq = #[trigger] found[k];
                    &&& 0 <= pq.0 < pq.1 < t
                    &&& boxes_overlap(bodies@[order@[pq.1] as int], bodies@[order@[pq.0] as int])
                    &&& pairs@[k] == pair_at(order@, pq.0, pq.1)
                },
            found.no_duplicates(),
            forall|p: int, q: int|
                0 <= p < q < t && boxes_overlap(bodies@[order@[q] as int], bodies@[order@[p] as int])
                    && reaches_until(bodies@, order@, p, q + 1) ==> found.contains((p, q)),
        decreases n - t,
    {
        let idx = order[t];
        let cur = bodies[idx];
        let ghost before = active@;
        let kept = retain_reaching(bodies, &order, &active, cur.min_x);
        proof {
            assert forall|p: int| 0 <= p < t implies (kept@.contains(p as usize) <==> #[trigger] reaches_until(
                bodies@,
                order@,
                p,
                t + 1,
            )) by {
                assert((p as usize) as int == p);
                if reaches_until(bodies@, order@, p, t + 1) {
                    assert forall|s: int| p < s < t implies bodies@[order@[p] as int].max_x
                        >= bodies@[order@[s] as int].min_x by {}
                    assert(reaches_until(bodies@, order@, p, t as int));
                    assert(bodies@[order@[p] as int].max_x >= bodies@[order@[t as int] as int].min_x);
                }
                if kept@.contains(p as usize) {
                    assert(before.contains(p as usize));
                    assert(reaches_until(bodies@, order@, p, t as int));
                    assert forall|s: int| p < s < t + 1 implies bodies@[order@[p] as int].max_x
                        >= bodies@[order@[s] as int].min_x by {
                        if s < t {
                            assert(reaches_until(bodies@, order@, p, t as int));
                        }
                    }
                }
            }
            assert forall|k: int| 0 <= k < kept@.len() implies (#[trigger] kept@[k]) < t by {
                assert(kept@.contains(kept@[k]));
                let m = choose|m: int| 0 <= m < before.len() && before[m] == kept@[k];
            }
        }
        active = kept;
        let ghost found0 = found;
        let mut a: usize = 0;
        while a < active.len()
            invariant
                n == bodies@.len(),
                t < n,
                idx == order@[t as int],
                cur == bodies@[idx as int],
                index_perm(order@, n as int),
                a <= active@.len(),
                forall|x: int, y: int| 0 <= x < y < active@.len() ==> active@[x] < active@[y],
                forall|k: int| 0 <= k < active@.len() ==> (#[trigger] active@[k]) < t,
                pairs@.len() == found.len(),
                found.len() >= found0.len(),
                forall|k: int| 0 <= k < found0.len() ==> found[k] == found0[k],
                forall|k: int|
                    0 <= k < found.len() ==> {
                        let pq = #[trigger] found[k];
                        &&& 0 <= pq.0 < pq.1 <= t
                        &&& boxes_overlap(bodies@[order@[pq.1] as int], bodies@[order@[pq.0] as int])
                        &&& pairs@[k] == pair_at(order@, pq.0, pq.1)
                    },
                forall|k: int| 0 <= k < found0.len() ==> (#[trigger] found0[k]).1 < t,
                forall|p: int, q: int|
                    0 <= p < q < t && boxes_overlap(bodies@[order@[q] as int], bodies@[order@[p] as int])
                        && reaches_until(bodies@, order@, p, q + 1) ==> found0.contains((p, q)),
                forall|k: int|
                    found0.len() <= k < found.len() ==> (#[trigger] found[k]).1 == t && exists|m: int|
                        0 <= m < a && found[k].0 == active@[m],
                found.no_duplicates(),
                found_ordered(found),
                forall|m: int|
                    0 <= m < a && boxes_overlap(cur, bodies@[order@[active@[m] as int] as int])
                        ==> found.contains((active@[m] as int, t as int)),
            decreases active@.len() - a,
        {
            let p = active[a];
            let other = order[p];
            if aabb_overlap_3d(&cur, &bodies[other]) {
                let pair = if idx < other {
                    (idx as BodyIndex, other as BodyIndex)
                } else {
                    (other as BodyIndex, idx as BodyIndex)
                };
                pairs.push(pair);
                let ghost fprev = found;
                proof {
                    found = found.push((p as int, t as int));
                    assert forall|x: int, y: int| 0 <= x < y < found.len() implies found[x] != found[y] by {
                        if y == found.len() - 1 {
                            if x >= found0.len() {
                                let m = choose|m: int| 0 <= m < a && fprev[x].0 == active@[m];
                                assert(fprev[x] == found[x]);
                            } else {
                                assert(found[x] == found0[x]);
                            }
                        } else {
                            assert(found[x] == fprev[x]);
                            assert(found[y] == fprev[y]);
                        }
                    }
                    assert forall|x: int, y: int| 0 <= x < y < found.len() implies found[x].1 < found[y].1
                        || (found[x].1 == found[y].1 && found[x].0 < found[y].0) by {
                        if y == found.len() - 1 {
                            assert(found[x] == fprev[x]);
                            if x >= found0.len() {
                                let m = choose|m: int| 0 <= m < a && fprev[x].0 == active@[m];
                            } else {
                                assert(found[x] == found0[x]);
                            }
                        } else {
                            assert(found[x] == fprev[x]);
                            assert(found[y] == fprev[y]);
                        }
                    }
                    assert forall|k: int| 0 <= k < found.len() implies {
                        let pq = #[trigger] found[k];
                        &&& 0 <= pq.0 < pq.1 <= t
                        &&& boxes_overlap(bodies@[order@[pq.1] as int], bodies@[order@[pq.0] as int])
                        &&& pairs@[k] == pair_at(order@, pq.0, pq.1)
                    } by {
                        if k < fprev.len() {
                            assert(found[k] == fprev[k]);
                        }
                    }
                    assert forall|k: int| found0.len() <= k < found.len() implies (#[trigger] found[k]).1
                        == t && exists|m: int| 0 <= m < a + 1 && found[k].0 == active@[m] by {
                        if k < fprev.len() {
                            assert(found[k] == fprev[k]);
                            let m = choose|m: int| 0 <= m < a && fprev[k].0 == active@[m];
                        } else {
                            assert(found[k].0 == active@[a as int]);
                        }
                    }
                    assert forall|m: int|
                        0 <= m < a + 1 && boxes_overlap(cur, bodies@[order@[active@[m] as int] as int])
                            implies found.contains((active@[m] as int, t as int)) by {
                        if m < a {
                            let w = choose|w: int| 0 <= w < fprev.len() && fprev[w] == (active@[m] as int, t as int);
                            assert(found[w] == fprev[w]);
                        } else {
                            assert(found[found.len() - 1] == (active@[m] as int, t as int));
                        }
                    }
                }
            }
            a = a + 1;
        }
        proof {
            assert forall|p: int, q: int|
                0 <= p < q < t + 1 && boxes_overlap(bodies@[order@[q] as int], bodies@[order@[p] as int])
                    && reaches_until(bodies@, order@, p, q + 1) implies found.contains((p, q)) by {
                if q < t {
                    assert(found0.contains((p, q)));
                    let w = choose|w: int| 0 <= w < found0.len() && found0[w] == (p, q);
                    assert(found[w] == found0[w]);
                } else {
                    assert(active@.contains(p as usize));
                    let m = choose|m: int| 0 <= m < active@.len() && active@[m] == p as usize;
                }
            }
        }
        let ghost kept_view = active@;
        active.push(t);
        proof {
            assert forall|x: int, y: int| 0 <= x < y < active@.len() implies active@[x] < active@[y] by {
                if y == active@.len() - 1 {
                    assert(active@[x] == kept_view[x]);
                }
            }
            assert forall|p: int| 0 <= p < t + 1 implies (active@.contains(p as usize) <==> #[trigger] reaches_until(
                bodies@,
                order@,
                p,
                t + 1,
            )) by {
                if p < t {
                    if kept_view.contains(p as usize) {
                        let m = choose|m: int| 0 <= m < kept_view.len() && kept_view[m] == p as usize;
                        assert(active@[m] == p as usize);
                    }
                    if active@.contains(p as usize) {
                        let m = choose|m: int| 0 <= m < active@.len() && active@[m] == p as usize;
                        if m < kept_view.len() {
                            assert(kept_view[m] == p as usize);
                        }
                    }
                } else {
                    assert(active@[active@.len() - 1] == t);
                }
            }
        }
        t = t + 1;
    }
    proof {
        lemma_found_pairs(bodies@, order@, found, pairs@);
    }
    pairs
}

/// From the positions found by the sweep to the pairs of body indices.
proof fn lemma_found_pairs(
    bodies: Seq<AabbKey>,
    order: Seq<usize>,
    found: Seq<(int, int)>,
    pairs: Seq<(BodyIndex, BodyIndex)>,
)
    requires
        bodies.len() <= usize::MAX,
        index_perm(order, bodies.len() as int),
        sorted_by_min_x(bodies, order),
        sweep_sorted(bodies, order),
        found_ordered(found),
        pairs.len() == found.len(),
        forall|k: int|
            0 <= k < found.len() ==> {
                let pq = #[trigger] found[k];
                &&& 0 <= pq.0 < pq.1 < bodies.len()
                &&& boxes_overlap(bodies[order[pq.1] as int], bodies[order[pq.0] as int])
                &&& pairs[k] == pair_at(order, pq.0, pq.1)
            },
        found.no_duplicates(),
        forall|p: int, q: int|
            0 <= p < q < bodies.len() && boxes_overlap(bodies[order[q] as int], bodies[order[p] as int])
                && reaches_until(bodies, order, p, q + 1) ==> found.contains((p, q)),
    ensures
        forall|k: int| 0 <= k < pairs.len() ==> overlap_reported(bodies, #[trigger] pairs[k]),
        forall|i: int, j: int|
            overlapping_pair(bodies, i, j) ==> pairs.contains((i as BodyIndex, j as BodyIndex)),
        bodies.len() <= BodyIndex::MAX + 1 ==> pairs.no_duplicates(),
        bodies.len() <= BodyIndex::MAX + 1 ==> forall|x: int, y: int|
            0 <= x < y < pairs.len() ==> reported_before(bodies, pairs[x], pairs[y]),
{
    let n = bodies.len() as int;
    if n <= BodyIndex::MAX + 1 {
        assert forall|x: int, y: int| 0 <= x < y < pairs.len() implies reported_before(bodies, pairs[x], pairs[y]) by {
            let f = found[x];
            let h = found[y];
            lemma_pair_at_sides(bodies, order, f.0, f.1);
            lemma_pair_at_sides(bodies, order, h.0, h.1);
            if f.1 == h.1 {
                assert(sweeps_before(bodies, order[f.0] as int, order[h.0] as int));
            } else {
                assert(sweeps_before(bodies, order[f.1] as int, order[h.1] as int));
            }
        }
    }
    assert forall|k: int| 0 <= k < pairs.len() implies overlap_reported(bodies, #[trigger] pairs[k]) by {
        let pq = found[k];
        let a = order[pq.0] as int;
        let b = order[pq.1] as int;
        assert(a != b);
        if a < b {
            assert(overlapping_pair(bodies, a, b));
            assert(pairs[k] == (a as BodyIndex, b as BodyIndex));
        } else {
            assert(overlapping_pair(bodies, b, a));
            assert(pairs[k] == (b as BodyIndex, a as BodyIndex));
        }
    }
    assert forall|i: int, j: int| overlapping_pair(bodies, i, j) implies pairs.contains(
        (i as BodyIndex, j as BodyIndex),
    ) by {
        assert(order.contains(i as usize));
        assert(order.contains(j as usize));
        let pi = choose|m: int| 0 <= m < order.len() && order[m] == i as usize;
        let pj = choose|m: int| 0 <= m < order.len() && order[m] == j as usize;
        assert(order[pi] as int == i);
        assert(order[pj] as int == j);
        let p = if pi < pj { pi } else { pj };
        let q = if pi < pj { pj } else { pi };
        assert(p != q);
        assert(boxes_overlap(bodies[order[q] as int], bodies[order[p] as int]));
        assert forall|s: int| p < s < q + 1 implies bodies[order[p] as int].max_x >= bodies[order[s] as int].min_x by {
            assert(bodies[order[s] as int].min_x <= bodies[order[q] as int].min_x);
        }
        assert(found.contains((p, q)));
        let w = choose|w: int| 0 <= w < found.len() && found[w] == (p, q);
        assert(pairs[w] == (i as BodyIndex, j as BodyIndex));
    }
    if n <= BodyIndex::MAX + 1 {
        assert forall|x: int, y: int| 0 <= x < y < pairs.len() implies pairs[x] != pairs[y] by {
            let f = found[x];
            let h = found[y];
            assert(f != h);
            if pairs[x] == pairs[y] {
                assert(order[f.0] != order[f.1]);
                assert(order[h.0] != order[h.1]);
                assert(f.0 != f.1);
                if order[f.0] == order[h.0] {
                    assert(f.0 == h.0);
                    assert(order[f.1] == order[h.1]);
                    assert(f.1 == h.1);
                } else {
                    assert(order[f.0] == order[h.1]);
                    assert(order[f.1] == order[h.0]);
                    assert(f.0 == h.1);
                    assert(f.1 == h.0);
                }
            }
        }
    }
}

} // verus!
