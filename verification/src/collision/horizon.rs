//! Horizon bookkeeping of the expanding polytope.
//!
//! When the polytope grows towards a new support point, every face that sees
//! the point is removed and its three edges are collected. An edge shared by
//! two removed faces lies inside the hole and cancels out; an edge seen once
//! lies on the hole's rim and keeps the direction in which its face listed
//! it, so that the new face built on it faces outwards.

use vstd::prelude::*;

verus! {

/// Edge `e` joins the vertices `a` and `b`, in either direction.
pub open spec fn same_edge(e: (usize, usize), a: usize, b: usize) -> bool {
    (e.0 == a && e.1 == b) || (e.0 == b && e.1 == a)
}

/// First position at or after `i` where `edges` holds the edge `{a, b}`, or
/// `-1` where there is none.
pub open spec fn first_match_from(edges: Seq<(usize, usize)>, a: usize, b: usize, i: int) -> int
    decreases edges.len() - i,
{
    if i < 0 || i >= edges.len() {
        -1
    } else if same_edge(edges[i], a, b) {
        i
    } else {
        first_match_from(edges, a, b, i + 1)
    }
}

/// The rim after the edge `a -> b` is added to `edges`.
pub open spec fn rim_with(edges: Seq<(usize, usize)>, a: usize, b: usize) -> Seq<(usize, usize)> {
    let p = first_match_from(edges, a, b, 0);
    if p >= 0 {
        edges.remove(p)
    } else {
        edges.push((a, b))
    }
}

/// Adds the edge `a -> b` to the rim being collected: where the edge `{a, b}`
/// is already there (in either direction), its first occurrence is removed
/// instead.
pub fn add_edge(edges: &mut Vec<(usize, usize)>, a: usize, b: usize)
    ensures
        final(edges)@ == rim_with(old(edges)@, a, b),
{
    let n = edges.len();
    let mut i: usize = 0;
    while i < n
        invariant
            n == edges.len(),
            edges@ == old(edges)@,
            i <= n,
            first_match_from(edges@, a, b, 0) == first_match_from(edges@, a, b, i as int),
        decreases n - i,
    {
        let e = edges[i];
        if (e.0 == a && e.1 == b) || (e.0 == b && e.1 == a) {
            edges.remove(i);
            return;
        }
        i = i + 1;
    }
    edges.push((a, b));
}

} // verus!
