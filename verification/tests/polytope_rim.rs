//! Rim bookkeeping of the expanding polytope.

use gvpe::add_edge;

#[test]
fn add_edge_new_edge_is_appended() {
    let mut edges: Vec<(usize, usize)> = vec![(0, 1)];
    add_edge(&mut edges, 1, 2);
    assert_eq!(edges, vec![(0, 1), (1, 2)]);
}

#[test]
fn add_edge_shared_edge_cancels_in_either_direction() {
    let mut edges: Vec<(usize, usize)> = vec![(0, 1), (1, 2), (2, 0)];
    add_edge(&mut edges, 2, 1);
    assert_eq!(edges, vec![(0, 1), (2, 0)]);
    add_edge(&mut edges, 0, 2);
    assert_eq!(edges, vec![(0, 1)]);
}

#[test]
fn add_edge_removes_only_first_occurrence() {
    let mut edges: Vec<(usize, usize)> = vec![(3, 4), (5, 6), (4, 3)];
    add_edge(&mut edges, 3, 4);
    assert_eq!(edges, vec![(5, 6), (4, 3)]);
}

#[test]
fn add_edge_two_faces_leave_their_outer_rim() {
    // Faces (0,1,2) and (0,2,3) share the edge {0,2}; the rim keeps the
    // four outer edges in the order the faces listed them.
    let mut edges: Vec<(usize, usize)> = Vec::new();
    for (a, b) in [(0, 1), (1, 2), (2, 0), (0, 2), (2, 3), (3, 0)] {
        add_edge(&mut edges, a, b);
    }
    assert_eq!(edges, vec![(0, 1), (1, 2), (2, 3), (3, 0)]);
}
