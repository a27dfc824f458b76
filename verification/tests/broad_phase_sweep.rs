//! Sweep-and-prune broad phase over keyed boxes.

use gvpe::{broad_phase, AabbKey, BodyIndex};

/// Order key of a float bound: comparing keys compares the floats (both
/// zeros share one key).
fn key(f: f32) -> u32 {
    let f = if f == 0.0 { 0.0f32 } else { f };
    let b = f.to_bits();
    if b & 0x8000_0000 != 0 {
        !b
    } else {
        b | 0x8000_0000
    }
}

fn aabb(min: [f32; 3], max: [f32; 3]) -> AabbKey {
    AabbKey {
        min_x: key(min[0]),
        min_y: key(min[1]),
        min_z: key(min[2]),
        max_x: key(max[0]),
        max_y: key(max[1]),
        max_z: key(max[2]),
    }
}

fn splat(v: f32) -> [f32; 3] {
    [v, v, v]
}

#[test]
fn sap_empty() {
    let pairs = broad_phase(&[]);
    assert!(pairs.is_empty());
}

#[test]
fn sap_single_body() {
    let bodies = [aabb(splat(0.0), splat(0.0))];
    let pairs = broad_phase(&bodies);
    assert!(pairs.is_empty());
}

#[test]
fn sap_two_overlap() {
    let bodies = [aabb(splat(0.0), splat(2.0)), aabb([1.0, 0.0, 0.0], splat(3.0))];
    let mut pairs = broad_phase(&bodies);
    pairs.sort_unstable();
    assert_eq!(pairs, vec![(0, 1)]);
}

#[test]
fn sap_two_separate() {
    let bodies = [aabb(splat(0.0), splat(1.0)), aabb(splat(10.0), splat(11.0))];
    let pairs = broad_phase(&bodies);
    assert!(pairs.is_empty());
}

#[test]
fn sap_many_bodies_mixed() {
    let bodies = [
        aabb(splat(0.0), splat(2.0)),
        aabb([1.0, 0.0, 0.0], [3.0, 2.0, 2.0]),
        aabb(splat(5.0), splat(7.0)),
        aabb([6.0, 5.0, 5.0], [8.0, 7.0, 7.0]),
        aabb(splat(20.0), splat(22.0)),
    ];
    let mut pairs = broad_phase(&bodies);
    pairs.sort_unstable();
    assert_eq!(pairs, vec![(0, 1), (2, 3)]);
}

#[test]
fn sap_no_overlap_among_many() {
    let bodies: Vec<AabbKey> = (0..10)
        .map(|i| {
            let c = (i as f32) * 10.0;
            aabb(splat(c), splat(c + 1.0))
        })
        .collect();
    let pairs = broad_phase(&bodies);
    assert!(pairs.is_empty());
}

/// Every overlapping pair, by brute force.
fn all_pairs(bodies: &[AabbKey]) -> Vec<(BodyIndex, BodyIndex)> {
    let mut v = Vec::new();
    for i in 0..bodies.len() {
        for j in i + 1..bodies.len() {
            let (a, b) = (bodies[i], bodies[j]);
            if a.min_x <= b.max_x
                && a.max_x >= b.min_x
                && a.min_y <= b.max_y
                && a.max_y >= b.min_y
                && a.min_z <= b.max_z
                && a.max_z >= b.min_z
            {
                v.push((i as BodyIndex, j as BodyIndex));
            }
        }
    }
    v
}

#[test]
fn sap_matches_brute_force_with_touching_and_negative_bounds() {
    let bodies = [
        aabb([-3.0, -1.0, -1.0], [-1.0, 1.0, 1.0]),
        aabb([-1.0, 0.5, 0.0], [0.5, 2.0, 1.0]),
        aabb([0.5, -5.0, -5.0], [4.0, 5.0, 5.0]),
        aabb([-10.0, -10.0, 2.0], [10.0, 10.0, 3.0]),
        aabb([2.0, 2.0, 2.0], [2.0, 2.0, 2.0]),
        aabb([-0.0, 0.0, 0.0], [0.0, 0.0, 0.0]),
    ];
    let mut pairs = broad_phase(&bodies);
    pairs.sort_unstable();
    assert_eq!(pairs, all_pairs(&bodies));
    assert!(pairs.contains(&(0, 1)));
    assert!(pairs.contains(&(1, 2)));
}

#[test]
fn sap_reports_each_pair_once_in_lower_first_form() {
    // boxes listed right to left, all overlapping
    let bodies = [aabb([2.0, 0.0, 0.0], [5.0, 1.0, 1.0]), aabb([1.0, 0.0, 0.0], [4.0, 1.0, 1.0]), aabb(splat(0.0), [3.0, 1.0, 1.0])];
    let mut pairs = broad_phase(&bodies);
    assert_eq!(pairs.len(), 3);
    for &(i, j) in &pairs {
        assert!(i < j);
    }
    pairs.sort_unstable();
    assert_eq!(pairs, vec![(0, 1), (0, 2), (1, 2)]);
}

#[test]
fn sap_reports_pairs_in_sweep_order() {
    // Swept as 2, 1, 0 (by lower x bound): 1 meets 2, then 0 meets 2 and 1.
    let bodies = [
        aabb([2.0, 0.0, 0.0], [5.0, 1.0, 1.0]),
        aabb([1.0, 0.0, 0.0], [4.0, 1.0, 1.0]),
        aabb(splat(0.0), [3.0, 1.0, 1.0]),
    ];
    assert_eq!(broad_phase(&bodies), vec![(1, 2), (0, 2), (0, 1)]);
}

#[test]
fn sap_equal_lower_bounds_sweep_by_index() {
    // Equal lower x bounds: swept as 0, 1, 2; 3 comes first.
    let bodies = [
        aabb([1.0, 0.0, 0.0], [2.0, 1.0, 1.0]),
        aabb([1.0, 0.0, 0.0], [2.0, 1.0, 1.0]),
        aabb([1.0, 0.0, 0.0], [2.0, 1.0, 1.0]),
        aabb([0.0, 0.0, 0.0], [1.0, 1.0, 1.0]),
    ];
    assert_eq!(
        broad_phase(&bodies),
        vec![(0, 3), (1, 3), (0, 1), (2, 3), (0, 2), (1, 2)]
    );
}
