//! Handle layout and construction, and the small tag enums.

use std::mem::{align_of, size_of};

use gvpe::{
    check_hull_point_count, BodyHandle, ConstraintHandle, ConvexError, DeterminismMode,
    IslandHandle, PhysicsLodTag, TimeStepper,
};

#[test]
fn body_handle_size() {
    assert_eq!(size_of::<BodyHandle>(), 8);
    assert_eq!(align_of::<BodyHandle>(), 4);
}

#[test]
fn body_handle_invalid_detection() {
    let h = BodyHandle::invalid();
    assert!(h.is_invalid());

    let h2 = BodyHandle::new(1, 1);
    assert!(!h2.is_invalid());
}

#[test]
fn constraint_handle_size() {
    assert_eq!(size_of::<ConstraintHandle>(), 8);
}

#[test]
fn island_handle_size() {
    assert_eq!(size_of::<IslandHandle>(), 4);
    assert_eq!(align_of::<IslandHandle>(), 4);
}

#[test]
fn body_handle_from_raw_equivalent_to_new() {
    let a = BodyHandle::new(7, 13);
    let b = BodyHandle::from_raw(7, 13);
    assert_eq!(a, b);
    assert_eq!(a.index, 7);
    assert_eq!(a.generation, 13);
}

#[test]
fn constraint_handle_from_raw_equivalent_to_new() {
    let a = ConstraintHandle::new(11, 22);
    let b = ConstraintHandle::from_raw(11, 22);
    assert_eq!(a, b);
}

#[test]
fn island_handle_from_raw_equivalent_to_new() {
    let a = IslandHandle::new(42);
    let b = IslandHandle::from_raw(42);
    assert_eq!(a, b);
}

#[test]
fn invalid_handles_are_all_zero() {
    assert_eq!(BodyHandle::invalid(), BodyHandle::new(0, 0));
    assert!(!BodyHandle::new(0, 1).is_invalid());
    assert!(!BodyHandle::new(1, 0).is_invalid());
    assert!(ConstraintHandle::invalid().is_invalid());
    assert!(!ConstraintHandle::new(0, 3).is_invalid());
    assert!(IslandHandle::invalid().is_invalid());
    assert!(!IslandHandle::new(5).is_invalid());
    assert_eq!(BodyHandle::default(), BodyHandle::invalid());
}

#[test]
fn tags_and_hull_point_count() {
    assert!(TimeStepper::SemiImplicitEuler.is_symplectic());
    assert!(!TimeStepper::ExplicitEuler.is_symplectic());
    assert!(!TimeStepper::Rk4.is_symplectic());
    assert_eq!(TimeStepper::default(), TimeStepper::SemiImplicitEuler);
    assert_eq!(DeterminismMode::default(), DeterminismMode::BestEffort);
    assert_eq!(check_hull_point_count(3), Err(ConvexError::TooFewPoints(3)));
    assert_eq!(check_hull_point_count(0), Err(ConvexError::TooFewPoints(0)));
    assert_eq!(check_hull_point_count(4), Ok(()));
}

#[test]
fn body_handle_debug_copy_eq() {
    let h = BodyHandle { index: 7, generation: 3 };
    let h2 = h; // Copy
    assert_eq!(h, h2);
    let _dbg = format!("{:?}", h);
}

#[test]
fn lod_tag_values_distinct() {
    let vals = [
        PhysicsLodTag::Lod0Full,
        PhysicsLodTag::Lod1Reduced,
        PhysicsLodTag::Lod2Approximation,
        PhysicsLodTag::Lod3CachedBehavior,
        PhysicsLodTag::Lod4Static,
    ];
    for (i, a) in vals.iter().enumerate() {
        for b in &vals[i + 1..] {
            assert_ne!(a, b);
        }
    }
}
