//! Small tag enums shared by the runtime: solver kind, physics LOD,
//! determinism mode, time stepper and shape type.

use vstd::prelude::*;

verus! {

/// Solver kind.
#[derive(Clone, Copy, Debug, PartialEq, Eq, Structural)]
pub enum SolverTypeId {
    /// Sequential impulse.
    SequentialImpulse,
    /// XPBD (reserved).
    Xpbd,
}

/// Physics level of detail.
#[derive(Clone, Copy, Debug, PartialEq, Eq, Structural)]
pub enum PhysicsLodTag {
    /// Full physics, solved every frame.
    Lod0Full,
    /// Reduced physics (lower rate or simpler solver).
    Lod1Reduced,
    /// Approximate physics (extrapolation or fit).
    Lod2Approximation,
    /// Cached behaviour (previous frame extrapolated).
    Lod3CachedBehavior,
    /// Static: not solved, transform only.
    Lod4Static,
}

/// Determinism mode.
#[derive(Clone, Copy, Debug, Default, PartialEq, Eq, Structural)]
pub enum DeterminismMode {
    /// Performance first; may be non-deterministic.
    #[default]
    BestEffort,
    /// Strict determinism.
    Strict,
}

/// Time stepping algorithm.
#[derive(Clone, Copy, Debug, Default, PartialEq, Eq, Hash, Structural)]
pub enum TimeStepper {
    /// Semi-implicit (symplectic) Euler, the default.
    #[default]
    SemiImplicitEuler,
    /// Explicit (forward) Euler.
    ExplicitEuler,
    /// Classic fourth-order Runge-Kutta.
    Rk4,
}

impl TimeStepper {
    /// Whether the stepper is symplectic (energy-stable).
    pub fn is_symplectic(self) -> (r: bool)
        ensures
            r == (self == TimeStepper::SemiImplicitEuler),
    {
        match self {
            TimeStepper::SemiImplicitEuler => true,
            _ => false,
        }
    }
}

/// Shape type tag.
#[derive(Clone, Copy, Debug, PartialEq, Eq, Hash, Structural)]
pub enum ShapeType {
    /// Sphere.
    Sphere,
    /// Box.
    Box3,
    /// Capsule.
    Capsule,
    /// Infinite plane (half space).
    Plane,
    /// Convex hull.
    ConvexHull,
}

/// Why a convex hull cannot be built.
#[derive(Clone, Copy, Debug, PartialEq, Eq, Structural)]
pub enum ConvexError {
    /// Fewer than 4 points (a hull needs at least 4 non-coplanar points).
    TooFewPoints(usize),
}

/// Checks the point count of a convex hull: at least 4 points.
pub fn check_hull_point_count(n: usize) -> (r: Result<(), ConvexError>)
    ensures
        n < 4 ==> r == Err::<(), ConvexError>(ConvexError::TooFewPoints(n)),
        n >= 4 ==> r is Ok,
{
    if n < 4 {
        Err(ConvexError::TooFewPoints(n))
    } else {
        Ok(())
    }
}

} // verus!
