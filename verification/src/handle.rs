//! Generational handles for bodies and constraints, and plain island handles.

use vstd::prelude::*;

verus! {

/// Body handle: slot `index` plus the `generation` that detects use after free.
#[derive(Clone, Copy, Debug, Default, PartialEq, Eq, Hash, Structural)]
pub struct BodyHandle {
    /// Slot index.
    pub index: u32,
    /// Generation, bumped whenever the slot is freed.
    pub generation: u32,
}

impl BodyHandle {
    /// The invalid handle (all parts zero).
    pub fn invalid() -> (h: BodyHandle)
        ensures
            h.index == 0 && h.generation == 0,
    {
        BodyHandle { index: 0, generation: 0 }
    }

    /// Whether a handle equals the invalid one.
    pub open spec fn spec_is_invalid(self) -> bool {
        self.index == 0 && self.generation == 0
    }

    /// Builds a handle from its two parts.
    pub fn new(index: u32, generation: u32) -> (h: BodyHandle)
        ensures
            h.index == index,
            h.generation == generation,
    {
        BodyHandle { index, generation }
    }

    /// Rebuilds a handle from its raw parts (the same as [`BodyHandle::new`]).
    pub fn from_raw(index: u32, generation: u32) -> (h: BodyHandle)
        ensures
            h.index == index,
            h.generation == generation,
    {
        BodyHandle { index, generation }
    }

    /// Whether this handle is [`BodyHandle::invalid`].
    pub fn is_invalid(self) -> (r: bool)
        ensures
            r == self.spec_is_invalid(),
    {
        self == Self::invalid()
    }
}

/// Constraint handle, shaped like [`BodyHandle`].
#[derive(Clone, Copy, Debug, Default, PartialEq, Eq, Hash, Structural)]
pub struct ConstraintHandle {
    /// Constraint index.
    pub index: u32,
    /// Generation.
    pub generation: u32,
}

impl ConstraintHandle {
    /// The invalid handle (all parts zero).
    pub fn invalid() -> (h: ConstraintHandle)
        ensures
            h.index == 0 && h.generation == 0,
    {
        ConstraintHandle { index: 0, generation: 0 }
    }

    /// Whether a handle equals the invalid one.
    pub open spec fn spec_is_invalid(self) -> bool {
        self.index == 0 && self.generation == 0
    }

    /// Builds a handle from its two parts.
    pub fn new(index: u32, generation: u32) -> (h: ConstraintHandle)
        ensures
            h.index == index,
            h.generation == generation,
    {
        ConstraintHandle { index, generation }
    }

    /// Rebuilds a handle from its raw parts (the same as [`ConstraintHandle::new`]).
    pub fn from_raw(index: u32, generation: u32) -> (h: ConstraintHandle)
        ensures
            h.index == index,
            h.generation == generation,
    {
        ConstraintHandle { index, generation }
    }

    /// Whether this handle is [`ConstraintHandle::invalid`].
    pub fn is_invalid(self) -> (r: bool)
        ensures
            r == self.spec_is_invalid(),
    {
        self == Self::invalid()
    }
}

/// Island handle: an index only (islands are never freed, so no generation).
#[derive(Clone, Copy, Debug, Default, PartialEq, Eq, Hash, Structural)]
pub struct IslandHandle(pub u32);

impl IslandHandle {
    /// The invalid handle (all parts zero).
    pub fn invalid() -> (h: IslandHandle)
        ensures
            h.0 == 0,
    {
        IslandHandle(0)
    }

    /// Builds an island handle.
    pub fn new(index: u32) -> (h: IslandHandle)
        ensures
            h.0 == index,
    {
        IslandHandle(index)
    }

    /// Rebuilds an island handle from its raw index (the same as [`IslandHandle::new`]).
    pub fn from_raw(index: u32) -> (h: IslandHandle)
        ensures
            h.0 == index,
    {
        IslandHandle(index)
    }

    /// Whether this handle is [`IslandHandle::invalid`].
    pub fn is_invalid(self) -> (r: bool)
        ensures
            r == (self.0 == 0),
    {
        self == Self::invalid()
    }
}

} // verus!
