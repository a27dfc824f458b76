//! Collision detection: the broad phase over keyed boxes, and the rim
//! bookkeeping of the expanding polytope.

pub mod broad_phase;
pub mod horizon;

pub use broad_phase::{broad_phase, AabbKey, BodyIndex};
pub use horizon::add_edge;
