//! Edge ids, the relation vocabulary and the [`Edge`] trait of edge payloads.

use vstd::prelude::*;
use vstd::string::StringExecFns;
use crate::text::{hex_digits, hex_text};
use crate::graph::node::NodeId;

verus! {

/// Edge id (own id space, unique within a graph).
#[derive(Clone, Copy, Debug, Default, PartialEq, Eq, Hash, PartialOrd, Ord, Structural)]
pub struct EdgeId(pub u64);

impl EdgeId {
    /// Builds an edge id.
    pub fn new(id: u64) -> (e: EdgeId)
        ensures
            e.0 == id,
    {
        EdgeId(id)
    }

    /// The raw `u64`.
    pub fn get(self) -> (r: u64)
        ensures
            r == self.0,
    {
        self.0
    }

    /// Text of the id: `EdgeId(0x` and the id in 16 lowercase hex digits, then `)`.
    pub fn to_string(&self) -> (s: String)
        ensures
            s@ == "EdgeId(0x"@ + hex_digits(self.0 as nat, 16) + ")"@,
    {
        String::from_str("EdgeId(0x").concat(hex_text(self.0, 16).as_str()).concat(")")
    }

    /// The sentinel id `0` ("no edge").
    pub fn invalid() -> (e: EdgeId)
        ensures
            e.0 == 0,
    {
        EdgeId(0)
    }
}

/// Relation vocabulary (subset used by the runtime).
#[derive(Clone, Copy, Debug, PartialEq, Eq, Hash, Structural)]
pub enum RelationKind {
    /// Entity to material.
    HasMaterial,
    /// Entity to phase.
    HasPhase,
    /// Entity to state.
    HasState,
    /// Entity to property.
    HasProperty,
    /// Entity to process.
    ParticipatesIn,
    /// Entity to interaction.
    InteractsVia,
    /// Entity to field.
    ExistsIn,
    /// Entity to energy.
    Carries,
    /// Entity to wave.
    Generates,
    /// Entity to physical model.
    ModeledBy,
    /// Generic association (fallback).
    Generic,
}

/// Name of a relation.
pub open spec fn relation_name(r: RelationKind) -> Seq<char> {
    match r {
        RelationKind::HasMaterial => "HAS_MATERIAL"@,
        RelationKind::HasPhase => "HAS_PHASE"@,
        RelationKind::HasState => "HAS_STATE"@,
        RelationKind::HasProperty => "HAS_PROPERTY"@,
        RelationKind::ParticipatesIn => "PARTICIPATES_IN"@,
        RelationKind::InteractsVia => "INTERACTS_VIA"@,
        RelationKind::ExistsIn => "EXISTS_IN"@,
        RelationKind::Carries => "CARRIES"@,
        RelationKind::Generates => "GENERATES"@,
        RelationKind::ModeledBy => "MODELED_BY"@,
        RelationKind::Generic => "GENERIC"@,
    }
}

impl RelationKind {
    /// Name of the relation (for diagnostics and serialisation).
    pub fn as_str(self) -> (s: &'static str)
        ensures
            s@ == relation_name(self),
    {
        match self {
            RelationKind::HasMaterial => "HAS_MATERIAL",
            RelationKind::HasPhase => "HAS_PHASE",
            RelationKind::HasState => "HAS_STATE",
            RelationKind::HasProperty => "HAS_PROPERTY",
            RelationKind::ParticipatesIn => "PARTICIPATES_IN",
            RelationKind::InteractsVia => "INTERACTS_VIA",
            RelationKind::ExistsIn => "EXISTS_IN",
            RelationKind::Carries => "CARRIES",
            RelationKind::Generates => "GENERATES",
            RelationKind::ModeledBy => "MODELED_BY",
            RelationKind::Generic => "GENERIC",
        }
    }
}

/// Edge payload of the knowledge graph, implemented by the graph's users.
/// Edges are directed, `src` to `dst`.
///
/// `id`, `src` and `dst` must be stable: the graph records them when the edge
/// is added.
pub trait Edge: core::fmt::Debug + Clone {
    /// The id the edge reports.
    spec fn spec_id(&self) -> EdgeId;

    /// The source the edge reports.
    spec fn spec_src(&self) -> NodeId;

    /// The target the edge reports.
    spec fn spec_dst(&self) -> NodeId;

    /// The edge's stable id.
    fn id(&self) -> (r: EdgeId)
        ensures
            r == self.spec_id(),
    ;

    /// The relation the edge expresses.
    fn relation(&self) -> RelationKind;

    /// Source node.
    fn src(&self) -> (r: NodeId)
        ensures
            r == self.spec_src(),
    ;

    /// Target node.
    fn dst(&self) -> (r: NodeId)
        ensures
            r == self.spec_dst(),
    ;

    /// Human-readable label (for diagnostics).
    fn label(&self) -> &'static str;
}

} // verus!
