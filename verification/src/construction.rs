//! Constructions: the nodes of the connection graph. A construction is
//! data-only; its per-kind energy rates live in the injected configuration.

use vstd::prelude::*;

verus! {

/// The closed set of construction kinds.
#[derive(Clone, Copy, Debug, PartialEq, Eq, Structural)]
pub enum ConstructionKind {
    Base,
    Collector,
    Extractor,
}

/// Operational status of a construction. Only `Operating` constructions
/// take part in energy-flow assignment.
#[derive(Clone, Copy, Debug, PartialEq, Eq, Structural)]
pub enum ConstructionStatus {
    Hovering,
    Operating,
}

/// A construction. Its identity is kept beside it by callers (an opaque
/// stable id), so the value itself carries only kind and status.
#[derive(Clone, Copy, Debug, PartialEq, Eq, Structural)]
pub struct Construction {
    pub kind: ConstructionKind,
    pub status: ConstructionStatus,
}

impl Default for Construction {
    /// A freshly defaulted construction is an operating base.
    fn default() -> (c: Construction)
        ensures
            c.kind == ConstructionKind::Base,
            c.status == ConstructionStatus::Operating,
    {
        Construction { kind: ConstructionKind::Base, status: ConstructionStatus::Operating }
    }
}

} // verus!
