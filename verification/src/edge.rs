//! Directed, typed edges between nodes, each with the reason it was drawn.

use vstd::prelude::*;
use crate::node::{random_id, utc_now, Timestamp};

verus! {

/// How the source of an edge relates to its target.
#[derive(Clone, Copy, Debug, PartialEq, Eq, Structural, Hash)]
pub enum EdgeKind {
    /// The two hypotheses share conditions or a mechanism.
    Reference,
    /// The source contains the target as a special case.
    Superset,
    /// The source is a special case of the target.
    Subset,
    /// The two hypotheses cover unrelated ground.
    Orthogonal,
}

/// The kind of the edge drawn back from target to source: superset and subset swap,
/// reference and orthogonal stay.
pub open spec fn reverse_kind(k: EdgeKind) -> EdgeKind {
    match k {
        EdgeKind::Subset => EdgeKind::Superset,
        EdgeKind::Superset => EdgeKind::Subset,
        EdgeKind::Reference => EdgeKind::Reference,
        EdgeKind::Orthogonal => EdgeKind::Orthogonal,
    }
}

/// The name of an edge kind, as its `Debug` form prints it.
pub open spec fn edge_kind_name(k: EdgeKind) -> Seq<char> {
    match k {
        EdgeKind::Reference => "Reference"@,
        EdgeKind::Superset => "Superset"@,
        EdgeKind::Subset => "Subset"@,
        EdgeKind::Orthogonal => "Orthogonal"@,
    }
}

impl EdgeKind {
    /// The kind of the reverse edge.
    pub fn reverse(self) -> (r: EdgeKind)
        ensures
            r == reverse_kind(self),
    {
        match self {
            EdgeKind::Subset => EdgeKind::Superset,
            EdgeKind::Superset => EdgeKind::Subset,
            EdgeKind::Reference => EdgeKind::Reference,
            EdgeKind::Orthogonal => EdgeKind::Orthogonal,
        }
    }

    /// The kind's name: `Reference`, `Superset`, `Subset` or `Orthogonal`.
    pub fn name(&self) -> (r: String)
        ensures
            r@ == edge_kind_name(*self),
    {
        match self {
            EdgeKind::Reference => "Reference".to_owned(),
            EdgeKind::Superset => "Superset".to_owned(),
            EdgeKind::Subset => "Subset".to_owned(),
            EdgeKind::Orthogonal => "Orthogonal".to_owned(),
        }
    }
}

/// An edge from `source` to `target`.
#[derive(Clone, Debug)]
pub struct Edge {
    pub id: u128,
    pub source: u128,
    pub target: u128,
    pub kind: EdgeKind,
    pub reason: String,
    pub created_at: Timestamp,
}

impl Edge {
    /// A new edge with a random identifier.
    pub fn new(source: u128, target: u128, kind: EdgeKind, reason: String) -> (r: Edge)
        ensures
            r.source == source,
            r.target == target,
            r.kind == kind,
            r.reason == reason,
            (r.id >> 76u128) & 0xfu128 == 4u128,
            (r.id >> 62u128) & 0x3u128 == 2u128,
    {
        Edge { id: random_id(), source, target, kind, reason, created_at: utc_now() }
    }
}

} // verus!
