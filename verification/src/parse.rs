//! Reading statuses, edge kinds, experiment kinds and verdicts from the words clients
//! send. Unknown words fall back to a default rather than fail.

use vstd::prelude::*;
use crate::edge::{edge_kind_name, EdgeKind};
use crate::node::{status_name, ExperimentKind, NodeStatus, Verdict};
use crate::text::str_eq;

verus! {

/// The status a word names: accept(ed) in either capitalisation of its first letter,
/// decline(d) or rejected likewise, and draft for anything else.
pub open spec fn spec_parse_node_status(s: Seq<char>) -> NodeStatus {
    if s == "Draft"@ || s == "draft"@ {
        NodeStatus::Draft
    } else if s == "Accept"@ || s == "accept"@ || s == "Accepted"@ || s == "accepted"@ {
        NodeStatus::Accept
    } else if s == "Decline"@ || s == "decline"@ || s == "Declined"@ || s == "declined"@
        || s == "Rejected"@ || s == "rejected"@ {
        NodeStatus::Decline
    } else {
        NodeStatus::Draft
    }
}

/// The edge kind a word names, reference for anything unknown.
pub open spec fn spec_parse_edge_kind(s: Seq<char>) -> EdgeKind {
    if s == "Reference"@ || s == "reference"@ {
        EdgeKind::Reference
    } else if s == "Superset"@ || s == "superset"@ {
        EdgeKind::Superset
    } else if s == "Subset"@ || s == "subset"@ {
        EdgeKind::Subset
    } else if s == "Orthogonal"@ || s == "orthogonal"@ {
        EdgeKind::Orthogonal
    } else {
        EdgeKind::Reference
    }
}

/// The experiment kind a word names, universe for anything unknown.
pub open spec fn spec_parse_experiment_kind(s: Seq<char>) -> ExperimentKind {
    if s == "Universe"@ || s == "universe"@ {
        ExperimentKind::Universe
    } else if s == "Regime"@ || s == "regime"@ {
        ExperimentKind::Regime
    } else if s == "Temporal"@ || s == "temporal"@ {
        ExperimentKind::Temporal
    } else if s == "Combo"@ || s == "combo"@ {
        ExperimentKind::Combo
    } else {
        ExperimentKind::Universe
    }
}

/// The verdict a word names, support for anything unknown.
pub open spec fn spec_parse_verdict(s: Seq<char>) -> Verdict {
    if s == "Support"@ || s == "support"@ {
        Verdict::Support
    } else if s == "Rebut"@ || s == "rebut"@ {
        Verdict::Rebut
    } else {
        Verdict::Support
    }
}

/// Reads a status from a word; a word it does not know reads as draft.
pub fn parse_node_status(s: &str) -> (r: NodeStatus)
    ensures
        r == spec_parse_node_status(s@),
{
    if str_eq(s, "Draft") || str_eq(s, "draft") {
        NodeStatus::Draft
    } else if str_eq(s, "Accept") || str_eq(s, "accept") || str_eq(s, "Accepted") || str_eq(
        s,
        "accepted",
    ) {
        NodeStatus::Accept
    } else if str_eq(s, "Decline") || str_eq(s, "decline") || str_eq(s, "Declined") || str_eq(
        s,
        "declined",
    ) || str_eq(s, "Rejected") || str_eq(s, "rejected") {
        NodeStatus::Decline
    } else {
        NodeStatus::Draft
    }
}

/// Reads an edge kind from a word; a word it does not know reads as reference.
pub fn parse_edge_kind(s: &str) -> (r: EdgeKind)
    ensures
        r == spec_parse_edge_kind(s@),
{
    if str_eq(s, "Reference") || str_eq(s, "reference") {
        EdgeKind::Reference
    } else if str_eq(s, "Superset") || str_eq(s, "superset") {
        EdgeKind::Superset
    } else if str_eq(s, "Subset") || str_eq(s, "subset") {
        EdgeKind::Subset
    } else if str_eq(s, "Orthogonal") || str_eq(s, "orthogonal") {
        EdgeKind::Orthogonal
    } else {
        EdgeKind::Reference
    }
}

/// Reads an experiment kind from a word; a word it does not know reads as universe.
pub fn parse_experiment_kind(s: &str) -> (r: ExperimentKind)
    ensures
        r == spec_parse_experiment_kind(s@),
{
    if str_eq(s, "Universe") || str_eq(s, "universe") {
        ExperimentKind::Universe
    } else if str_eq(s, "Regime") || str_eq(s, "regime") {
        ExperimentKind::Regime
    } else if str_eq(s, "Temporal") || str_eq(s, "temporal") {
        ExperimentKind::Temporal
    } else if str_eq(s, "Combo") || str_eq(s, "combo") {
        ExperimentKind::Combo
    } else {
        ExperimentKind::Universe
    }
}

/// Reads a verdict from a word; a word it does not know reads as support.
pub fn parse_verdict(s: &str) -> (r: Verdict)
    ensures
        r == spec_parse_verdict(s@),
{
    if str_eq(s, "Support") || str_eq(s, "support") {
        Verdict::Support
    } else if str_eq(s, "Rebut") || str_eq(s, "rebut") {
        Verdict::Rebut
    } else {
        Verdict::Support
    }
}

/// Reading a status's own name gives the status back.
pub proof fn lemma_parse_status_name(st: NodeStatus)
    ensures
        spec_parse_node_status(status_name(st)) == st,
{
    reveal_strlit("Draft");
    reveal_strlit("draft");
    reveal_strlit("Accept");
    reveal_strlit("accept");
    reveal_strlit("Accepted");
    reveal_strlit("accepted");
    reveal_strlit("Decline");
    reveal_strlit("decline");
    reveal_strlit("Declined");
    reveal_strlit("declined");
    reveal_strlit("Rejected");
    reveal_strlit("rejected");
    match st {
        NodeStatus::Draft => {},
        NodeStatus::Accept => {
            assert("Accept"@.len() != "Draft"@.len());
            assert("Accept"@.len() != "draft"@.len());
        },
        NodeStatus::Decline => {
            assert("Decline"@.len() != "Draft"@.len());
            assert("Decline"@.len() != "draft"@.len());
            assert("Decline"@.len() != "Accept"@.len());
            assert("Decline"@.len() != "accept"@.len());
            assert("Decline"@.len() != "Accepted"@.len());
            assert("Decline"@.len() != "accepted"@.len());
        },
    }
}

/// Reading an edge kind's own name gives the kind back.
pub proof fn lemma_parse_edge_kind_name(k: EdgeKind)
    ensures
        spec_parse_edge_kind(edge_kind_name(k)) == k,
{
    reveal_strlit("Reference");
    reveal_strlit("reference");
    reveal_strlit("Superset");
    reveal_strlit("superset");
    reveal_strlit("Subset");
    reveal_strlit("subset");
    reveal_strlit("Orthogonal");
    reveal_strlit("orthogonal");
    match k {
        EdgeKind::Reference => {},
        EdgeKind::Superset => {
            assert("Superset"@.len() != "Reference"@.len());
            assert("Superset"@.len() != "reference"@.len());
        },
        EdgeKind::Subset => {
            assert("Subset"@.len() != "Reference"@.len());
            assert("Subset"@.len() != "reference"@.len());
            assert("Subset"@.len() != "Superset"@.len());
            assert("Subset"@.len() != "superset"@.len());
        },
        EdgeKind::Orthogonal => {
            assert("Orthogonal"@.len() != "Reference"@.len());
            assert("Orthogonal"@.len() != "reference"@.len());
            assert("Orthogonal"@.len() != "Superset"@.len());
            assert("Orthogonal"@.len() != "superset"@.len());
            assert("Orthogonal"@.len() != "Subset"@.len());
            assert("Orthogonal"@.len() != "subset"@.len());
        },
    }
}

/// Each spelling of a status that clients may send reads as that status; any other
/// word reads as draft.
pub proof fn law_parse_status_spellings(other: Seq<char>)
    ensures
        spec_parse_node_status("Draft"@) == NodeStatus::Draft,
        spec_parse_node_status("draft"@) == NodeStatus::Draft,
        spec_parse_node_status("Accept"@) == NodeStatus::Accept,
        spec_parse_node_status("accept"@) == NodeStatus::Accept,
        spec_parse_node_status("Accepted"@) == NodeStatus::Accept,
        spec_parse_node_status("accepted"@) == NodeStatus::Accept,
        spec_parse_node_status("Decline"@) == NodeStatus::Decline,
        spec_parse_node_status("decline"@) == NodeStatus::Decline,
        spec_parse_node_status("Declined"@) == NodeStatus::Decline,
        spec_parse_node_status("declined"@) == NodeStatus::Decline,
        spec_parse_node_status("Rejected"@) == NodeStatus::Decline,
        spec_parse_node_status("rejected"@) == NodeStatus::Decline,
        other.len() != 6 && other.len() != 7 && other.len() != 8 ==> spec_parse_node_status(other)
            == NodeStatus::Draft,
{
    reveal_strlit("Draft");
    reveal_strlit("draft");
    reveal_strlit("Accept");
    reveal_strlit("accept");
    reveal_strlit("Accepted");
    reveal_strlit("accepted");
    reveal_strlit("Decline");
    reveal_strlit("decline");
    reveal_strlit("Declined");
    reveal_strlit("declined");
    reveal_strlit("Rejected");
    reveal_strlit("rejected");
    assert("Accept"@.len() != "Draft"@.len());
    assert("Accept"@.len() != "draft"@.len());
    assert("accept"@.len() != "Draft"@.len());
    assert("accept"@.len() != "draft"@.len());
    assert("Accepted"@.len() != "Draft"@.len());
    assert("Accepted"@.len() != "draft"@.len());
    assert("accepted"@.len() != "Draft"@.len());
    assert("accepted"@.len() != "draft"@.len());
    assert("Decline"@.len() != "Draft"@.len());
    assert("Decline"@.len() != "draft"@.len());
    assert("Decline"@.len() != "Accept"@.len());
    assert("Decline"@.len() != "accept"@.len());
    assert("Decline"@.len() != "Accepted"@.len());
    assert("Decline"@.len() != "accepted"@.len());
    assert("decline"@.len() != "Draft"@.len());
    assert("decline"@.len() != "draft"@.len());
    assert("decline"@.len() != "Accept"@.len());
    assert("decline"@.len() != "accept"@.len());
    assert("decline"@.len() != "Accepted"@.len());
    assert("decline"@.len() != "accepted"@.len());
    assert("Declined"@.len() != "Draft"@.len());
    assert("Declined"@.len() != "draft"@.len());
    assert("Declined"@.len() != "Accept"@.len());
    assert("Declined"@.len() != "accept"@.len());
    assert("Declined"@[0] != "Accepted"@[0]);
    assert("Declined"@[0] != "accepted"@[0]);
    assert("declined"@.len() != "Draft"@.len());
    assert("declined"@.len() != "draft"@.len());
    assert("declined"@.len() != "Accept"@.len());
    assert("declined"@.len() != "accept"@.len());
    assert("declined"@[0] != "Accepted"@[0]);
    assert("declined"@[0] != "accepted"@[0]);
    assert("Rejected"@.len() != "Draft"@.len());
    assert("Rejected"@.len() != "draft"@.len());
    assert("Rejected"@.len() != "Accept"@.len());
    assert("Rejected"@.len() != "accept"@.len());
    assert("Rejected"@[0] != "Accepted"@[0]);
    assert("Rejected"@[0] != "accepted"@[0]);
    assert("rejected"@.len() != "Draft"@.len());
    assert("rejected"@.len() != "draft"@.len());
    assert("rejected"@.len() != "Accept"@.len());
    assert("rejected"@.len() != "accept"@.len());
    assert("rejected"@[0] != "Accepted"@[0]);
    assert("rejected"@[0] != "accepted"@[0]);
}

/// Each spelling of an edge kind that clients may send reads as that kind; any other
/// word reads as reference.
pub proof fn law_parse_edge_kind_spellings()
    ensures
        spec_parse_edge_kind("Reference"@) == EdgeKind::Reference,
        spec_parse_edge_kind("reference"@) == EdgeKind::Reference,
        spec_parse_edge_kind("Superset"@) == EdgeKind::Superset,
        spec_parse_edge_kind("superset"@) == EdgeKind::Superset,
        spec_parse_edge_kind("Subset"@) == EdgeKind::Subset,
        spec_parse_edge_kind("subset"@) == EdgeKind::Subset,
        spec_parse_edge_kind("Orthogonal"@) == EdgeKind::Orthogonal,
        spec_parse_edge_kind("orthogonal"@) == EdgeKind::Orthogonal,
{
    reveal_strlit("Reference");
    reveal_strlit("reference");
    reveal_strlit("Superset");
    reveal_strlit("superset");
    reveal_strlit("Subset");
    reveal_strlit("subset");
    reveal_strlit("Orthogonal");
    reveal_strlit("orthogonal");
    assert("Superset"@.len() != "Reference"@.len());
    assert("Superset"@.len() != "reference"@.len());
    assert("superset"@.len() != "Reference"@.len());
    assert("superset"@.len() != "reference"@.len());
    assert("Subset"@.len() != "Reference"@.len());
    assert("Subset"@.len() != "reference"@.len());
    assert("Subset"@.len() != "Superset"@.len());
    assert("Subset"@.len() != "superset"@.len());
    assert("subset"@.len() != "Reference"@.len());
    assert("subset"@.len() != "reference"@.len());
    assert("subset"@.len() != "Superset"@.len());
    assert("subset"@.len() != "superset"@.len());
    assert("Orthogonal"@.len() != "Reference"@.len());
    assert("Orthogonal"@.len() != "reference"@.len());
    assert("Orthogonal"@.len() != "Superset"@.len());
    assert("Orthogonal"@.len() != "superset"@.len());
    assert("Orthogonal"@.len() != "Subset"@.len());
    assert("Orthogonal"@.len() != "subset"@.len());
    assert("orthogonal"@.len() != "Reference"@.len());
    assert("orthogonal"@.len() != "reference"@.len());
    assert("orthogonal"@.len() != "Superset"@.len());
    assert("orthogonal"@.len() != "superset"@.len());
    assert("orthogonal"@.len() != "Subset"@.len());
    assert("orthogonal"@.len() != "subset"@.len());
}

} // verus!
