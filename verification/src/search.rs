//! The rules that decide which nodes a search may return.

use vstd::prelude::*;
use crate::counting::lemma_take_to_set_push;
use crate::graph::AmureGraph;
use crate::index::lemma_push_no_duplicates;
use crate::node::{status_name, Node, NodeStatus};
use crate::text::{eq_ignore_ascii_case, str_eq_ignore_ascii_case};

verus! {

/// A node may be returned by a search unless it is a draft, and a declined node only
/// when declined nodes are asked for.
pub open spec fn eligible_for_search(status: NodeStatus, include_decline: bool) -> bool {
    status != NodeStatus::Draft && (include_decline || status != NodeStatus::Decline)
}

/// Whether `node` may be returned by a search.
pub fn search_eligible(node: &Node, include_decline: bool) -> (r: bool)
    ensures
        r == eligible_for_search(node.status, include_decline),
{
    node.status != NodeStatus::Draft && (include_decline || node.status != NodeStatus::Decline)
}

/// A result passes a status filter when there is none, when the filter is the word
/// `all`, or when the filter names its status; the word is compared ASCII case aside.
pub open spec fn passes_status_filter(status: NodeStatus, filter: Option<Seq<char>>) -> bool {
    match filter {
        None => true,
        Some(f) => eq_ignore_ascii_case(f, "all"@) || eq_ignore_ascii_case(status_name(status), f),
    }
}

/// Whether a result of status `status` passes the filter `filter`.
pub fn status_matches(status: NodeStatus, filter: &Option<String>) -> (r: bool)
    ensures
        r == passes_status_filter(
            status,
            match filter {
                Some(f) => Some(f@),
                None => None,
            },
        ),
{
    match filter {
        None => true,
        Some(f) => {
            if str_eq_ignore_ascii_case(f.as_str(), "all") {
                return true;
            }
            let name = status.name();
            str_eq_ignore_ascii_case(name.as_str(), f.as_str())
        },
    }
}

/// The filter word `all` lets every status through, whatever its case.
pub proof fn lemma_all_passes_every_status(status: NodeStatus, f: Seq<char>)
    requires
        eq_ignore_ascii_case(f, "all"@),
    ensures
        passes_status_filter(status, Some(f)),
{
}

/// A status pool a search is asked for: the status with its count, when a count is given.
pub open spec fn quota_entry(status: NodeStatus, count: Option<usize>) -> Seq<(NodeStatus, usize)> {
    match count {
        Some(n) => seq![(status, n)],
        None => Seq::empty(),
    }
}

/// The status pools a search is asked for: accepted results when a count for them is
/// given, then declined ones when a count for them is given, each with its count.
pub fn status_quotas(accept: Option<usize>, decline: Option<usize>) -> (r: Vec<(NodeStatus, usize)>)
    ensures
        r@ == quota_entry(NodeStatus::Accept, accept) + quota_entry(NodeStatus::Decline, decline),
{
    let mut r: Vec<(NodeStatus, usize)> = Vec::new();
    match accept {
        Some(n) => r.push((NodeStatus::Accept, n)),
        None => {},
    }
    match decline {
        Some(n) => r.push((NodeStatus::Decline, n)),
        None => {},
    }
    assert(r@ =~= quota_entry(NodeStatus::Accept, accept) + quota_entry(NodeStatus::Decline, decline));
    r
}

impl AmureGraph {
    /// The nodes a search may consider, with `include_decline` as asked: those that may be
    /// returned (see `eligible_for_search`) and have an embedding, each once with its
    /// embedding, in no particular order.
    pub fn search_pool(&self, include_decline: bool) -> (r: Vec<(u128, &Vec<u32>)>)
        ensures
            exists|ks: Seq<u128>|
                {
                    &&& ks.no_duplicates()
                    &&& forall|k: u128| #[trigger] ks.contains(k) <==> (self.nodes_view().contains_key(k)
                        && eligible_for_search(self.nodes_view()[k].status, include_decline)
                        && self.nodes_view()[k].embedding is Some)
                    &&& r@.len() == ks.len()
                    &&& forall|i: int| 0 <= i < ks.len() ==> #[trigger] r@[i].0 == ks[i] && Some(*r@[i].1)
                        == self.nodes_view()[ks[i]].embedding
                },
    {
        let ks = self.node_ids();
        let mut r: Vec<(u128, &Vec<u32>)> = Vec::new();
        let ghost mut picked: Seq<u128> = Seq::empty();
        let mut i: usize = 0;
        while i < ks.len()
            invariant
                i <= ks@.len(),
                ks@.no_duplicates(),
                forall|k: u128| #[trigger] ks@.contains(k) <==> self.nodes_view().contains_key(k),
                picked.no_duplicates(),
                forall|k: u128| #[trigger] picked.contains(k) <==> (ks@.take(i as int).contains(k)
                    && eligible_for_search(self.nodes_view()[k].status, include_decline)
                    && self.nodes_view()[k].embedding is Some),
                r@.len() == picked.len(),
                forall|j: int| 0 <= j < picked.len() ==> #[trigger] r@[j].0 == picked[j] && Some(*r@[j].1)
                    == self.nodes_view()[picked[j]].embedding,
            decreases ks@.len() - i,
        {
            let k = ks[i];
            proof {
                lemma_take_to_set_push(ks@, i as int);
                assert(ks@.contains(k));
            }
            let ghost before = picked;
            match self.get_node(&k) {
                Some(n) => {
                    if search_eligible(n, include_decline) {
                        match &n.embedding {
                            Some(e) => {
                                let ghost r0 = r@;
                                r.push((k, e));
                                proof {
                                    assert(!ks@.take(i as int).to_set().contains(k));
                                    assert(!before.contains(k));
                                    lemma_push_no_duplicates(before, k);
                                    picked = before.push(k);
                                    assert forall|j: int| 0 <= j < picked.len() implies #[trigger] r@[j].0
                                        == picked[j] && Some(*r@[j].1) == self.nodes_view()[picked[j]].embedding by {
                                        if j < before.len() {
                                            assert(r@[j] == r0[j]);
                                        }
                                    }
                                }
                            },
                            None => {},
                        }
                    }
                },
                None => {},
            }
            proof {
                assert forall|x: u128| #[trigger] picked.contains(x) <==> (ks@.take(i + 1).contains(x)
                    && eligible_for_search(self.nodes_view()[x].status, include_decline)
                    && self.nodes_view()[x].embedding is Some) by {
                    assert(ks@.take(i + 1).to_set().contains(x) == ks@.take(i + 1).contains(x));
                    assert(ks@.take(i as int).to_set().contains(x) == ks@.take(i as int).contains(x));
                    if picked.contains(x) && picked != before {
                        let j = choose|j: int| 0 <= j < picked.len() && picked[j] == x;
                        if j < before.len() {
                            assert(before[j] == x);
                        }
                    }
                    if before.contains(x) && picked != before {
                        let j = choose|j: int| 0 <= j < before.len() && before[j] == x;
                        assert(picked[j] == x);
                    }
                    if x == k && picked != before {
                        assert(picked[before.len() as int] == x);
                    }
                }
            }
            i = i + 1;
        }
        assert(ks@.take(ks@.len() as int) =~= ks@);
        r
    }
}

/// A draft is never returned by a search, whatever is asked for.
pub proof fn lemma_draft_never_eligible(include_decline: bool)
    ensures
        !eligible_for_search(NodeStatus::Draft, include_decline),
{
}

/// An accepted node is always eligible; a declined one exactly when declined nodes
/// are asked for.
pub proof fn lemma_eligibility_by_status(include_decline: bool)
    ensures
        eligible_for_search(NodeStatus::Accept, include_decline),
        eligible_for_search(NodeStatus::Decline, include_decline) == include_decline,
{
}

} // verus!
