//! Changes to the nodes stored in a graph: field updates, experiments and embeddings.

use vstd::prelude::*;
use crate::graph::{same_index, AmureGraph};
use crate::counting::lemma_take_to_set_push;
use crate::index::lemma_push_no_duplicates;
use crate::node::{embed_text_of, random_id, utc_now, Experiment, ExperimentKind, Node, NodeStatus, Timestamp, Verdict};

verus! {

/// The fields an update may set; `None` leaves a field as it is.
pub struct NodeUpdate {
    pub status: Option<NodeStatus>,
    pub statement: Option<String>,
    pub abstract_: Option<String>,
    pub discussion: Option<String>,
}

/// `n` with the fields that `u` sets replaced and its update time set to `at`.
pub open spec fn patched(n: Node, u: NodeUpdate, at: Timestamp) -> Node {
    Node {
        status: match u.status {
            Some(s) => s,
            None => n.status,
        },
        statement: match u.statement {
            Some(s) => s,
            None => n.statement,
        },
        abstract_: match u.abstract_ {
            Some(s) => s,
            None => n.abstract_,
        },
        discussion: match u.discussion {
            Some(s) => s,
            None => n.discussion,
        },
        updated_at: at,
        ..n
    }
}

/// An update sets each field it gives to the given value and leaves each field it does
/// not give, the identifier, experiments and embedding as they were; the update time
/// becomes `at`.
pub proof fn law_patched_sets_given_fields(n: Node, u: NodeUpdate, at: Timestamp)
    ensures
        ({
            let m = patched(n, u, at);
            &&& u.status matches Some(s) ==> m.status == s
            &&& u.status is None ==> m.status == n.status
            &&& u.statement matches Some(s) ==> m.statement == s
            &&& u.statement is None ==> m.statement == n.statement
            &&& u.abstract_ matches Some(s) ==> m.abstract_ == s
            &&& u.abstract_ is None ==> m.abstract_ == n.abstract_
            &&& u.discussion matches Some(s) ==> m.discussion == s
            &&& u.discussion is None ==> m.discussion == n.discussion
            &&& m.id == n.id
            &&& m.kind == n.kind
            &&& m.experiments == n.experiments
            &&& m.embedding == n.embedding
            &&& m.created_at == n.created_at
            &&& m.updated_at == at
        }),
{
}

/// `after` is `before` with `e` recorded as its last experiment; its update time may
/// differ, and nothing else does.
pub open spec fn experiment_added(before: Node, after: Node, e: Experiment) -> bool {
    &&& after == Node { experiments: after.experiments, updated_at: after.updated_at, ..before }
    &&& after.experiments@ == before.experiments@.push(e)
}

/// `before` with the embedding `emb`, its update time set to `at`.
pub open spec fn embedded(before: Node, emb: Vec<u32>, at: Timestamp) -> Node {
    Node { embedding: Some(emb), updated_at: at, ..before }
}

/// The nodes after giving the node listed at each of the first `n` positions of `ids`
/// the embedding at the same position of `embs`, one position after the other; a
/// position naming no stored node changes nothing.
pub open spec fn with_embeddings(
    nodes: Map<u128, Node>,
    ids: Seq<u128>,
    embs: Seq<Vec<u32>>,
    n: nat,
) -> Map<u128, Node>
    decreases n,
{
    if n == 0 {
        nodes
    } else {
        let prev = with_embeddings(nodes, ids, embs, (n - 1) as nat);
        let k = ids[n - 1];
        if prev.contains_key(k) {
            prev.insert(k, Node { embedding: Some(embs[n - 1]), ..prev[k] })
        } else {
            prev
        }
    }
}

/// How many of the first `n` positions of `ids` name a stored node.
pub open spec fn present_count(nodes: Map<u128, Node>, ids: Seq<u128>, n: nat) -> nat
    decreases n,
{
    if n == 0 {
        0
    } else {
        present_count(nodes, ids, (n - 1) as nat) + if nodes.contains_key(ids[n - 1]) {
            1nat
        } else {
            0nat
        }
    }
}

/// Giving embeddings keeps the identifiers under which nodes are stored.
proof fn lemma_with_embeddings_dom(nodes: Map<u128, Node>, ids: Seq<u128>, embs: Seq<Vec<u32>>, n: nat)
    ensures
        with_embeddings(nodes, ids, embs, n).dom() == nodes.dom(),
    decreases n,
{
    if n > 0 {
        lemma_with_embeddings_dom(nodes, ids, embs, (n - 1) as nat);
        let prev = with_embeddings(nodes, ids, embs, (n - 1) as nat);
        let k = ids[n - 1];
        if prev.contains_key(k) {
            assert(prev.insert(k, Node { embedding: Some(embs[n - 1]), ..prev[k] }).dom() =~= prev.dom());
        }
    }
}

/// Giving every node an embedding: when `ids` lists each stored node once and `embs`
/// holds as many embeddings, each of the first `m` positions names a stored node, and
/// afterwards the node listed at each of them has the embedding at that position, with
/// its other fields as they were; the other nodes are unchanged.
pub proof fn law_embed_every_node(nodes: Map<u128, Node>, ids: Seq<u128>, embs: Seq<Vec<u32>>, m: nat)
    requires
        ids.no_duplicates(),
        forall|k: u128| #[trigger] ids.contains(k) <==> nodes.contains_key(k),
        embs.len() == ids.len(),
        m <= ids.len(),
    ensures
        present_count(nodes, ids, m) == m,
        with_embeddings(nodes, ids, embs, m).dom() == nodes.dom(),
        forall|i: int| 0 <= i < m ==> #[trigger] with_embeddings(nodes, ids, embs, m)[ids[i]]
            == (Node { embedding: Some(embs[i]), ..nodes[ids[i]] }),
        forall|i: int| m <= i < ids.len() ==> #[trigger] with_embeddings(nodes, ids, embs, m)[ids[i]]
            == nodes[ids[i]],
    decreases m,
{
    lemma_with_embeddings_dom(nodes, ids, embs, m);
    if m > 0 {
        law_embed_every_node(nodes, ids, embs, (m - 1) as nat);
        let k = ids[m - 1];
        assert(ids.contains(k));
        let prev = with_embeddings(nodes, ids, embs, (m - 1) as nat);
        lemma_with_embeddings_dom(nodes, ids, embs, (m - 1) as nat);
        assert(prev.contains_key(k));
        assert(prev[k] == nodes[k]);
        assert forall|i: int| 0 <= i < m implies #[trigger] with_embeddings(nodes, ids, embs, m)[ids[i]]
            == Node { embedding: Some(embs[i]), ..nodes[ids[i]] } by {
            if i < m - 1 {
                assert(ids[i] != k);
                assert(prev[ids[i]] == Node { embedding: Some(embs[i]), ..nodes[ids[i]] });
            }
        }
        assert forall|i: int| m <= i < ids.len() implies #[trigger] with_embeddings(nodes, ids, embs, m)[ids[i]]
            == nodes[ids[i]] by {
            assert(ids[i] != k);
            assert(prev[ids[i]] == nodes[ids[i]]);
        }
    }
}

impl AmureGraph {
    /// Applies `update` to the node stored under `id` and sets the node's update time to
    /// the current time; `false`, with nothing changed, when there is no such node.
    pub fn update_node(&mut self, id: &u128, update: NodeUpdate) -> (r: bool)
        requires
            old(self).wf(),
        ensures
            final(self).wf(),
            final(self).sound() == old(self).sound(),
            final(self).edges_view() == old(self).edges_view(),
            same_index(*final(self), *old(self)),
            r == old(self).nodes_view().contains_key(*id),
            r ==> final(self).nodes_view() == old(self).nodes_view().insert(
                *id,
                patched(old(self).nodes_view()[*id], update, final(self).nodes_view()[*id].updated_at),
            ),
            !r ==> final(self).nodes_view() == old(self).nodes_view(),
            r ==> (update.status matches Some(s) ==> final(self).nodes_view()[*id].status == s),
            r ==> (update.statement matches Some(s) ==> final(self).nodes_view()[*id].statement == s),
            r ==> (update.abstract_ matches Some(s) ==> final(self).nodes_view()[*id].abstract_ == s),
            r ==> (update.discussion matches Some(s) ==> final(self).nodes_view()[*id].discussion == s),
    {
        let r = match self.get_node_mut(id) {
            Some(node) => {
                let NodeUpdate { status, statement, abstract_, discussion } = update;
                match status {
                    Some(s) => {
                        node.status = s;
                    },
                    None => {},
                }
                match statement {
                    Some(s) => {
                        node.statement = s;
                    },
                    None => {},
                }
                match abstract_ {
                    Some(s) => {
                        node.abstract_ = s;
                    },
                    None => {},
                }
                match discussion {
                    Some(s) => {
                        node.discussion = s;
                    },
                    None => {},
                }
                node.updated_at = utc_now();
                true
            },
            None => false,
        };
        proof {
            if old(self).sound() {
                self.lemma_sound_by_views(old(self));
            }
            if self.sound() {
                old(self).lemma_sound_by_views(self);
            }
        }
        r
    }

    /// Records an experiment of the given kind, target, result, verdict and note, under a
    /// fresh random identifier, on the node stored under `id`, and sets the node's update
    /// time to the current time. Returns the experiment's identifier, or `None`, with
    /// nothing changed, when there is no such node.
    pub fn add_experiment(
        &mut self,
        id: &u128,
        kind: ExperimentKind,
        target: String,
        result: serde_json::Value,
        verdict: Verdict,
        note: Option<String>,
    ) -> (r: Option<u128>)
        requires
            old(self).wf(),
        ensures
            final(self).wf(),
            final(self).sound() == old(self).sound(),
            final(self).edges_view() == old(self).edges_view(),
            same_index(*final(self), *old(self)),
            r is Some <==> old(self).nodes_view().contains_key(*id),
            r is None ==> final(self).nodes_view() == old(self).nodes_view(),
            r matches Some(eid) ==> {
                let after = final(self).nodes_view()[*id];
                &&& final(self).nodes_view() == old(self).nodes_view().insert(*id, after)
                &&& experiment_added(
                    old(self).nodes_view()[*id],
                    after,
                    Experiment { id: eid, kind, target, result, verdict, note },
                )
            },
    {
        let experiment = Experiment { id: random_id(), kind, target, result, verdict, note };
        let eid = experiment.id;
        let r = match self.get_node_mut(id) {
            Some(node) => {
                node.experiments.push(experiment);
                node.updated_at = utc_now();
                Some(eid)
            },
            None => None,
        };
        proof {
            if old(self).sound() {
                self.lemma_sound_by_views(old(self));
            }
            if self.sound() {
                old(self).lemma_sound_by_views(self);
            }
        }
        r
    }

    /// Gives the node stored under `id` the embedding `emb` and sets its update time to
    /// the current time; `false`, with nothing changed, when there is no such node.
    pub fn attach_embedding(&mut self, id: &u128, emb: Vec<u32>) -> (r: bool)
        requires
            old(self).wf(),
        ensures
            final(self).wf(),
            final(self).sound() == old(self).sound(),
            final(self).edges_view() == old(self).edges_view(),
            same_index(*final(self), *old(self)),
            r == old(self).nodes_view().contains_key(*id),
            r ==> final(self).nodes_view() == old(self).nodes_view().insert(
                *id,
                embedded(old(self).nodes_view()[*id], emb, final(self).nodes_view()[*id].updated_at),
            ),
            !r ==> final(self).nodes_view() == old(self).nodes_view(),
    {
        let r = match self.get_node_mut(id) {
            Some(node) => {
                node.embedding = Some(emb);
                node.updated_at = utc_now();
                true
            },
            None => false,
        };
        proof {
            if old(self).sound() {
                self.lemma_sound_by_views(old(self));
            }
            if self.sound() {
                old(self).lemma_sound_by_views(self);
            }
        }
        r
    }

    /// The embedding texts and identifiers of all nodes, each node once, in no particular
    /// order; the text at each position is that of the node whose identifier stands at
    /// the same position. Embedding every node anew starts from these.
    pub fn embedding_inputs(&self) -> (r: (Vec<String>, Vec<u128>))
        ensures
            r.0@.len() == r.1@.len(),
            r.1@.len() == self.nodes_view().len(),
            r.1@.no_duplicates(),
            forall|k: u128| #[trigger] r.1@.contains(k) <==> self.nodes_view().contains_key(k),
            forall|i: int| 0 <= i < r.1@.len() ==> #[trigger] r.0@[i]@ == embed_text_of(
                self.nodes_view()[r.1@[i]].statement@,
                self.nodes_view()[r.1@[i]].abstract_@,
            ),
    {
        let ks = self.node_ids();
        let mut texts: Vec<String> = Vec::new();
        let mut ids: Vec<u128> = Vec::new();
        let mut i: usize = 0;
        while i < ks.len()
            invariant
                i <= ks@.len(),
                ks@.no_duplicates(),
                forall|k: u128| #[trigger] ks@.contains(k) <==> self.nodes_view().contains_key(k),
                ids@.no_duplicates(),
                forall|k: u128| #[trigger] ids@.contains(k) <==> ks@.take(i as int).contains(k),
                texts@.len() == ids@.len(),
                forall|j: int| 0 <= j < ids@.len() ==> #[trigger] texts@[j]@ == embed_text_of(
                    self.nodes_view()[ids@[j]].statement@,
                    self.nodes_view()[ids@[j]].abstract_@,
                ),
            decreases ks@.len() - i,
        {
            let k = ks[i];
            proof {
                lemma_take_to_set_push(ks@, i as int);
                assert(ks@.contains(k));
            }
            let ghost before = ids@;
            let ghost t0 = texts@;
            match self.get_node(&k) {
                Some(n) => {
                    {
                        let t = n.embed_text();
                        texts.push(t);
                        ids.push(k);
                        proof {
                            assert(!ks@.take(i as int).to_set().contains(k));
                            assert(!before.contains(k));
                            lemma_push_no_duplicates(before, k);
                            assert forall|j: int| 0 <= j < ids@.len() implies #[trigger] texts@[j]@
                                == embed_text_of(
                                self.nodes_view()[ids@[j]].statement@,
                                self.nodes_view()[ids@[j]].abstract_@,
                            ) by {
                                if j < before.len() {
                                    assert(texts@[j] == t0[j] && ids@[j] == before[j]);
                                }
                            }
                        }
                    }
                },
                None => {},
            }
            proof {
                assert forall|x: u128| #[trigger] ids@.contains(x) <==> ks@.take(i + 1).contains(x) by {
                    assert(ks@.take(i + 1).to_set().contains(x) == ks@.take(i + 1).contains(x));
                    assert(ks@.take(i as int).to_set().contains(x) == ks@.take(i as int).contains(x));
                    if ids@.contains(x) && ids@ != before {
                        let j = choose|j: int| 0 <= j < ids@.len() && ids@[j] == x;
                        if j < before.len() {
                            assert(before[j] == x);
                        }
                    }
                    if before.contains(x) && ids@ != before {
                        let j = choose|j: int| 0 <= j < before.len() && before[j] == x;
                        assert(ids@[j] == x);
                    }
                    if x == k && ids@ != before {
                        assert(ids@[before.len() as int] == x);
                    }
                }
            }
            i = i + 1;
        }
        assert(ks@.take(ks@.len() as int) =~= ks@);
        proof {
            ids@.unique_seq_to_set();
            assert(ids@.to_set() =~= self.nodes_view().dom());
        }
        (texts, ids)
    }

    /// Gives the node listed at each position of `ids` the embedding at the same position
    /// of `embeddings`, as far as both lists go, one position after the other (a later
    /// position wins for an identifier listed twice); a position naming no stored node
    /// changes nothing. Update times are left as they are. Returns how many positions
    /// named a stored node.
    pub fn set_embeddings(&mut self, ids: &Vec<u128>, embeddings: Vec<Vec<u32>>) -> (count: usize)
        requires
            old(self).wf(),
        ensures
            final(self).wf(),
            final(self).sound() == old(self).sound(),
            final(self).edges_view() == old(self).edges_view(),
            same_index(*final(self), *old(self)),
            ({
                let n = if ids@.len() <= embeddings@.len() { ids@.len() } else { embeddings@.len() };
                &&& final(self).nodes_view() == with_embeddings(old(self).nodes_view(), ids@, embeddings@, n)
                &&& count == present_count(old(self).nodes_view(), ids@, n)
            }),
    {
        let ghost nodes0 = self.nodes_view();
        let ghost embs = embeddings@;
        let n: usize = if ids.len() <= embeddings.len() { ids.len() } else { embeddings.len() };
        let mut rest = embeddings;
        let mut count: usize = 0;
        let mut i: usize = 0;
        while i < n
            invariant
                self.wf(),
                self.edges_view() == old(self).edges_view(),
                nodes0 == old(self).nodes_view(),
                n <= ids@.len(),
                n <= embs.len(),
                i <= n,
                same_index(*self, *old(self)),
                rest@ == embs.skip(i as int),
                self.nodes_view() == with_embeddings(nodes0, ids@, embs, i as nat),
                count == present_count(nodes0, ids@, i as nat),
                count <= i,
            decreases n - i,
        {
            let emb = rest.remove(0);
            assert(emb == embs[i as int]);
            assert(rest@ =~= embs.skip(i + 1));
            proof {
                lemma_with_embeddings_dom(nodes0, ids@, embs, i as nat);
            }
            let found = match self.get_node_mut(&ids[i]) {
                Some(node) => {
                    node.embedding = Some(emb);
                    true
                },
                None => false,
            };
            if found {
                count = count + 1;
            }
            i = i + 1;
        }
        proof {
            if old(self).sound() {
                self.lemma_sound_by_views(old(self));
            }
            if self.sound() {
                old(self).lemma_sound_by_views(self);
            }
        }
        count
    }
}

} // verus!
