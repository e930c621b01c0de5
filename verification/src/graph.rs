//! The in-memory graph: nodes and edges by identifier, with an index of each node's
//! outgoing and incoming edges.

use vstd::prelude::*;
use std::collections::{HashMap, HashSet};
use crate::edge::{Edge, EdgeKind};
use crate::node::{Node, NodeStatus};
use crate::edge::{edge_kind_name, reverse_kind};
use crate::text::{is_blank, is_white_space};
use crate::node::status_name;
use crate::index::{
    index_list_ok, indexed_end, lemma_enlist_keeps_index, lemma_filter_agree, lemma_filter_all, lemma_filter_filter,
    lemma_push_no_duplicates, other_end, other_than,
};
use crate::counting::{lemma_filter_insert_len, lemma_full_take_to_set, lemma_take_to_set_push};
use crate::reach::{
    filter_view, fresh, hop_distance, is_bfs_walk, joins, labelled, layer_state, lemma_fresh_push,
    lemma_hop_distance_unique, lemma_labelled_push, lemma_layer_push, lemma_visited_split, listed_set,
    lemma_within_mono_le, lemma_within_pred, lemma_within_stable, lemma_within_step,
    lemma_within_zero, listed, neighbor_listing, passes, step, within,
};

verus! {

broadcast use vstd::std_specs::hash::group_hash_axioms;

/// Which edges of a node to follow.
#[derive(Clone, Copy, Debug, PartialEq, Eq, Structural)]
pub enum Direction {
    Out,
    In,
    Both,
}

/// Whether an edge touches a node, as source or as target.
pub open spec fn incident(e: Edge, n: u128) -> bool {
    e.source == n || e.target == n
}

/// The edges left once every edge touching `n` is taken away.
pub open spec fn without_incident(edges: Map<u128, Edge>, n: u128) -> Map<u128, Edge> {
    edges.restrict(edges.dom().filter(|k: u128| !incident(edges[k], n)))
}

/// Nodes with status `s`, as a predicate on identifiers.
pub open spec fn has_status(nodes: Map<u128, Node>, s: NodeStatus) -> spec_fn(u128) -> bool {
    |k: u128| nodes[k].status == s
}

/// Edges of kind `k`, as a predicate on identifiers.
pub open spec fn has_kind(edges: Map<u128, Edge>, k: EdgeKind) -> spec_fn(u128) -> bool {
    |e: u128| edges[e].kind == k
}

/// How many nodes have status `s`.
pub open spec fn status_count(nodes: Map<u128, Node>, s: NodeStatus) -> nat {
    nodes.dom().filter(has_status(nodes, s)).len()
}

/// How many edges have kind `k`.
pub open spec fn kind_count(edges: Map<u128, Edge>, k: EdgeKind) -> nat {
    edges.dom().filter(has_kind(edges, k)).len()
}

/// Adds a node's number of experiments to a running total.
pub open spec fn experiment_adder(nodes: Map<u128, Node>) -> spec_fn(nat, u128) -> nat {
    |acc: nat, k: u128| acc + nodes[k].experiments@.len()
}

/// The number of experiments over all nodes.
pub open spec fn total_experiments(nodes: Map<u128, Node>) -> nat {
    nodes.dom().fold(0nat, experiment_adder(nodes))
}

/// A named count, listed only when it is not zero.
pub open spec fn count_entry(name: Seq<char>, c: nat) -> Seq<(Seq<char>, nat)> {
    if c > 0 {
        seq![(name, c)]
    } else {
        Seq::empty()
    }
}

/// The nonzero status counts, by status name, in the order draft, accept, decline.
pub open spec fn status_entries(nodes: Map<u128, Node>) -> Seq<(Seq<char>, nat)> {
    count_entry(status_name(NodeStatus::Draft), status_count(nodes, NodeStatus::Draft))
        + count_entry(status_name(NodeStatus::Accept), status_count(nodes, NodeStatus::Accept))
        + count_entry(status_name(NodeStatus::Decline), status_count(nodes, NodeStatus::Decline))
}

/// The nonzero edge-kind counts, by kind name, in the order reference, superset,
/// subset, orthogonal.
pub open spec fn kind_entries(edges: Map<u128, Edge>) -> Seq<(Seq<char>, nat)> {
    count_entry(edge_kind_name(EdgeKind::Reference), kind_count(edges, EdgeKind::Reference))
        + count_entry(edge_kind_name(EdgeKind::Superset), kind_count(edges, EdgeKind::Superset))
        + count_entry(edge_kind_name(EdgeKind::Subset), kind_count(edges, EdgeKind::Subset))
        + count_entry(edge_kind_name(EdgeKind::Orthogonal), kind_count(edges, EdgeKind::Orthogonal))
}

/// Named counts as names and numbers.
pub open spec fn entries_view(v: Seq<(String, usize)>) -> Seq<(Seq<char>, nat)> {
    v.map_values(|p: (String, usize)| (p.0@, p.1 as nat))
}

/// Counts over a graph.
pub struct GraphSummary {
    pub n_nodes: usize,
    pub n_edges: usize,
    pub n_experiments: usize,
    /// Nodes per status name, for the statuses that occur.
    pub status_counts: Vec<(String, usize)>,
    /// Edges per kind name, for the kinds that occur.
    pub edge_kinds: Vec<(String, usize)>,
}

/// Why an edge was not added.
#[derive(Clone, Copy, Debug, PartialEq, Eq, Structural)]
pub enum EdgeError {
    /// The reason is empty or only white space.
    ReasonRequired,
}

/// Whether `e` is an edge from `source` to `target` of kind `kind` for `reason`.
pub open spec fn edge_is(e: Edge, source: u128, target: u128, kind: EdgeKind, reason: Seq<char>) -> bool {
    e.source == source && e.target == target && e.kind == kind && e.reason@ == reason
}

/// `new` is `old` followed, for each identifier in `taken`, by that edge's far end
/// and the edge.
pub open spec fn listing_extends<'a>(
    old: Seq<(u128, &'a Edge)>,
    new: Seq<(u128, &'a Edge)>,
    edges: Map<u128, Edge>,
    taken: Seq<u128>,
    outgoing: bool,
) -> bool {
    &&& new.len() == old.len() + taken.len()
    &&& forall|i: int| 0 <= i < old.len() ==> #[trigger] new[i] == old[i]
    &&& forall|k: int|
        old.len() <= k < new.len() ==> {
            &&& #[trigger] new[k].0 == other_end(edges[taken[k - old.len()]], outgoing)
            &&& *new[k].1 == edges[taken[k - old.len()]]
        }
}

/// Appending the far end of one more stored edge, with the edge, extends a listing
/// by that edge's identifier.
pub proof fn lemma_listing_push<'a>(
    old: Seq<(u128, &'a Edge)>,
    cur: Seq<(u128, &'a Edge)>,
    edges: Map<u128, Edge>,
    taken: Seq<u128>,
    id: u128,
    outgoing: bool,
    item: (u128, &'a Edge),
)
    requires
        listing_extends(old, cur, edges, taken, outgoing),
        item.0 == other_end(edges[id], outgoing),
        *item.1 == edges[id],
    ensures
        listing_extends(old, cur.push(item), edges, taken.push(id), outgoing),
{
    let new = cur.push(item);
    let t = taken.push(id);
    assert forall|k: int| old.len() <= k < new.len() implies {
        &&& #[trigger] new[k].0 == other_end(edges[t[k - old.len()]], outgoing)
        &&& *new[k].1 == edges[t[k - old.len()]]
    } by {
        if k < cur.len() {
            assert(new[k] == cur[k]);
            assert(t[k - old.len()] == taken[k - old.len()]);
        }
    }
    assert forall|i: int| 0 <= i < old.len() implies #[trigger] new[i] == old[i] by {
        assert(new[i] == cur[i]);
    }
}

/// Two graphs whose indexes list the same edges, in the same order, at every node.
pub open spec fn same_index(a: AmureGraph, b: AmureGraph) -> bool {
    &&& forall|n: u128| #[trigger] a.out_list(n) == b.out_list(n)
    &&& forall|n: u128| #[trigger] a.in_list(n) == b.in_list(n)
}

/// Edges that do not touch `n`, as a predicate on identifiers (an identifier of no edge
/// counts as not touching).
pub open spec fn not_touching(edges: Map<u128, Edge>, n: u128) -> spec_fn(u128) -> bool {
    |e: u128| !(edges.contains_key(e) && incident(edges[e], n))
}

/// The entries an index list of `n` keeps when the edges listed in `gone` are removed:
/// an entry goes when it is in `gone` and names a stored edge kept by `n` (leaving it for
/// an outgoing list, entering it for an incoming one).
pub open spec fn kept_at(edges: Map<u128, Edge>, gone: Seq<u128>, n: u128, outgoing: bool) -> spec_fn(u128) -> bool {
    |x: u128| !(gone.contains(x) && edges.contains_key(x) && indexed_end(edges[x], outgoing) == n)
}

/// Identifiers not in `s`, as a predicate.
pub open spec fn not_in(s: Seq<u128>) -> spec_fn(u128) -> bool {
    |x: u128| !s.contains(x)
}

/// Stored edges whose kind `filter` lets through, as a predicate on identifiers.
pub open spec fn kind_followed(edges: Map<u128, Edge>, filter: Option<Seq<EdgeKind>>) -> spec_fn(u128) -> bool {
    |e: u128| edges.contains_key(e) && passes(filter, edges[e].kind)
}

/// An index list of `n` once the edge stored under `id` is removed: the entries `id`
/// are taken out when that edge is kept by `n` (it leaves `n` for an outgoing list,
/// enters it for an incoming one); otherwise the list stays as it is.
pub open spec fn unlisted(l: Seq<u128>, edges: Map<u128, Edge>, id: u128, n: u128, outgoing: bool) -> Seq<u128> {
    if edges.contains_key(id) && indexed_end(edges[id], outgoing) == n {
        l.filter(other_than(id))
    } else {
        l
    }
}

/// A singleton when `c` holds, empty otherwise.
pub open spec fn one_if(c: bool, x: u128) -> Seq<u128> {
    if c {
        seq![x]
    } else {
        Seq::empty()
    }
}

/// Hypothesis nodes and the edges between them, with each node's outgoing and
/// incoming edges indexed in the order they were added.
pub struct AmureGraph {
    nodes: HashMap<u128, Node>,
    edges: HashMap<u128, Edge>,
    /// node id to the ids of the edges leaving it
    adjacency: HashMap<u128, Vec<u128>>,
    /// node id to the ids of the edges entering it
    reverse_adj: HashMap<u128, Vec<u128>>,
}

impl AmureGraph {
    /// The nodes by identifier.
    pub closed spec fn nodes_view(&self) -> Map<u128, Node> {
        self.nodes@
    }

    /// The edges by identifier.
    pub closed spec fn edges_view(&self) -> Map<u128, Edge> {
        self.edges@
    }

    /// The identifiers of the edges leaving `n`, in the order its index lists them.
    pub closed spec fn out_list(&self, n: u128) -> Seq<u128> {
        if self.adjacency@.contains_key(n) {
            self.adjacency@[n]@
        } else {
            Seq::empty()
        }
    }

    /// The identifiers of the edges entering `n`, in the order its index lists them.
    pub closed spec fn in_list(&self, n: u128) -> Seq<u128> {
        if self.reverse_adj@.contains_key(n) {
            self.reverse_adj@[n]@
        } else {
            Seq::empty()
        }
    }

    /// The edges that `neighbors` follows out of `n`: unless `dir` is `In`, those leaving
    /// it, in index order, whose kind `filter` lets through.
    pub open spec fn followed_out(&self, n: u128, dir: Direction, filter: Option<Seq<EdgeKind>>) -> Seq<u128> {
        if dir != Direction::In {
            self.out_list(n).filter(kind_followed(self.edges_view(), filter))
        } else {
            Seq::empty()
        }
    }

    /// The edges that `neighbors` follows into `n`: unless `dir` is `Out`, those entering
    /// it, in index order, whose kind `filter` lets through.
    pub open spec fn followed_in(&self, n: u128, dir: Direction, filter: Option<Seq<EdgeKind>>) -> Seq<u128> {
        if dir != Direction::Out {
            self.in_list(n).filter(kind_followed(self.edges_view(), filter))
        } else {
            Seq::empty()
        }
    }

    /// The neighbours that `neighbors(n, Both, filter)` lists, in its order.
    pub open spec fn neighbor_seq(&self, n: u128, filter: Option<Seq<EdgeKind>>) -> Seq<u128> {
        self.followed_out(n, Direction::Both, filter).map_values(|e: u128| self.edges_view()[e].target)
            + self.followed_in(n, Direction::Both, filter).map_values(|e: u128| self.edges_view()[e].source)
    }

    /// The neighbour relation that walks follow under `filter`: each node to the
    /// neighbours `neighbors(n, Both, filter)` lists.
    pub open spec fn hops(&self, filter: Option<Seq<EdgeKind>>) -> spec_fn(u128) -> Seq<u128> {
        |u: u128| self.neighbor_seq(u, filter)
    }

    /// The neighbours of the nodes of `frontier`, one node after the other.
    pub open spec fn frontier_neighbors(&self, frontier: Seq<u128>, filter: Option<Seq<EdgeKind>>) -> Seq<u128>
        decreases frontier.len(),
    {
        if frontier.len() == 0 {
            Seq::empty()
        } else {
            self.frontier_neighbors(frontier.drop_last(), filter) + self.neighbor_seq(frontier.last(), filter)
        }
    }

    /// The layers of a breadth-first walk from `s` of up to `d` hops: layer 0 holds `s`,
    /// and each next layer the neighbours of the nodes of the layer before, in order, each
    /// once, leaving out the nodes of earlier layers.
    pub open spec fn walk_layers(&self, s: u128, filter: Option<Seq<EdgeKind>>, d: nat) -> Seq<Seq<u128>>
        decreases d,
    {
        if d == 0 {
            seq![seq![s]]
        } else {
            let prev = self.walk_layers(s, filter, (d - 1) as nat);
            prev.push(fresh(self.frontier_neighbors(prev.last(), filter), listed_set(labelled(prev))))
        }
    }

    /// There is one layer more than the number of hops.
    pub proof fn lemma_walk_layers_len(&self, s: u128, filter: Option<Seq<EdgeKind>>, d: nat)
        ensures
            self.walk_layers(s, filter, d).len() == d + 1,
        decreases d,
    {
        if d > 0 {
            self.lemma_walk_layers_len(s, filter, (d - 1) as nat);
        }
    }

    /// Once a layer is empty, every later layer is empty and lists nothing more.
    pub proof fn lemma_walk_layers_stable(&self, s: u128, filter: Option<Seq<EdgeKind>>, d: nat, k: nat)
        requires
            self.walk_layers(s, filter, d).last().len() == 0,
            d <= k,
        ensures
            self.walk_layers(s, filter, k).last().len() == 0,
            labelled(self.walk_layers(s, filter, k)) == labelled(self.walk_layers(s, filter, d)),
        decreases k,
    {
        if k > d {
            self.lemma_walk_layers_stable(s, filter, d, (k - 1) as nat);
            let prev = self.walk_layers(s, filter, (k - 1) as nat);
            assert(prev.last() =~= Seq::<u128>::empty());
            assert(self.frontier_neighbors(prev.last(), filter) == Seq::<u128>::empty());
            let nl = fresh(self.frontier_neighbors(prev.last(), filter), listed_set(labelled(prev)));
            assert(nl == Seq::<u128>::empty());
            lemma_labelled_push(prev, nl);
            assert(nl.map_values(|v: u128| (v, prev.len() as usize)) =~= Seq::<(u128, usize)>::empty());
            assert(labelled(prev.push(nl)) =~= labelled(prev));
        }
    }

    /// The graph's invariant: every edge is stored under its own identifier and is
    /// listed in the outgoing index of its source and the incoming index of its target.
    pub closed spec fn wf(&self) -> bool {
        &&& forall|e: u128| #[trigger] self.edges@.contains_key(e) ==> self.edges@[e].id == e
        &&& forall|e: u128|
            #[trigger] self.edges@.contains_key(e) ==> {
                let ed = self.edges@[e];
                &&& self.adjacency@.contains_key(ed.source)
                &&& self.adjacency@[ed.source]@.contains(e)
                &&& self.reverse_adj@.contains_key(ed.target)
                &&& self.reverse_adj@[ed.target]@.contains(e)
            }
    }

    /// The indexes list nothing else: each entry of a node's outgoing (incoming) index
    /// names a stored edge leaving (entering) that node, and no entry repeats. This holds
    /// of a graph as long as no edge has been added under an identifier already stored;
    /// such an edge leaves its identifier listed a second time, or under its old ends.
    pub closed spec fn sound(&self) -> bool {
        &&& self.wf()
        &&& forall|n: u128|
            #[trigger] self.adjacency@.contains_key(n) ==> index_list_ok(
                self.adjacency@[n]@,
                self.edges@,
                n,
                true,
            )
        &&& forall|n: u128|
            #[trigger] self.reverse_adj@.contains_key(n) ==> index_list_ok(
                self.reverse_adj@[n]@,
                self.edges@,
                n,
                false,
            )
    }

    /// A graph holds finitely many nodes and edges.
    pub proof fn lemma_views_finite(&self)
        ensures
            self.nodes_view().dom().finite(),
            self.edges_view().dom().finite(),
    {
    }

    /// In a well-formed graph every edge is stored under its own identifier.
    pub proof fn lemma_edges_keyed_by_id(&self)
        requires
            self.wf(),
        ensures
            forall|e: u128| #[trigger] self.edges_view().contains_key(e) ==> self.edges_view()[e].id == e,
    {
    }

    /// In a sound graph every identifier an index lists names an edge kept by that node:
    /// leaving it for an outgoing list, entering it for an incoming one.
    pub proof fn lemma_lists_hold_edges(&self)
        requires
            self.sound(),
        ensures
            forall|n: u128, i: int|
                0 <= i < self.out_list(n).len() ==> self.edges_view().contains_key(#[trigger] self.out_list(n)[i])
                    && self.edges_view()[self.out_list(n)[i]].source == n,
            forall|n: u128, i: int|
                0 <= i < self.in_list(n).len() ==> self.edges_view().contains_key(#[trigger] self.in_list(n)[i])
                    && self.edges_view()[self.in_list(n)[i]].target == n,
    {
        assert forall|n: u128, i: int| 0 <= i < self.out_list(n).len() implies self.edges_view().contains_key(
            #[trigger] self.out_list(n)[i],
        ) && self.edges_view()[self.out_list(n)[i]].source == n by {
            assert(self.adjacency@.contains_key(n));
            assert(index_list_ok(self.adjacency@[n]@, self.edges@, n, true));
        }
        assert forall|n: u128, i: int| 0 <= i < self.in_list(n).len() implies self.edges_view().contains_key(
            #[trigger] self.in_list(n)[i],
        ) && self.edges_view()[self.in_list(n)[i]].target == n by {
            assert(self.reverse_adj@.contains_key(n));
            assert(index_list_ok(self.reverse_adj@[n]@, self.edges@, n, false));
        }
    }

    /// Soundness is a matter of the edges and the index lists alone.
    pub proof fn lemma_sound_by_views(&self, other: &AmureGraph)
        requires
            self.edges_view() == other.edges_view(),
            same_index(*self, *other),
            other.sound(),
            self.wf(),
        ensures
            self.sound(),
    {
        assert forall|n: u128| #[trigger] self.adjacency@.contains_key(n) implies index_list_ok(
            self.adjacency@[n]@,
            self.edges@,
            n,
            true,
        ) by {
            assert(self.out_list(n) == other.out_list(n));
            if other.adjacency@.contains_key(n) {
                assert(index_list_ok(other.adjacency@[n]@, other.edges@, n, true));
            }
        }
        assert forall|n: u128| #[trigger] self.reverse_adj@.contains_key(n) implies index_list_ok(
            self.reverse_adj@[n]@,
            self.edges@,
            n,
            false,
        ) by {
            assert(self.in_list(n) == other.in_list(n));
            if other.reverse_adj@.contains_key(n) {
                assert(index_list_ok(other.reverse_adj@[n]@, other.edges@, n, false));
            }
        }
    }

    /// A sound graph is well-formed.
    pub proof fn lemma_sound_is_wf(&self)
        requires
            self.sound(),
        ensures
            self.wf(),
    {
    }

    /// In a well-formed graph every stored edge is listed in the outgoing index of its
    /// source and the incoming index of its target.
    pub proof fn lemma_lists_complete(&self)
        requires
            self.wf(),
        ensures
            forall|e: u128| #[trigger] self.edges_view().contains_key(e) ==> self.out_list(
                self.edges_view()[e].source,
            ).contains(e) && self.in_list(self.edges_view()[e].target).contains(e),
    {
    }

    /// In a sound graph an identifier of no edge is listed in no index.
    pub proof fn lemma_unlisted_when_absent(&self, id: u128)
        requires
            self.sound(),
            !self.edges_view().contains_key(id),
        ensures
            forall|n: u128| #[trigger] self.out_list(n).filter(other_than(id)) == self.out_list(n),
            forall|n: u128| #[trigger] self.in_list(n).filter(other_than(id)) == self.in_list(n),
    {
        assert forall|n: u128| #[trigger] self.out_list(n).filter(other_than(id)) == self.out_list(n) by {
            if self.adjacency@.contains_key(n) {
                lemma_index_without(self.adjacency@[n]@, self.edges@, n, true, id);
            } else {
                lemma_filter_all(Seq::<u128>::empty(), other_than(id));
            }
        }
        assert forall|n: u128| #[trigger] self.in_list(n).filter(other_than(id)) == self.in_list(n) by {
            if self.reverse_adj@.contains_key(n) {
                lemma_index_without(self.reverse_adj@[n]@, self.edges@, n, false, id);
            } else {
                lemma_filter_all(Seq::<u128>::empty(), other_than(id));
            }
        }
    }

    /// An empty graph.
    pub fn new() -> (g: AmureGraph)
        ensures
            g.wf(),
            g.sound(),
            g.nodes_view() == Map::<u128, Node>::empty(),
            g.edges_view() == Map::<u128, Edge>::empty(),
            forall|n: u128| #[trigger] g.out_list(n) == Seq::<u128>::empty(),
            forall|n: u128| #[trigger] g.in_list(n) == Seq::<u128>::empty(),
    {
        AmureGraph {
            nodes: HashMap::new(),
            edges: HashMap::new(),
            adjacency: HashMap::new(),
            reverse_adj: HashMap::new(),
        }
    }

    // ── Nodes ──────────────────────────────────────────────────────────

    /// Stores `node` under its identifier, replacing any node stored there, and returns
    /// the identifier. Edges are untouched.
    pub fn add_node(&mut self, node: Node) -> (id: u128)
        requires
            old(self).wf(),
        ensures
            final(self).wf(),
            id == node.id,
            final(self).nodes_view() == old(self).nodes_view().insert(node.id, node),
            final(self).edges_view() == old(self).edges_view(),
            same_index(*final(self), *old(self)),
            final(self).sound() == old(self).sound(),
    {
        let id = node.id;
        self.nodes.insert(id, node);
        if !self.adjacency.contains_key(&id) {
            self.adjacency.insert(id, Vec::new());
        }
        if !self.reverse_adj.contains_key(&id) {
            self.reverse_adj.insert(id, Vec::new());
        }
        proof {
            if old(self).sound() {
                assert forall|n: u128| #[trigger] self.adjacency@.contains_key(n) implies index_list_ok(
                    self.adjacency@[n]@,
                    self.edges@,
                    n,
                    true,
                ) by {
                    if old(self).adjacency@.contains_key(n) {
                        assert(self.adjacency@[n] == old(self).adjacency@[n]);
                    }
                }
                assert forall|n: u128| #[trigger] self.reverse_adj@.contains_key(n) implies index_list_ok(
                    self.reverse_adj@[n]@,
                    self.edges@,
                    n,
                    false,
                ) by {
                    if old(self).reverse_adj@.contains_key(n) {
                        assert(self.reverse_adj@[n] == old(self).reverse_adj@[n]);
                    }
                }
            }
            if self.sound() {
                assert forall|n: u128| #[trigger] old(self).adjacency@.contains_key(n) implies index_list_ok(
                    old(self).adjacency@[n]@,
                    old(self).edges@,
                    n,
                    true,
                ) by {
                    assert(self.adjacency@.contains_key(n));
                    assert(index_list_ok(self.adjacency@[n]@, self.edges@, n, true));
                    assert(self.adjacency@[n] == old(self).adjacency@[n]);
                }
                assert forall|n: u128| #[trigger] old(self).reverse_adj@.contains_key(n) implies index_list_ok(
                    old(self).reverse_adj@[n]@,
                    old(self).edges@,
                    n,
                    false,
                ) by {
                    assert(self.reverse_adj@.contains_key(n));
                    assert(index_list_ok(self.reverse_adj@[n]@, self.edges@, n, false));
                    assert(self.reverse_adj@[n] == old(self).reverse_adj@[n]);
                }
            }
        }
        id
    }

    /// The node stored under `id`, if any.
    pub fn get_node(&self, id: &u128) -> (r: Option<&Node>)
        ensures
            match r {
                Some(n) => self.nodes_view().contains_key(*id) && *n == self.nodes_view()[*id],
                None => !self.nodes_view().contains_key(*id),
            },
    {
        self.nodes.get(id)
    }

    /// The node stored under `id` for changing in place, if any. Only the node changes:
    /// its edges and identifier key stay as they are.
    pub fn get_node_mut(&mut self, id: &u128) -> (r: Option<&mut Node>)
        requires
            old(self).wf(),
        ensures
            final(self).wf(),
            final(self).edges_view() == old(self).edges_view(),
            same_index(*final(self), *old(self)),
            match r {
                Some(n) => {
                    &&& old(self).nodes_view().contains_key(*id)
                    &&& *n == old(self).nodes_view()[*id]
                    &&& final(self).nodes_view() == old(self).nodes_view().insert(*id, *final(n))
                },
                None => {
                    &&& !old(self).nodes_view().contains_key(*id)
                    &&& final(self).nodes_view() == old(self).nodes_view()
                },
            },
    {
        match self.nodes.entry(*id) {
            std::collections::hash_map::Entry::Occupied(o) => Some(o.into_mut()),
            std::collections::hash_map::Entry::Vacant(_) => None,
        }
    }

    /// Removes the node stored under `id` and returns it (`None` when there is none).
    /// Every edge its indexes list is removed as `remove_edge` removes it, and its index
    /// lists are dropped. In a sound graph those are exactly the edges that leave or enter
    /// it.
    #[verifier::rlimit(40)]
    #[verifier::spinoff_prover]
    pub fn remove_node(&mut self, id: &u128) -> (r: Option<Node>)
        requires
            old(self).wf(),
        ensures
            final(self).wf(),
            old(self).sound() ==> final(self).sound(),
            r == old(self).nodes_view().get(*id),
            final(self).nodes_view() == old(self).nodes_view().remove(*id),
            final(self).edges_view() == old(self).edges_view().restrict(
                old(self).edges_view().dom().filter(not_in(old(self).out_list(*id) + old(self).in_list(*id))),
            ),
            old(self).sound() ==> final(self).edges_view() == without_incident(old(self).edges_view(), *id),
            final(self).out_list(*id) == Seq::<u128>::empty(),
            final(self).in_list(*id) == Seq::<u128>::empty(),
            forall|n: u128|
                n != *id ==> #[trigger] final(self).out_list(n) == old(self).out_list(n).filter(
                    kept_at(old(self).edges_view(), old(self).out_list(*id) + old(self).in_list(*id), n, true),
                ),
            forall|n: u128|
                n != *id ==> #[trigger] final(self).in_list(n) == old(self).in_list(n).filter(
                    kept_at(old(self).edges_view(), old(self).out_list(*id) + old(self).in_list(*id), n, false),
                ),
            old(self).sound() ==> forall|n: u128|
                n != *id ==> #[trigger] final(self).out_list(n) == old(self).out_list(n).filter(
                    not_touching(old(self).edges_view(), *id),
                ),
            old(self).sound() ==> forall|n: u128|
                n != *id ==> #[trigger] final(self).in_list(n) == old(self).in_list(n).filter(
                    not_touching(old(self).edges_view(), *id),
                ),
    {
        let r = self.nodes.remove(id);
        assert(self.adjacency@ == old(self).adjacency@ && self.reverse_adj@ == old(self).reverse_adj@);
        let ghost e0 = self.edges@;
        let ghost s0 = old(self).sound();
        let ghost out_l = old(self).out_list(*id);
        let ghost in_l = old(self).in_list(*id);
        let mut edge_ids: Vec<u128> = Vec::new();
        match self.adjacency.get(id) {
            Some(out) => {
                append_ids(&mut edge_ids, out);
            },
            None => {},
        }
        assert(edge_ids@ =~= out_l);
        let ghost n_out = edge_ids@.len();
        match self.reverse_adj.get(id) {
            Some(inc) => {
                append_ids(&mut edge_ids, inc);
            },
            None => {},
        }
        assert(edge_ids@ =~= out_l + in_l);
        let ghost all = edge_ids@;
        proof {
            // every edge touching the node is listed by it
            assert forall|e: u128| e0.contains_key(e) && incident(e0[e], *id) implies #[trigger] all.contains(e) by {
                if e0[e].source == *id {
                    let l = self.adjacency@[*id]@;
                    let k = choose|k: int| 0 <= k < l.len() && l[k] == e;
                    assert(all[k] == e);
                } else {
                    let l = self.reverse_adj@[*id]@;
                    let k = choose|k: int| 0 <= k < l.len() && l[k] == e;
                    assert(all[n_out + k] == e);
                }
            }
            // in a sound graph, only those
            if s0 {
                old(self).lemma_lists_hold_edges();
                assert forall|e: u128| #[trigger] all.contains(e) implies e0.contains_key(e) && incident(e0[e], *id) by {
                    let k = choose|k: int| 0 <= k < all.len() && all[k] == e;
                    if k < n_out {
                        assert(all[k] == out_l[k]);
                        assert(e0.contains_key(out_l[k]) && e0[out_l[k]].source == *id);
                    } else {
                        assert(all[k] == in_l[k - n_out]);
                        assert(e0.contains_key(in_l[k - n_out]) && e0[in_l[k - n_out]].target == *id);
                    }
                }
            }
        }
        let mut k: usize = 0;
        proof {
            assert(all.take(0) =~= Seq::<u128>::empty());
            assert forall|n: u128| #[trigger] self.out_list(n) == old(self).out_list(n).filter(
                kept_at(e0, all.take(0), n, true),
            ) by {
                lemma_filter_all(old(self).out_list(n), kept_at(e0, all.take(0), n, true));
            }
            assert forall|n: u128| #[trigger] self.in_list(n) == old(self).in_list(n).filter(
                kept_at(e0, all.take(0), n, false),
            ) by {
                lemma_filter_all(old(self).in_list(n), kept_at(e0, all.take(0), n, false));
            }
        }
        while k < edge_ids.len()
            invariant
                self.wf(),
                s0 == old(self).sound(),
                s0 ==> self.sound(),
                k <= edge_ids.len(),
                all == edge_ids@,
                self.nodes@ == old(self).nodes@.remove(*id),
                e0 == old(self).edges@,
                forall|n: u128| #[trigger] self.out_list(n) == old(self).out_list(n).filter(
                    kept_at(e0, all.take(k as int), n, true),
                ),
                forall|n: u128| #[trigger] self.in_list(n) == old(self).in_list(n).filter(
                    kept_at(e0, all.take(k as int), n, false),
                ),
                forall|e: u128|
                    #[trigger] self.edges@.contains_key(e) <==> (e0.contains_key(e)
                        && !all.take(k as int).contains(e)),
                forall|e: u128| #[trigger] self.edges@.contains_key(e) ==> self.edges@[e] == e0[e],
            decreases edge_ids.len() - k,
        {
            let eid = edge_ids[k];
            let ghost before = *self;
            self.remove_edge(&eid);
            proof {
                let t = all.take(k as int);
                assert forall|e: u128| #[trigger] all.take(k + 1).contains(e) <==> (t.contains(e) || e == eid) by {
                    assert(all.take(k + 1) == t.push(eid));
                    if t.push(eid).contains(e) && e != eid {
                        let j = choose|j: int| 0 <= j < t.push(eid).len() && t.push(eid)[j] == e;
                        assert(t[j] == e);
                    }
                    if t.contains(e) {
                        let j = choose|j: int| 0 <= j < t.len() && t[j] == e;
                        assert(t.push(eid)[j] == e);
                    }
                    if e == eid {
                        assert(t.push(eid)[t.len() as int] == e);
                    }
                }
                let present = before.edges@.contains_key(eid);
                assert forall|n: u128| #[trigger] self.out_list(n) == old(self).out_list(n).filter(
                    kept_at(e0, all.take(k + 1), n, true),
                ) by {
                    let l = old(self).out_list(n);
                    let p = kept_at(e0, t, n, true);
                    let q = kept_at(e0, all.take(k + 1), n, true);
                    if present && n == e0[eid].source {
                        let o = other_than(eid);
                        lemma_filter_filter(l, p, o);
                        assert forall|i: int| 0 <= i < l.len() implies (|x: u128| p(x) && o(x))(#[trigger] l[i]) == q(l[i]) by {}
                        lemma_filter_agree(l, |x: u128| p(x) && o(x), q);
                    } else {
                        assert forall|i: int| 0 <= i < l.len() implies p(#[trigger] l[i]) == q(l[i]) by {}
                        lemma_filter_agree(l, p, q);
                    }
                }
                assert forall|n: u128| #[trigger] self.in_list(n) == old(self).in_list(n).filter(
                    kept_at(e0, all.take(k + 1), n, false),
                ) by {
                    let l = old(self).in_list(n);
                    let p = kept_at(e0, t, n, false);
                    let q = kept_at(e0, all.take(k + 1), n, false);
                    if present && n == e0[eid].target {
                        let o = other_than(eid);
                        lemma_filter_filter(l, p, o);
                        assert forall|i: int| 0 <= i < l.len() implies (|x: u128| p(x) && o(x))(#[trigger] l[i]) == q(l[i]) by {}
                        lemma_filter_agree(l, |x: u128| p(x) && o(x), q);
                    } else {
                        assert forall|i: int| 0 <= i < l.len() implies p(#[trigger] l[i]) == q(l[i]) by {}
                        lemma_filter_agree(l, p, q);
                    }
                }
            }
            k = k + 1;
        }
        assert(all.take(all.len() as int) =~= all);
        let ghost mid = *self;
        self.adjacency.remove(id);
        self.reverse_adj.remove(id);
        proof {
            assert forall|e: u128| #[trigger] self.edges@.contains_key(e) implies {
                let ed = self.edges@[e];
                &&& self.adjacency@.contains_key(ed.source)
                &&& self.adjacency@[ed.source]@.contains(e)
                &&& self.reverse_adj@.contains_key(ed.target)
                &&& self.reverse_adj@[ed.target]@.contains(e)
            } by {
                assert(mid.edges@.contains_key(e));
                assert(!all.contains(e));
                assert(!incident(self.edges@[e], *id));
            }
            assert(self.edges@ =~= e0.restrict(e0.dom().filter(not_in(all))));
            assert forall|n: u128| n != *id implies #[trigger] self.out_list(n) == old(self).out_list(n).filter(
                kept_at(e0, all, n, true),
            ) by {
                assert(self.adjacency@.get(n) == mid.adjacency@.get(n));
                assert(self.out_list(n) == mid.out_list(n));
                assert(mid.out_list(n) == old(self).out_list(n).filter(kept_at(e0, all.take(all.len() as int), n, true)));
            }
            assert forall|n: u128| n != *id implies #[trigger] self.in_list(n) == old(self).in_list(n).filter(
                kept_at(e0, all, n, false),
            ) by {
                assert(self.reverse_adj@.get(n) == mid.reverse_adj@.get(n));
                assert(self.in_list(n) == mid.in_list(n));
                assert(mid.in_list(n) == old(self).in_list(n).filter(kept_at(e0, all.take(all.len() as int), n, false)));
            }
            if s0 {
                assert forall|n: u128| #[trigger] self.adjacency@.contains_key(n) implies index_list_ok(
                    self.adjacency@[n]@,
                    self.edges@,
                    n,
                    true,
                ) by {
                    assert(mid.adjacency@.contains_key(n));
                }
                assert forall|n: u128| #[trigger] self.reverse_adj@.contains_key(n) implies index_list_ok(
                    self.reverse_adj@[n]@,
                    self.edges@,
                    n,
                    false,
                ) by {
                    assert(mid.reverse_adj@.contains_key(n));
                }
                assert(self.sound());
                assert(self.edges@ =~= without_incident(e0, *id));
                let nt = not_touching(e0, *id);
                old(self).lemma_lists_hold_edges();
                assert forall|n: u128| n != *id implies #[trigger] self.out_list(n) == old(self).out_list(n).filter(nt) by {
                    assert(self.out_list(n) == old(self).out_list(n).filter(kept_at(e0, all, n, true)));
                    let l = old(self).out_list(n);
                    let p = kept_at(e0, all, n, true);
                    assert forall|i: int| 0 <= i < l.len() implies p(#[trigger] l[i]) == nt(l[i]) by {
                        assert(e0.contains_key(l[i]) && e0[l[i]].source == n);
                    }
                    lemma_filter_agree(l, p, nt);
                }
                assert forall|n: u128| n != *id implies #[trigger] self.in_list(n) == old(self).in_list(n).filter(nt) by {
                    assert(self.in_list(n) == old(self).in_list(n).filter(kept_at(e0, all, n, false)));
                    let l = old(self).in_list(n);
                    let p = kept_at(e0, all, n, false);
                    assert forall|i: int| 0 <= i < l.len() implies p(#[trigger] l[i]) == nt(l[i]) by {
                        assert(e0.contains_key(l[i]) && e0[l[i]].target == n);
                    }
                    lemma_filter_agree(l, p, nt);
                }
            }
        }
        r
    }

    /// The number of nodes.
    pub fn node_count(&self) -> (r: usize)
        ensures
            r == self.nodes_view().len(),
    {
        self.nodes.len()
    }

    // ── Edges ──────────────────────────────────────────────────────────

    /// The edge stored under `id`, if any.
    pub fn get_edge(&self, id: &u128) -> (r: Option<&Edge>)
        ensures
            match r {
                Some(e) => self.edges_view().contains_key(*id) && *e == self.edges_view()[*id],
                None => !self.edges_view().contains_key(*id),
            },
    {
        self.edges.get(id)
    }

    /// Removes the edge stored under `id` and returns it; `None`, with nothing changed,
    /// when there is none.
    pub fn remove_edge(&mut self, id: &u128) -> (r: Option<Edge>)
        requires
            old(self).wf(),
        ensures
            final(self).wf(),
            r == old(self).edges_view().get(*id),
            final(self).edges_view() == old(self).edges_view().remove(*id),
            final(self).nodes_view() == old(self).nodes_view(),
            old(self).sound() ==> final(self).sound(),
            forall|n: u128| #[trigger] final(self).out_list(n) == unlisted(
                old(self).out_list(n),
                old(self).edges_view(),
                *id,
                n,
                true,
            ),
            forall|n: u128| #[trigger] final(self).in_list(n) == unlisted(
                old(self).in_list(n),
                old(self).edges_view(),
                *id,
                n,
                false,
            ),
    {
        match self.edges.remove(id) {
            Some(edge) => {
                let ghost adj0 = self.adjacency@;
                let ghost radj0 = self.reverse_adj@;
                assert(adj0 == old(self).adjacency@ && radj0 == old(self).reverse_adj@);
                unlist(&mut self.adjacency, edge.source, *id);
                unlist(&mut self.reverse_adj, edge.target, *id);
                proof {
                    let edges = self.edges@;
                    assert forall|e: u128| #[trigger] edges.contains_key(e) implies {
                        let ed = edges[e];
                        &&& self.adjacency@.contains_key(ed.source)
                        &&& self.adjacency@[ed.source]@.contains(e)
                        &&& self.reverse_adj@.contains_key(ed.target)
                        &&& self.reverse_adj@[ed.target]@.contains(e)
                    } by {
                        assert(old(self).edges@.contains_key(e));
                        let ed = edges[e];
                        if ed.source != edge.source {
                            assert(self.adjacency@.get(ed.source) == adj0.get(ed.source));
                        }
                        if ed.target != edge.target {
                            assert(self.reverse_adj@.get(ed.target) == radj0.get(ed.target));
                        }
                    }
                    if old(self).sound() {
                        assert forall|n: u128| #[trigger] self.adjacency@.contains_key(n) implies index_list_ok(
                            self.adjacency@[n]@,
                            edges,
                            n,
                            true,
                        ) by {
                            let l = self.adjacency@[n]@;
                            assert(adj0.contains_key(n));
                            assert(index_list_ok(adj0[n]@, old(self).edges@, n, true));
                            if n != edge.source {
                                assert(self.adjacency@.get(n) == adj0.get(n));
                            }
                            assert forall|i: int| 0 <= i < l.len() implies {
                                &&& #[trigger] edges.contains_key(l[i])
                                &&& edges[l[i]].source == n
                            } by {
                                assert(l.contains(l[i]));
                                assert(adj0[n]@.contains(l[i]));
                                let lst = adj0[n]@;
                                let k = choose|k: int| 0 <= k < lst.len() && lst[k] == l[i];
                                assert(0 <= k < lst.len());
                                assert(index_list_ok(lst, old(self).edges@, n, true));
                                assert(old(self).edges@.contains_key(lst[k]));
                                assert(old(self).edges@[lst[k]].source == n);
                                if n == edge.source {
                                    assert(l[i] != *id);
                                } else {
                                    assert(old(self).edges@[*id] == edge);
                                    assert(l[i] != *id);
                                }
                            }
                        }
                        assert forall|n: u128| #[trigger] self.reverse_adj@.contains_key(n) implies index_list_ok(
                            self.reverse_adj@[n]@,
                            edges,
                            n,
                            false,
                        ) by {
                            let l = self.reverse_adj@[n]@;
                            assert(radj0.contains_key(n));
                            assert(index_list_ok(radj0[n]@, old(self).edges@, n, false));
                            if n != edge.target {
                                assert(self.reverse_adj@.get(n) == radj0.get(n));
                            }
                            assert forall|i: int| 0 <= i < l.len() implies {
                                &&& #[trigger] edges.contains_key(l[i])
                                &&& edges[l[i]].target == n
                            } by {
                                assert(l.contains(l[i]));
                                assert(radj0[n]@.contains(l[i]));
                                let lst = radj0[n]@;
                                let k = choose|k: int| 0 <= k < lst.len() && lst[k] == l[i];
                                assert(0 <= k < lst.len());
                                assert(index_list_ok(lst, old(self).edges@, n, false));
                                assert(old(self).edges@.contains_key(lst[k]));
                                assert(old(self).edges@[lst[k]].target == n);
                                if n == edge.target {
                                    assert(l[i] != *id);
                                } else {
                                    assert(old(self).edges@[*id] == edge);
                                    assert(l[i] != *id);
                                }
                            }
                        }
                        assert(self.sound());
                    }
                    assert forall|n: u128| #[trigger] self.out_list(n) == unlisted(
                        old(self).out_list(n),
                        old(self).edges_view(),
                        *id,
                        n,
                        true,
                    ) by {
                        if n != edge.source {
                            assert(self.adjacency@.get(n) == adj0.get(n));
                        }
                    }
                    assert forall|n: u128| #[trigger] self.in_list(n) == unlisted(
                        old(self).in_list(n),
                        old(self).edges_view(),
                        *id,
                        n,
                        false,
                    ) by {
                        if n != edge.target {
                            assert(self.reverse_adj@.get(n) == radj0.get(n));
                        }
                    }
                }
                Some(edge)
            },
            None => {
                assert(self.edges@ =~= old(self).edges@.remove(*id));
                None
            },
        }
    }

    /// Stores `edge` under its identifier, replacing any edge stored there, and lists it
    /// at the end of the outgoing index of its source and the incoming index of its
    /// target. The entries of a replaced edge stay where they were, so that its
    /// identifier can then be listed twice, or under the replaced edge's ends.
    #[verifier::rlimit(40)]
    pub fn add_edge(&mut self, edge: Edge) -> (id: u128)
        requires
            old(self).wf(),
        ensures
            final(self).wf(),
            old(self).sound() && !old(self).edges_view().contains_key(edge.id) ==> final(self).sound(),
            id == edge.id,
            final(self).edges_view() == old(self).edges_view().insert(edge.id, edge),
            final(self).nodes_view() == old(self).nodes_view(),
            forall|n: u128| #[trigger] final(self).out_list(n) == old(self).out_list(n) + one_if(n == edge.source, edge.id),
            forall|n: u128| #[trigger] final(self).in_list(n) == old(self).in_list(n) + one_if(n == edge.target, edge.id),
    {
        let id = edge.id;
        let ghost fresh_sound = self.sound() && !self.edges@.contains_key(id);
        let ghost mid = *self;
        let ghost adj0 = self.adjacency@;
        let ghost radj0 = self.reverse_adj@;
        let ghost old_out = if adj0.contains_key(edge.source) { adj0[edge.source]@ } else { Seq::<u128>::empty() };
        let ghost old_in = if radj0.contains_key(edge.target) { radj0[edge.target]@ } else { Seq::<u128>::empty() };
        proof {
            if fresh_sound {
                if adj0.contains_key(edge.source) {
                    assert(index_list_ok(adj0[edge.source]@, mid.edges@, edge.source, true));
                    assert(!old_out.contains(id)) by {
                        if old_out.contains(id) {
                            let k = choose|k: int| 0 <= k < old_out.len() && old_out[k] == id;
                            assert(mid.edges@.contains_key(old_out[k]));
                        }
                    }
                }
                if radj0.contains_key(edge.target) {
                    assert(index_list_ok(radj0[edge.target]@, mid.edges@, edge.target, false));
                    assert(!old_in.contains(id)) by {
                        if old_in.contains(id) {
                            let k = choose|k: int| 0 <= k < old_in.len() && old_in[k] == id;
                            assert(mid.edges@.contains_key(old_in[k]));
                        }
                    }
                }
                lemma_push_no_duplicates(old_out, id);
                lemma_push_no_duplicates(old_in, id);
            }
        }
        enlist(&mut self.adjacency, edge.source, id);
        enlist(&mut self.reverse_adj, edge.target, id);
        let ghost e = edge;
        self.edges.insert(id, edge);
        proof {
            let edges = self.edges@;
            assert forall|x: u128| #[trigger] edges.contains_key(x) implies edges[x].id == x by {
                if x != id {
                    assert(mid.edges@.contains_key(x));
                }
            }
            assert forall|x: u128| #[trigger] edges.contains_key(x) implies {
                let ed = edges[x];
                &&& self.adjacency@.contains_key(ed.source)
                &&& self.adjacency@[ed.source]@.contains(x)
                &&& self.reverse_adj@.contains_key(ed.target)
                &&& self.reverse_adj@[ed.target]@.contains(x)
            } by {
                let ed = edges[x];
                if x == id {
                    assert(self.adjacency@[e.source]@[old_out.len() as int] == id);
                    assert(self.reverse_adj@[e.target]@[old_in.len() as int] == id);
                } else {
                    assert(mid.edges@.contains_key(x));
                    if ed.source == e.source {
                        let k = choose|k: int| 0 <= k < old_out.len() && old_out[k] == x;
                        assert(self.adjacency@[e.source]@[k] == x);
                    } else {
                        assert(self.adjacency@.get(ed.source) == adj0.get(ed.source));
                    }
                    if ed.target == e.target {
                        let k = choose|k: int| 0 <= k < old_in.len() && old_in[k] == x;
                        assert(self.reverse_adj@[e.target]@[k] == x);
                    } else {
                        assert(self.reverse_adj@.get(ed.target) == radj0.get(ed.target));
                    }
                }
            }
            if fresh_sound {
                lemma_enlist_keeps_index(adj0, self.adjacency@, mid.edges@, edges, e.source, id, true);
                lemma_enlist_keeps_index(radj0, self.reverse_adj@, mid.edges@, edges, e.target, id, false);
                assert(self.sound());
            }
            assert(edges =~= old(self).edges@.insert(id, e));
            assert forall|n: u128| #[trigger] self.out_list(n) == mid.out_list(n) + one_if(n == e.source, id) by {
                if n == e.source {
                    assert(mid.out_list(n) == old_out);
                    assert(old_out.push(id) =~= old_out + seq![id]);
                } else {
                    assert(self.adjacency@.get(n) == adj0.get(n));
                    assert(mid.out_list(n) + Seq::<u128>::empty() =~= mid.out_list(n));
                }
            }
            assert forall|n: u128| #[trigger] self.in_list(n) == mid.in_list(n) + one_if(n == e.target, id) by {
                if n == e.target {
                    assert(mid.in_list(n) == old_in);
                    assert(old_in.push(id) =~= old_in + seq![id]);
                } else {
                    assert(self.reverse_adj@.get(n) == radj0.get(n));
                    assert(mid.in_list(n) + Seq::<u128>::empty() =~= mid.in_list(n));
                }
            }
        }
        id
    }

    /// Appends, for each entry of `list` that names a stored edge whose kind `filter`
    /// lets through, the edge's far end and the edge itself.
    fn push_listed<'a>(
        &'a self,
        list: &Vec<u128>,
        outgoing: bool,
        filter: Option<&[EdgeKind]>,
        result: &mut Vec<(u128, &'a Edge)>,
    ) -> (taken: Ghost<Seq<u128>>)
        ensures
            taken@ == list@.filter(kind_followed(self.edges@, filter_view(filter))),
            listing_extends(old(result)@, final(result)@, self.edges@, taken@, outgoing),
    {
        let ghost mut taken: Seq<u128> = Seq::empty();
        let ghost base: int = result@.len() as int;
        let ghost kf = kind_followed(self.edges@, filter_view(filter));
        let mut j: usize = 0;
        while j < list.len()
            invariant
                j <= list.len(),
                base == old(result)@.len(),
                kf == kind_followed(self.edges@, filter_view(filter)),
                taken == list@.take(j as int).filter(kf),
                listing_extends(old(result)@, result@, self.edges@, taken, outgoing),
            decreases list.len() - j,
        {
            let eid = list[j];
            proof {
                assert(list@.take(j + 1) =~= list@.take(j as int).push(eid));
                list@.take(j as int).lemma_filter_push(eid, kf);
            }
            match self.edges.get(&eid) {
                Some(edge) => {
                    if kind_passes(filter, edge.kind) {
                        let other = if outgoing { edge.target } else { edge.source };
                        let ghost r0 = result@;
                        result.push((other, edge));
                        proof {
                            lemma_listing_push(old(result)@, r0, self.edges@, taken, eid, outgoing, (other, edge));
                            taken = taken.push(eid);
                        }
                    }
                },
                None => {},
            }
            j = j + 1;
        }
        assert(list@.take(list.len() as int) =~= list@);
        Ghost(taken)
    }

    /// The neighbours of `node_id`: for `Out` and `Both` the target of each edge its
    /// outgoing index lists, then for `In` and `Both` the source of each edge its incoming
    /// index lists, each with the edge, and only stored edges whose kind `edge_filter`
    /// lets through (all kinds when it is `None`). Each part follows the node's index,
    /// which lists edges in the order they were added.
    #[verifier::rlimit(40)]
    pub fn neighbors<'a>(
        &'a self,
        node_id: &u128,
        direction: Direction,
        edge_filter: Option<&[EdgeKind]>,
    ) -> (r: Vec<(u128, &'a Edge)>)
        ensures
            neighbor_listing(
                self.edges_view(),
                self.followed_out(*node_id, direction, filter_view(edge_filter)),
                self.followed_in(*node_id, direction, filter_view(edge_filter)),
                r@,
            ),
    {
        let mut result: Vec<(u128, &'a Edge)> = Vec::new();
        let ghost mut outs: Seq<u128> = Seq::empty();
        let ghost mut ins: Seq<u128> = Seq::empty();
        if direction != Direction::In {
            match self.adjacency.get(node_id) {
                Some(list) => {
                    let Ghost(t) = self.push_listed(list, true, edge_filter, &mut result);
                    proof {
                        outs = t;
                        assert forall|i: int| 0 <= i < outs.len() implies #[trigger] result@[i].0
                            == self.edges@[outs[i]].target && *result@[i].1 == self.edges@[outs[i]] by {
                            assert(0 <= i < result@.len());
                            assert(result@[i].0 == other_end(self.edges@[t[i - 0]], true));
                        }
                    }
                },
                None => {},
            }
        }
        let ghost mid = result@;
        let ghost n_out = result@.len();
        assert(forall|i: int| 0 <= i < outs.len() ==> #[trigger] mid[i].0 == self.edges@[outs[i]].target
            && *mid[i].1 == self.edges@[outs[i]]);
        if direction != Direction::Out {
            match self.reverse_adj.get(node_id) {
                Some(list) => {
                    let Ghost(t) = self.push_listed(list, false, edge_filter, &mut result);
                    proof {
                        ins = t;
                    }
                },
                None => {},
            }
        }
        proof {
            let edges = self.edges@;
            let f = filter_view(edge_filter);
            assert(n_out == outs.len());
            assert forall|i: int| 0 <= i < outs.len() implies #[trigger] result@[i].0
                == edges[outs[i]].target && *result@[i].1 == edges[outs[i]] by {
                assert(result@[i] == mid[i]);
            }
            lemma_filter_all(Seq::<u128>::empty(), kind_followed(edges, f));
            assert(outs == self.followed_out(*node_id, direction, f));
            assert(ins == self.followed_in(*node_id, direction, f));
        }
        result
    }

    /// Marks and lists, as first reached in `depth + 1` hops, every neighbour of `u` not
    /// seen yet.
    fn visit_neighbors(
        &self,
        u: u128,
        depth: usize,
        edge_filter: Option<&[EdgeKind]>,
        visited: &mut HashSet<u128>,
        result: &mut Vec<(u128, usize)>,
        next: &mut Vec<u128>,
        Ghost(s): Ghost<u128>,
        Ghost(lvl_start): Ghost<int>,
        Ghost(cands): Ghost<Seq<u128>>,
        Ghost(seen): Ghost<Set<u128>>,
    )
        requires
            self.wf(),
            depth < usize::MAX,
            old(next)@ == fresh(cands, seen),
            forall|v: u128| #[trigger] seen.contains(v) <==> exists|i: int| 0 <= i < lvl_start && old(result)@[i].0 == v,
            layer_state(
                self.hops(filter_view(edge_filter)),
                s,
                depth as nat,
                lvl_start,
                old(visited)@,
                old(result)@,
                old(next)@,
            ),
            within(self.hops(filter_view(edge_filter)), s, u, depth as nat),
        ensures
            layer_state(
                self.hops(filter_view(edge_filter)),
                s,
                depth as nat,
                lvl_start,
                final(visited)@,
                final(result)@,
                final(next)@,
            ),
            forall|i: int| 0 <= i < lvl_start ==> #[trigger] final(result)@[i] == old(result)@[i],
            forall|v: u128| #[trigger] old(visited)@.contains(v) ==> final(visited)@.contains(v),
            forall|v: u128|
                #[trigger] step(self.hops(filter_view(edge_filter)), u, v)
                    ==> final(visited)@.contains(v),
            final(next)@ == fresh(cands + self.neighbor_seq(u, filter_view(edge_filter)), seen),
    {
        let ghost edges = self.edges@;
        let ghost f = filter_view(edge_filter);
        let ghost a = self.hops(f);
        let nbrs = self.neighbors(&u, Direction::Both, edge_filter);
        let ghost outs = self.followed_out(u, Direction::Both, f);
        let ghost ins = self.followed_in(u, Direction::Both, f);
        let ghost ns = self.neighbor_seq(u, f);
        proof {
            assert(ns.len() == nbrs@.len());
            assert forall|k: int| 0 <= k < nbrs@.len() implies #[trigger] nbrs@[k].0 == ns[k] by {
                if k >= outs.len() {
                    assert(nbrs@[outs.len() + (k - outs.len())] == nbrs@[k]);
                }
            }
            assert(cands + ns.take(0) =~= cands);
        }
        let mut j: usize = 0;
        while j < nbrs.len()
            invariant
                self.wf(),
                edges == self.edges@,
                f == filter_view(edge_filter),
                a == self.hops(f),
                depth < usize::MAX,
                j <= nbrs@.len(),
                neighbor_listing(edges, outs, ins, nbrs@),
                within(a, s, u, depth as nat),
                layer_state(a, s, depth as nat, lvl_start, visited@, result@, next@),
                forall|i: int| 0 <= i < lvl_start ==> #[trigger] result@[i] == old(result)@[i],
                forall|v: u128| #[trigger] old(visited)@.contains(v) ==> visited@.contains(v),
                forall|k: int| 0 <= k < j ==> visited@.contains(#[trigger] nbrs@[k].0),
                ns == self.neighbor_seq(u, f),
                ns.len() == nbrs@.len(),
                forall|k: int| 0 <= k < nbrs@.len() ==> #[trigger] nbrs@[k].0 == ns[k],
                next@ == fresh(cands + ns.take(j as int), seen),
                forall|v: u128| #[trigger] seen.contains(v) <==> exists|i: int| 0 <= i < lvl_start && result@[i].0 == v,
            decreases nbrs@.len() - j,
        {
            let v = nbrs[j].0;
            proof {
                lemma_visited_split(a, s, depth as nat, lvl_start, visited@, result@, next@, seen);
                assert(nbrs@[j as int].0 == ns[j as int]);
                assert(ns.take(j + 1) =~= ns.take(j as int).push(v));
                assert(cands + ns.take(j + 1) =~= (cands + ns.take(j as int)).push(v));
                lemma_fresh_push(cands + ns.take(j as int), seen, v);
            }
            proof {
                assert(ns[j as int] == v);
                assert(a(u) == ns);
                assert(step(a, u, v));
            }
            let ghost v0 = visited@;
            let ghost r0 = result@;
            let ghost n0 = next@;
            if visited.insert(v) {
                proof {
                    lemma_within_step(a, s, u, v, depth as nat);
                    assert(!within(a, s, v, depth as nat));
                    lemma_layer_push(a, s, depth as nat, lvl_start, v0, r0, n0, v);
                }
                next.push(v);
                result.push((v, depth + 1));
                proof {
                    assert forall|i: int| 0 <= i < lvl_start implies #[trigger] result@[i] == old(
                        result,
                    )@[i] by {
                        assert(result@[i] == r0[i]);
                    }
                    assert forall|x: u128| #[trigger] seen.contains(x) <==> exists|i: int| 0 <= i < lvl_start && result@[i].0 == x by {
                        if seen.contains(x) {
                            let i = choose|i: int| 0 <= i < lvl_start && r0[i].0 == x;
                            assert(result@[i] == r0[i]);
                        }
                        if exists|i: int| 0 <= i < lvl_start && result@[i].0 == x {
                            let i = choose|i: int| 0 <= i < lvl_start && result@[i].0 == x;
                            assert(result@[i] == r0[i]);
                        }
                    }
                }
            }
            j = j + 1;
        }
        assert(ns.take(nbrs@.len() as int) =~= ns);
        proof {
            assert forall|v: u128| #[trigger] step(a, u, v) implies visited@.contains(v) by {
                assert(a(u) == ns);
                let k = choose|k: int| 0 <= k < ns.len() && ns[k] == v;
                assert(nbrs@[k].0 == v);
            }
        }
    }

    /// Breadth-first walk from `start` along edges of the kinds `edge_filter` lets
    /// through (all kinds when it is `None`), in either direction, to at most
    /// `max_hops` hops. Each node reached is listed once with its fewest hops, nearest
    /// first, starting with `(start, 0)`; `start` is listed even when no node is
    /// stored under it. Within a number of hops, nodes come in the order they are
    /// first met going through the nodes one hop nearer, in order, and each one's
    /// neighbours as `neighbors` lists them.
    pub fn walk(&self, start: &u128, max_hops: usize, edge_filter: Option<&[EdgeKind]>) -> (r: Vec<(u128, usize)>)
        requires
            self.wf(),
        ensures
            is_bfs_walk(self.hops(filter_view(edge_filter)), *start, max_hops as nat, r@),
            r@ == labelled(self.walk_layers(*start, filter_view(edge_filter), max_hops as nat)),
    {
        let ghost edges = self.edges@;
        let ghost f = filter_view(edge_filter);
        let ghost a = self.hops(f);
        let s = *start;
        let mut visited: HashSet<u128> = HashSet::new();
        visited.insert(s);
        let mut result: Vec<(u128, usize)> = Vec::new();
        result.push((s, 0));
        let mut frontier: Vec<u128> = Vec::new();
        frontier.push(s);
        let mut depth: usize = 0;
        proof {
            assert(result@[0].0 == s);
            assert(listed(result@, s));
            assert forall|v: u128| #[trigger] within(a, s, v, 0) implies visited@.contains(v) by {
                lemma_within_zero(a, s, v);
            }
            lemma_within_zero(a, s, s);
            assert(hop_distance(a, s, result@[0].0, result@[0].1 as nat));
            assert forall|v: u128| #[trigger] visited@.contains(v) <==> listed(result@, v) by {
                if listed(result@, v) {
                    let i = choose|i: int| 0 <= i < result@.len() && #[trigger] result@[i].0 == v;
                    assert(i == 0);
                }
            }
            assert forall|v: u128| #[trigger] frontier@.contains(v) <==> (visited@.contains(v)
                && hop_distance(a, s, v, 0)) by {
                if frontier@.contains(v) {
                    let i = choose|i: int| 0 <= i < frontier@.len() && frontier@[i] == v;
                    assert(i == 0);
                }
                if visited@.contains(v) {
                    assert(frontier@[0] == v);
                }
            }
            let l0 = self.walk_layers(s, f, 0);
            assert(l0 == seq![seq![s]]);
            lemma_labelled_push(Seq::<Seq<u128>>::empty(), seq![s]);
            assert(Seq::<Seq<u128>>::empty().push(seq![s]) =~= l0);
            assert(labelled(Seq::<Seq<u128>>::empty()) =~= Seq::<(u128, usize)>::empty());
            assert(result@ =~= labelled(l0));
            assert(frontier@ =~= l0.last());
        }
        while depth < max_hops && frontier.len() > 0
            invariant
                self.wf(),
                edges == self.edges@,
                f == filter_view(edge_filter),
                a == self.hops(f),
                depth <= max_hops,
                layer_state(a, s, depth as nat, result@.len() as int, visited@, result@, Seq::<u128>::empty()),
                forall|v: u128| #[trigger] frontier@.contains(v) <==> (visited@.contains(v)
                    && hop_distance(a, s, v, depth as nat)),
                frontier@.len() == 0 ==> forall|w: u128| #[trigger]
                    within(a, s, w, (depth + 1) as nat) ==> within(a, s, w, depth as nat),
                result@ == labelled(self.walk_layers(s, f, depth as nat)),
                frontier@ == self.walk_layers(s, f, depth as nat).last(),
            decreases max_hops - depth,
        {
            let ghost lvl_start = result@.len() as int;
            let ghost v0 = visited@;
            let ghost r0 = result@;
            let ghost seen = listed_set(r0);
            let ghost layers = self.walk_layers(s, f, depth as nat);
            let mut next: Vec<u128> = Vec::new();
            proof {
                assert forall|t: int| 0 <= t < next@.len() implies #[trigger] result@[lvl_start + t]
                    == (next@[t], (depth + 1) as usize) by {}
                assert(frontier@.take(0) =~= Seq::<u128>::empty());
                assert(self.frontier_neighbors(frontier@.take(0), f) == Seq::<u128>::empty());
                assert(next@ =~= fresh(Seq::<u128>::empty(), seen));
            }
            let mut fi: usize = 0;
            while fi < frontier.len()
                invariant
                    self.wf(),
                    edges == self.edges@,
                    f == filter_view(edge_filter),
                    a == self.hops(f),
                a == self.hops(f),
                    depth < max_hops,
                    fi <= frontier@.len(),
                    lvl_start == r0.len(),
                    layer_state(a, s, depth as nat, lvl_start, visited@, result@, next@),
                    forall|v: u128| #[trigger] frontier@.contains(v) <==> (v0.contains(v)
                        && hop_distance(a, s, v, depth as nat)),
                    forall|i: int| 0 <= i < lvl_start ==> #[trigger] result@[i] == r0[i],
                    forall|v: u128| #[trigger] v0.contains(v) ==> visited@.contains(v),
                    seen == listed_set(r0),
                    next@ == fresh(self.frontier_neighbors(frontier@.take(fi as int), f), seen),
                    forall|k: int, v: u128|
                        0 <= k < fi && #[trigger] step(a, frontier@[k], v) ==> visited@.contains(v),
                decreases frontier@.len() - fi,
            {
                let u = frontier[fi];
                proof {
                    assert(frontier@.contains(u));
                }
                let ghost cands = self.frontier_neighbors(frontier@.take(fi as int), f);
                proof {
                    assert forall|x: u128| #[trigger] seen.contains(x) <==> exists|i: int| 0 <= i < lvl_start && result@[i].0 == x by {
                        if seen.contains(x) {
                            assert(listed(r0, x));
                            let i = choose|i: int| 0 <= i < r0.len() && #[trigger] r0[i].0 == x;
                            assert(result@[i] == r0[i]);
                        }
                        if exists|i: int| 0 <= i < lvl_start && result@[i].0 == x {
                            let i = choose|i: int| 0 <= i < lvl_start && result@[i].0 == x;
                            assert(result@[i] == r0[i]);
                            assert(listed(r0, x));
                        }
                    }
                }
                self.visit_neighbors(
                    u,
                    depth,
                    edge_filter,
                    &mut visited,
                    &mut result,
                    &mut next,
                    Ghost(s),
                    Ghost(lvl_start),
                    Ghost(cands),
                    Ghost(seen),
                );
                proof {
                    let t1 = frontier@.take(fi + 1);
                    assert(t1.drop_last() =~= frontier@.take(fi as int));
                    assert(t1.last() == u);
                }
                fi = fi + 1;
            }
            let ghost d1 = (depth + 1) as nat;
            proof {
                // every node within depth + 1 hops is now listed
                assert forall|w: u128| #[trigger] within(a, s, w, d1) implies visited@.contains(w) by {
                    if !within(a, s, w, depth as nat) {
                        let u = lemma_within_pred(a, s, w, depth as nat);
                        assert(v0.contains(u));
                        if depth > 0 && within(a, s, u, (depth - 1) as nat) {
                            lemma_within_step(a, s, u, w, (depth - 1) as nat);
                        }
                        assert(hop_distance(a, s, u, depth as nat));
                        assert(frontier@.contains(u));
                        let k = choose|k: int| 0 <= k < frontier@.len() && frontier@[k] == u;
                        assert(step(a, frontier@[k], w));
                    }
                }
                // the new layer is exactly the nodes first reached in depth + 1 hops
                assert forall|v: u128| #[trigger] next@.contains(v) <==> (visited@.contains(v)
                    && hop_distance(a, s, v, d1)) by {
                    if next@.contains(v) {
                        let t = choose|t: int| 0 <= t < next@.len() && next@[t] == v;
                        assert(result@[lvl_start + t] == (next@[t], (depth + 1) as usize));
                        assert(result@[lvl_start + t].0 == v);
                        assert(listed(result@, v));
                        assert(hop_distance(a, s, result@[lvl_start + t].0, result@[lvl_start + t].1 as nat));
                    }
                    if visited@.contains(v) && hop_distance(a, s, v, d1) {
                        let i = choose|i: int| 0 <= i < result@.len() && #[trigger] result@[i].0 == v;
                        if i < lvl_start {
                            lemma_hop_distance_unique(a, s, v, result@[i].1 as nat, d1);
                        } else {
                            assert(result@[lvl_start + (i - lvl_start)] == (next@[i - lvl_start], (depth + 1) as usize));
                            assert(next@[i - lvl_start] == v);
                        }
                    }
                }
                if next@.len() == 0 {
                    assert forall|w: u128| #[trigger] within(a, s, w, d1 + 1) implies within(a, s, w, d1) by {
                        if !within(a, s, w, d1) {
                            let u = lemma_within_pred(a, s, w, d1);
                            if within(a, s, u, depth as nat) {
                                lemma_within_step(a, s, u, w, depth as nat);
                            }
                            assert(hop_distance(a, s, u, d1));
                            assert(visited@.contains(u));
                            assert(next@.contains(u));
                        }
                    }
                }
                assert forall|i: int| 0 <= i < result@.len() implies #[trigger] result@[i].1 <= d1 by {
                    if i >= lvl_start {
                        assert(result@[lvl_start + (i - lvl_start)] == (next@[i - lvl_start], (depth + 1) as usize));
                    }
                }
                assert forall|i: int, j: int| 0 <= i <= j < result@.len() implies #[trigger] result@[i].1
                    <= #[trigger] result@[j].1 by {
                    if j >= lvl_start {
                        assert(result@[lvl_start + (j - lvl_start)] == (next@[j - lvl_start], (depth + 1) as usize));
                        if i >= lvl_start {
                            assert(result@[lvl_start + (i - lvl_start)] == (next@[i - lvl_start], (depth + 1) as usize));
                        }
                    }
                }
                assert forall|t: int| 0 <= t < Seq::<u128>::empty().len() implies #[trigger] result@[result@.len() + t]
                    == (Seq::<u128>::empty()[t], (d1 + 1) as usize) by {}
                assert(layer_state(a, s, d1, result@.len() as int, visited@, result@, Seq::<u128>::empty()));
                // the new layer is the next one of the walk's layers
                assert(frontier@.take(frontier@.len() as int) =~= frontier@);
                self.lemma_walk_layers_len(s, f, depth as nat);
                let nl = self.walk_layers(s, f, d1);
                assert(nl == layers.push(next@));
                lemma_labelled_push(layers, next@);
                assert(result@ =~= r0 + next@.map_values(|v: u128| (v, layers.len() as usize))) by {
                    assert forall|i: int| 0 <= i < result@.len() implies #[trigger] result@[i]
                        == (r0 + next@.map_values(|v: u128| (v, layers.len() as usize)))[i] by {
                        if i >= lvl_start {
                            assert(result@[lvl_start + (i - lvl_start)] == (next@[i - lvl_start], (depth + 1) as usize));
                        }
                    }
                }
                assert(result@ == labelled(nl));
                assert(next@ == nl.last());
            }
            frontier = next;
            depth = depth + 1;
        }
        proof {
            let r = result@;
            assert forall|v: u128, k: nat| k <= max_hops && #[trigger] within(a, s, v, k) implies exists|i: int|
                0 <= i < r.len() && #[trigger] r[i].0 == v by {
                if depth == max_hops {
                    lemma_within_mono_le(a, s, v, k, depth as nat);
                } else {
                    lemma_within_stable(a, s, depth as nat, v, k);
                }
                assert(visited@.contains(v));
                assert(listed(r, v));
            }
            assert forall|i: int| 0 <= i < r.len() implies #[trigger] r[i].1 <= max_hops && hop_distance(
                a,
                s,
                r[i].0,
                r[i].1 as nat,
            ) by {}
            assert(is_bfs_walk(a, s, max_hops as nat, r));
            if depth < max_hops {
                self.lemma_walk_layers_stable(s, f, depth as nat, max_hops as nat);
            }
        }
        result
    }

    /// Breadth-first walk that follows reference, superset and subset edges and never
    /// an orthogonal one.
    pub fn walk_exclude_orthogonal(&self, start: &u128, max_hops: usize) -> (r: Vec<(u128, usize)>)
        requires
            self.wf(),
        ensures
            is_bfs_walk(
                self.hops(Some(seq![EdgeKind::Reference, EdgeKind::Superset, EdgeKind::Subset])),
                *start,
                max_hops as nat,
                r@,
            ),
            r@ == labelled(
                self.walk_layers(
                    *start,
                    Some(seq![EdgeKind::Reference, EdgeKind::Superset, EdgeKind::Subset]),
                    max_hops as nat,
                ),
            ),
    {
        let kinds = [EdgeKind::Reference, EdgeKind::Superset, EdgeKind::Subset];
        let r = self.walk(start, max_hops, Some(kinds.as_slice()));
        assert(kinds@ =~= seq![EdgeKind::Reference, EdgeKind::Superset, EdgeKind::Subset]);
        r
    }

    /// The identifiers of all nodes, each once, in no particular order.
    pub fn node_ids(&self) -> (r: Vec<u128>)
        ensures
            r@.no_duplicates(),
            forall|k: u128| #[trigger] r@.contains(k) <==> self.nodes_view().contains_key(k),
    {
        let r = keys_of(&self.nodes);
        proof {
            assert forall|k: u128| #[trigger] r@.contains(k) <==> self.nodes_view().contains_key(k) by {
                assert(r@.to_set().contains(k) == r@.contains(k));
            }
        }
        r
    }

    /// The identifiers of all edges, each once, in no particular order.
    pub fn edge_ids(&self) -> (r: Vec<u128>)
        ensures
            r@.no_duplicates(),
            forall|k: u128| #[trigger] r@.contains(k) <==> self.edges_view().contains_key(k),
    {
        let r = keys_of(&self.edges);
        proof {
            assert forall|k: u128| #[trigger] r@.contains(k) <==> self.edges_view().contains_key(k) by {
                assert(r@.to_set().contains(k) == r@.contains(k));
            }
        }
        r
    }

    /// The nodes whose status is `status`, each once, in no particular order.
    pub fn nodes_by_status(&self, status: NodeStatus) -> (r: Vec<&Node>)
        ensures
            exists|ks: Seq<u128>|
                {
                    &&& ks.no_duplicates()
                    &&& forall|k: u128| #[trigger] ks.contains(k) <==> (self.nodes_view().contains_key(k)
                        && self.nodes_view()[k].status == status)
                    &&& r@.len() == ks.len()
                    &&& forall|i: int| 0 <= i < ks.len() ==> *#[trigger] r@[i] == self.nodes_view()[ks[i]]
                },
    {
        let ks = self.node_ids();
        let mut r: Vec<&Node> = Vec::new();
        let ghost mut picked: Seq<u128> = Seq::empty();
        let mut i: usize = 0;
        while i < ks.len()
            invariant
                i <= ks@.len(),
                ks@.no_duplicates(),
                forall|k: u128| #[trigger] ks@.contains(k) <==> self.nodes_view().contains_key(k),
                picked.no_duplicates(),
                forall|k: u128| #[trigger] picked.contains(k) <==> (ks@.take(i as int).contains(k)
                    && self.nodes_view()[k].status == status),
                r@.len() == picked.len(),
                forall|j: int| 0 <= j < picked.len() ==> *#[trigger] r@[j] == self.nodes_view()[picked[j]],
            decreases ks@.len() - i,
        {
            let k = ks[i];
            proof {
                lemma_take_to_set_push(ks@, i as int);
                assert(ks@.contains(k));
                assert(ks@.take(i + 1).to_set().contains(k));
            }
            let ghost before = picked;
            match self.nodes.get(&k) {
                Some(n) => {
                    if n.status == status {
                        let ghost r0 = r@;
                        r.push(n);
                        proof {
                            assert(!ks@.take(i as int).to_set().contains(k));
                            assert(!before.contains(k));
                            lemma_push_no_duplicates(before, k);
                            picked = before.push(k);
                            assert forall|j: int| 0 <= j < picked.len() implies *#[trigger] r@[j]
                                == self.nodes_view()[picked[j]] by {
                                if j < before.len() {
                                    assert(r@[j] == r0[j]);
                                }
                            }
                        }
                    }
                },
                None => {},
            }
            proof {
                assert forall|x: u128| #[trigger] picked.contains(x) <==> (ks@.take(i + 1).contains(x)
                    && self.nodes_view()[x].status == status) by {
                    assert(ks@.take(i + 1).to_set().contains(x) == ks@.take(i + 1).contains(x));
                    assert(ks@.take(i as int).to_set().contains(x) == ks@.take(i as int).contains(x));
                    if picked.contains(x) && picked != before {
                        let j = choose|j: int| 0 <= j < picked.len() && picked[j] == x;
                        if j < before.len() {
                            assert(before[j] == x);
                        }
                    }
                    if before.contains(x) && picked != before {
                        let j = choose|j: int| 0 <= j < before.len() && before[j] == x;
                        assert(picked[j] == x);
                    }
                    if x == k && picked != before {
                        assert(picked[before.len() as int] == x);
                    }
                }
            }
            i = i + 1;
        }
        assert(ks@.take(ks@.len() as int) =~= ks@);
        r
    }

    /// The nodes stored under the identifiers of `node_ids`, in that order (an
    /// identifier with no node is skipped, one given twice gives its node twice),
    /// and every edge whose source and target are both among `node_ids`, each once.
    pub fn subgraph(&self, node_ids: &[u128]) -> (r: (Vec<&Node>, Vec<&Edge>))
        ensures
            ({
                let sel = node_ids@.filter(|k: u128| self.nodes_view().contains_key(k));
                &&& r.0@.len() == sel.len()
                &&& forall|i: int| 0 <= i < sel.len() ==> *#[trigger] r.0@[i] == self.nodes_view()[sel[i]]
            }),
            exists|eks: Seq<u128>|
                {
                    &&& eks.no_duplicates()
                    &&& forall|e: u128| #[trigger] eks.contains(e) <==> (self.edges_view().contains_key(e)
                        && node_ids@.contains(self.edges_view()[e].source)
                        && node_ids@.contains(self.edges_view()[e].target))
                    &&& r.1@.len() == eks.len()
                    &&& forall|i: int| 0 <= i < eks.len() ==> *#[trigger] r.1@[i] == self.edges_view()[eks[i]]
                },
    {
        let ghost present = |k: u128| self.nodes_view().contains_key(k);
        let mut id_set: HashSet<u128> = HashSet::new();
        let mut nodes: Vec<&Node> = Vec::new();
        let mut i: usize = 0;
        assert(node_ids@.take(0) =~= Seq::<u128>::empty());
        while i < node_ids.len()
            invariant
                i <= node_ids@.len(),
                present == (|k: u128| self.nodes_view().contains_key(k)),
                forall|k: u128| #[trigger] id_set@.contains(k) <==> node_ids@.take(i as int).contains(k),
                nodes@.len() == node_ids@.take(i as int).filter(present).len(),
                forall|j: int|
                    0 <= j < nodes@.len() ==> *#[trigger] nodes@[j] == self.nodes_view()[node_ids@.take(
                        i as int,
                    ).filter(present)[j]],
            decreases node_ids@.len() - i,
        {
            let k = node_ids[i];
            let ghost t = node_ids@.take(i as int);
            let ghost n0 = nodes@;
            proof {
                assert(node_ids@.take(i + 1) =~= t.push(k));
                t.lemma_filter_push(k, present);
            }
            id_set.insert(k);
            match self.nodes.get(&k) {
                Some(n) => {
                    nodes.push(n);
                    proof {
                        assert forall|j: int| 0 <= j < nodes@.len() implies *#[trigger] nodes@[j]
                            == self.nodes_view()[node_ids@.take(i + 1).filter(present)[j]] by {
                            if j < n0.len() {
                                assert(nodes@[j] == n0[j]);
                            }
                        }
                    }
                },
                None => {},
            }
            proof {
                assert forall|x: u128| #[trigger] id_set@.contains(x) <==> node_ids@.take(i + 1).contains(x) by {
                    if t.push(k).contains(x) && x != k {
                        let j = choose|j: int| 0 <= j < t.push(k).len() && t.push(k)[j] == x;
                        assert(t[j] == x);
                    }
                    if t.contains(x) {
                        let j = choose|j: int| 0 <= j < t.len() && t[j] == x;
                        assert(t.push(k)[j] == x);
                    }
                    if x == k {
                        assert(t.push(k)[t.len() as int] == x);
                    }
                }
            }
            i = i + 1;
        }
        assert(node_ids@.take(node_ids@.len() as int) =~= node_ids@);
        let eks = self.edge_ids();
        let mut edges: Vec<&Edge> = Vec::new();
        let ghost mut picked: Seq<u128> = Seq::empty();
        let mut j: usize = 0;
        while j < eks.len()
            invariant
                j <= eks@.len(),
                eks@.no_duplicates(),
                forall|k: u128| #[trigger] eks@.contains(k) <==> self.edges_view().contains_key(k),
                forall|k: u128| #[trigger] id_set@.contains(k) <==> node_ids@.contains(k),
                picked.no_duplicates(),
                forall|e: u128| #[trigger] picked.contains(e) <==> (eks@.take(j as int).contains(e)
                    && node_ids@.contains(self.edges_view()[e].source)
                    && node_ids@.contains(self.edges_view()[e].target)),
                edges@.len() == picked.len(),
                forall|m: int| 0 <= m < picked.len() ==> *#[trigger] edges@[m] == self.edges_view()[picked[m]],
            decreases eks@.len() - j,
        {
            let e = eks[j];
            proof {
                lemma_take_to_set_push(eks@, j as int);
                assert(eks@.contains(e));
            }
            let ghost before = picked;
            match self.edges.get(&e) {
                Some(edge) => {
                    if id_set.contains(&edge.source) && id_set.contains(&edge.target) {
                        let ghost r0 = edges@;
                        edges.push(edge);
                        proof {
                            assert(!eks@.take(j as int).to_set().contains(e));
                            assert(!before.contains(e));
                            lemma_push_no_duplicates(before, e);
                            picked = before.push(e);
                            assert forall|m: int| 0 <= m < picked.len() implies *#[trigger] edges@[m]
                                == self.edges_view()[picked[m]] by {
                                if m < before.len() {
                                    assert(edges@[m] == r0[m]);
                                }
                            }
                        }
                    }
                },
                None => {},
            }
            proof {
                assert forall|x: u128| #[trigger] picked.contains(x) <==> (eks@.take(j + 1).contains(x)
                    && node_ids@.contains(self.edges_view()[x].source)
                    && node_ids@.contains(self.edges_view()[x].target)) by {
                    assert(eks@.take(j + 1).to_set().contains(x) == eks@.take(j + 1).contains(x));
                    assert(eks@.take(j as int).to_set().contains(x) == eks@.take(j as int).contains(x));
                    if picked.contains(x) && picked != before {
                        let m = choose|m: int| 0 <= m < picked.len() && picked[m] == x;
                        if m < before.len() {
                            assert(before[m] == x);
                        }
                    }
                    if before.contains(x) && picked != before {
                        let m = choose|m: int| 0 <= m < before.len() && before[m] == x;
                        assert(picked[m] == x);
                    }
                    if x == e && picked != before {
                        assert(picked[before.len() as int] == x);
                    }
                }
            }
            j = j + 1;
        }
        assert(eks@.take(eks@.len() as int) =~= eks@);
        (nodes, edges)
    }

    /// Counts of nodes, edges and experiments, nodes per status and edges per kind.
    pub fn summary(&self) -> (r: GraphSummary)
        requires
            total_experiments(self.nodes_view()) <= usize::MAX,
        ensures
            r.n_nodes == self.nodes_view().len(),
            r.n_edges == self.edges_view().len(),
            r.n_experiments == total_experiments(self.nodes_view()),
            entries_view(r.status_counts@) == status_entries(self.nodes_view()),
            entries_view(r.edge_kinds@) == kind_entries(self.edges_view()),
    {
        let ghost nv = self.nodes@;
        let ghost ev = self.edges@;
        let ks = keys_of(&self.nodes);
        let mut draft: usize = 0;
        let mut accept: usize = 0;
        let mut decline: usize = 0;
        let mut total: usize = 0;
        let mut i: usize = 0;
        proof {
            lemma_full_take_to_set(ks@);
            lemma_experiment_prefix_le(nv, ks@, 0);
            vstd::set::fold::lemma_fold_empty(0nat, experiment_adder(nv));
            assert(ks@.take(0).to_set().filter(has_status(nv, NodeStatus::Draft)) =~= Set::<u128>::empty());
            assert(ks@.take(0).to_set().filter(has_status(nv, NodeStatus::Accept)) =~= Set::<u128>::empty());
            assert(ks@.take(0).to_set().filter(has_status(nv, NodeStatus::Decline)) =~= Set::<u128>::empty());
        }
        while i < ks.len()
            invariant
                nv == self.nodes@,
                i <= ks@.len(),
                ks@.no_duplicates(),
                ks@.to_set() == nv.dom(),
                draft + accept + decline == i,
                draft == ks@.take(i as int).to_set().filter(has_status(nv, NodeStatus::Draft)).len(),
                accept == ks@.take(i as int).to_set().filter(has_status(nv, NodeStatus::Accept)).len(),
                decline == ks@.take(i as int).to_set().filter(has_status(nv, NodeStatus::Decline)).len(),
                total == ks@.take(i as int).to_set().fold(0nat, experiment_adder(nv)),
                total_experiments(nv) <= usize::MAX,
            decreases ks@.len() - i,
        {
            let k = ks[i];
            let ghost s0 = ks@.take(i as int).to_set();
            proof {
                lemma_take_to_set_push(ks@, i as int);
                lemma_filter_insert_len(s0, k, has_status(nv, NodeStatus::Draft));
                lemma_filter_insert_len(s0, k, has_status(nv, NodeStatus::Accept));
                lemma_filter_insert_len(s0, k, has_status(nv, NodeStatus::Decline));
                let f = experiment_adder(nv);
                assert(vstd::set::fold::is_fun_commutative(f));
                vstd::set::fold::lemma_fold_insert(s0, 0nat, f, k);
                lemma_experiment_prefix_le(nv, ks@, i + 1);
                lemma_full_take_to_set(ks@);
                assert(ks@.to_set().contains(k));
            }
            match self.nodes.get(&k) {
                Some(n) => {
                    match n.status {
                        NodeStatus::Draft => { draft = draft + 1; },
                        NodeStatus::Accept => { accept = accept + 1; },
                        NodeStatus::Decline => { decline = decline + 1; },
                    }
                    total = total + n.experiments.len();
                },
                None => {},
            }
            i = i + 1;
        }
        proof {
            lemma_full_take_to_set(ks@);
        }
        let eks = keys_of(&self.edges);
        let mut reference: usize = 0;
        let mut superset: usize = 0;
        let mut subset: usize = 0;
        let mut orthogonal: usize = 0;
        let mut j: usize = 0;
        proof {
            lemma_full_take_to_set(eks@);
            assert(eks@.take(0).to_set().filter(has_kind(ev, EdgeKind::Reference)) =~= Set::<u128>::empty());
            assert(eks@.take(0).to_set().filter(has_kind(ev, EdgeKind::Superset)) =~= Set::<u128>::empty());
            assert(eks@.take(0).to_set().filter(has_kind(ev, EdgeKind::Subset)) =~= Set::<u128>::empty());
            assert(eks@.take(0).to_set().filter(has_kind(ev, EdgeKind::Orthogonal)) =~= Set::<u128>::empty());
        }
        while j < eks.len()
            invariant
                ev == self.edges@,
                j <= eks@.len(),
                eks@.no_duplicates(),
                eks@.to_set() == ev.dom(),
                reference + superset + subset + orthogonal == j,
                reference == eks@.take(j as int).to_set().filter(has_kind(ev, EdgeKind::Reference)).len(),
                superset == eks@.take(j as int).to_set().filter(has_kind(ev, EdgeKind::Superset)).len(),
                subset == eks@.take(j as int).to_set().filter(has_kind(ev, EdgeKind::Subset)).len(),
                orthogonal == eks@.take(j as int).to_set().filter(has_kind(ev, EdgeKind::Orthogonal)).len(),
            decreases eks@.len() - j,
        {
            let e = eks[j];
            let ghost s0 = eks@.take(j as int).to_set();
            proof {
                lemma_take_to_set_push(eks@, j as int);
                lemma_filter_insert_len(s0, e, has_kind(ev, EdgeKind::Reference));
                lemma_filter_insert_len(s0, e, has_kind(ev, EdgeKind::Superset));
                lemma_filter_insert_len(s0, e, has_kind(ev, EdgeKind::Subset));
                lemma_filter_insert_len(s0, e, has_kind(ev, EdgeKind::Orthogonal));
                lemma_full_take_to_set(eks@);
                assert(eks@.to_set().contains(e));
            }
            match self.edges.get(&e) {
                Some(edge) => {
                    match edge.kind {
                        EdgeKind::Reference => { reference = reference + 1; },
                        EdgeKind::Superset => { superset = superset + 1; },
                        EdgeKind::Subset => { subset = subset + 1; },
                        EdgeKind::Orthogonal => { orthogonal = orthogonal + 1; },
                    }
                },
                None => {},
            }
            j = j + 1;
        }
        proof {
            lemma_full_take_to_set(eks@);
        }
        let mut status_counts: Vec<(String, usize)> = Vec::new();
        push_count(&mut status_counts, NodeStatus::Draft.name(), draft);
        push_count(&mut status_counts, NodeStatus::Accept.name(), accept);
        push_count(&mut status_counts, NodeStatus::Decline.name(), decline);
        let mut edge_kinds: Vec<(String, usize)> = Vec::new();
        push_count(&mut edge_kinds, EdgeKind::Reference.name(), reference);
        push_count(&mut edge_kinds, EdgeKind::Superset.name(), superset);
        push_count(&mut edge_kinds, EdgeKind::Subset.name(), subset);
        push_count(&mut edge_kinds, EdgeKind::Orthogonal.name(), orthogonal);
        proof {
            assert(entries_view(status_counts@) =~= status_entries(nv));
            assert(entries_view(edge_kinds@) =~= kind_entries(ev));
        }
        GraphSummary {
            n_nodes: self.nodes.len(),
            n_edges: self.edges.len(),
            n_experiments: total,
            status_counts,
            edge_kinds,
        }
    }

    /// Draws an edge from `source` to `target` together with the edge back from
    /// `target` to `source`, whose kind is the reverse kind (subset and superset swap),
    /// both for the same reason, and returns their identifiers. A reason that is empty
    /// or only white space is refused and nothing is added.
    pub fn add_edge_with_reverse(
        &mut self,
        source: u128,
        target: u128,
        kind: EdgeKind,
        reason: String,
    ) -> (r: Result<(u128, u128), EdgeError>)
        requires
            old(self).wf(),
        ensures
            final(self).wf(),
            final(self).nodes_view() == old(self).nodes_view(),
            (r is Err) <==> (forall|i: int| 0 <= i < reason@.len() ==> is_white_space(#[trigger] reason@[i])),
            r is Err ==> r == Err::<(u128, u128), EdgeError>(EdgeError::ReasonRequired) && final(self).edges_view() == old(self).edges_view(),
            r matches Ok((forward, backward)) ==> {
                let edges = final(self).edges_view();
                &&& edges.contains_key(forward)
                &&& edges.contains_key(backward)
                &&& edges == old(self).edges_view().insert(forward, edges[forward]).insert(backward, edges[backward])
                &&& edge_is(edges[backward], target, source, reverse_kind(kind), reason@)
                &&& forward != backward ==> edge_is(edges[forward], source, target, kind, reason@)
                &&& forall|n: u128| #[trigger] final(self).out_list(n) == old(self).out_list(n) + one_if(
                    n == source,
                    forward,
                ) + one_if(n == target, backward)
                &&& forall|n: u128| #[trigger] final(self).in_list(n) == old(self).in_list(n) + one_if(
                    n == target,
                    forward,
                ) + one_if(n == source, backward)
            },
    {
        if is_blank(reason.as_str()) {
            return Err(EdgeError::ReasonRequired);
        }
        let e1 = Edge::new(source, target, kind, reason.clone());
        let ghost g1 = e1;
        let forward = self.add_edge(e1);
        let ghost mid = *self;
        let e2 = Edge::new(target, source, kind.reverse(), reason);
        let ghost g2 = e2;
        let backward = self.add_edge(e2);
        assert(edge_is(g1, source, target, kind, reason@));
        assert(edge_is(g2, target, source, reverse_kind(kind), reason@));
        assert(self.edges@ =~= old(self).edges@.insert(forward, self.edges@[forward]).insert(backward, self.edges@[backward]));
        assert(forall|n: u128| #[trigger] self.out_list(n) == mid.out_list(n) + one_if(n == target, backward));
        assert(forall|n: u128| #[trigger] mid.out_list(n) == old(self).out_list(n) + one_if(n == source, forward));
        Ok((forward, backward))
    }

    /// The edges that leave or enter `id`, each once, in no particular order.
    pub fn incident_edges(&self, id: &u128) -> (r: Vec<&Edge>)
        ensures
            exists|eks: Seq<u128>|
                {
                    &&& eks.no_duplicates()
                    &&& forall|e: u128| #[trigger] eks.contains(e) <==> (self.edges_view().contains_key(e)
                        && incident(self.edges_view()[e], *id))
                    &&& r@.len() == eks.len()
                    &&& forall|i: int| 0 <= i < eks.len() ==> *#[trigger] r@[i] == self.edges_view()[eks[i]]
                },
    {
        let eks = self.edge_ids();
        let mut edges: Vec<&Edge> = Vec::new();
        let ghost mut picked: Seq<u128> = Seq::empty();
        let mut j: usize = 0;
        while j < eks.len()
            invariant
                j <= eks@.len(),
                eks@.no_duplicates(),
                forall|k: u128| #[trigger] eks@.contains(k) <==> self.edges_view().contains_key(k),
                picked.no_duplicates(),
                forall|e: u128| #[trigger] picked.contains(e) <==> (eks@.take(j as int).contains(e)
                    && incident(self.edges_view()[e], *id)),
                edges@.len() == picked.len(),
                forall|m: int| 0 <= m < picked.len() ==> *#[trigger] edges@[m] == self.edges_view()[picked[m]],
            decreases eks@.len() - j,
        {
            let e = eks[j];
            proof {
                lemma_take_to_set_push(eks@, j as int);
                assert(eks@.contains(e));
            }
            let ghost before = picked;
            match self.edges.get(&e) {
                Some(edge) => {
                    if edge.source == *id || edge.target == *id {
                        let ghost r0 = edges@;
                        edges.push(edge);
                        proof {
                            assert(!eks@.take(j as int).to_set().contains(e));
                            assert(!before.contains(e));
                            lemma_push_no_duplicates(before, e);
                            picked = before.push(e);
                            assert forall|m: int| 0 <= m < picked.len() implies *#[trigger] edges@[m]
                                == self.edges_view()[picked[m]] by {
                                if m < before.len() {
                                    assert(edges@[m] == r0[m]);
                                }
                            }
                        }
                    }
                },
                None => {},
            }
            proof {
                assert forall|x: u128| #[trigger] picked.contains(x) <==> (eks@.take(j + 1).contains(x)
                    && incident(self.edges_view()[x], *id)) by {
                    assert(eks@.take(j + 1).to_set().contains(x) == eks@.take(j + 1).contains(x));
                    assert(eks@.take(j as int).to_set().contains(x) == eks@.take(j as int).contains(x));
                    if picked.contains(x) && picked != before {
                        let m = choose|m: int| 0 <= m < picked.len() && picked[m] == x;
                        if m < before.len() {
                            assert(before[m] == x);
                        }
                    }
                    if before.contains(x) && picked != before {
                        let m = choose|m: int| 0 <= m < before.len() && before[m] == x;
                        assert(picked[m] == x);
                    }
                    if x == e && picked != before {
                        assert(picked[before.len() as int] == x);
                    }
                }
            }
            j = j + 1;
        }
        assert(eks@.take(eks@.len() as int) =~= eks@);
        edges
    }

    /// The number of edges.
    pub fn edge_count(&self) -> (r: usize)
        ensures
            r == self.edges_view().len(),
    {
        self.edges.len()
    }
}

/// An index list of `n` keeps every entry when `id` names no edge kept by `n`.
proof fn lemma_index_without(l: Seq<u128>, edges: Map<u128, Edge>, n: u128, outgoing: bool, id: u128)
    requires
        index_list_ok(l, edges, n, outgoing),
        edges.contains_key(id) ==> indexed_end(edges[id], outgoing) != n,
    ensures
        l.filter(other_than(id)) == l,
{
    assert forall|i: int| 0 <= i < l.len() implies other_than(id)(#[trigger] l[i]) by {
        assert(edges.contains_key(l[i]));
    }
    lemma_filter_all(l, other_than(id));
}

/// Whether an edge of kind `k` is followed under `filter`.
fn kind_passes(filter: Option<&[EdgeKind]>, k: EdgeKind) -> (r: bool)
    ensures
        r == passes(filter_view(filter), k),
{
    match filter {
        None => true,
        Some(kinds) => {
            let mut i: usize = 0;
            while i < kinds.len()
                invariant
                    filter == Some(kinds),
                    i <= kinds@.len(),
                    forall|j: int| 0 <= j < i ==> kinds@[j] != k,
                decreases kinds@.len() - i,
            {
                let x = kinds[i];
                if x == k {
                    assert(kinds@[i as int] == k);
                    assert(kinds@.contains(k));
                    assert(filter_view(filter) == Some(kinds@));
                    return true;
                }
                i = i + 1;
            }
            false
        },
    }
}

/// The running experiment total over the first keys never exceeds the total over all.
proof fn lemma_experiment_prefix_le(nodes: Map<u128, Node>, ks: Seq<u128>, i: int)
    requires
        ks.no_duplicates(),
        0 <= i <= ks.len(),
    ensures
        ks.take(i).to_set().fold(0nat, experiment_adder(nodes)) <= ks.take(ks.len() as int).to_set().fold(
            0nat,
            experiment_adder(nodes),
        ),
    decreases ks.len() - i,
{
    if i < ks.len() {
        lemma_take_to_set_push(ks, i);
        lemma_experiment_prefix_le(nodes, ks, i + 1);
        let f = experiment_adder(nodes);
        assert(vstd::set::fold::is_fun_commutative(f));
        vstd::set::fold::lemma_fold_insert(ks.take(i).to_set(), 0nat, f, ks[i]);
    }
}

impl Default for AmureGraph {
    /// An empty graph.
    fn default() -> (g: AmureGraph)
        ensures
            g.wf(),
            g.nodes_view() == Map::<u128, Node>::empty(),
            g.edges_view() == Map::<u128, Edge>::empty(),
    {
        AmureGraph::new()
    }
}

/// Appends a named count when it is not zero.
fn push_count(v: &mut Vec<(String, usize)>, name: String, c: usize)
    ensures
        entries_view(final(v)@) == entries_view(old(v)@) + count_entry(name@, c as nat),
{
    if c > 0 {
        v.push((name, c));
        assert(entries_view(v@) =~= entries_view(old(v)@) + count_entry(name@, c as nat));
    } else {
        assert(entries_view(v@) =~= entries_view(old(v)@) + count_entry(name@, c as nat));
    }
}

/// The keys of a map, each once.
fn keys_of<V>(m: &HashMap<u128, V>) -> (ks: Vec<u128>)
    ensures
        ks@.no_duplicates(),
        ks@.to_set() == m@.dom(),
{
    let mut ks: Vec<u128> = Vec::new();
    for k in it: m.keys()
        invariant
            ks@ == it.seq().take(it.index() as int).map_values(|r: &u128| *r),
    {
        ks.push(*k);
    }
    proof {
        let rem = vstd::std_specs::iter::IteratorSpec::remaining(&vstd::std_specs::hash::spec_keys_iter(m));
        assert(ks@ =~= rem.unref());
    }
    ks
}

/// Appends the identifiers of `src` to `dst`.
fn append_ids(dst: &mut Vec<u128>, src: &Vec<u128>)
    ensures
        final(dst)@ == old(dst)@ + src@,
{
    let mut j: usize = 0;
    while j < src.len()
        invariant
            j <= src.len(),
            dst@ == old(dst)@ + src@.take(j as int),
        decreases src.len() - j,
    {
        dst.push(src[j]);
        assert(src@.take(j + 1) =~= src@.take(j as int).push(src@[j as int]));
        j = j + 1;
    }
    assert(src@.take(src.len() as int) =~= src@);
}

/// Adds `eid` at the end of the index list kept for `key`, starting the list when
/// there is none.
fn enlist(index: &mut HashMap<u128, Vec<u128>>, key: u128, eid: u128)
    ensures
        final(index)@.dom() == old(index)@.dom().insert(key),
        forall|k: u128| k != key ==> #[trigger] final(index)@.get(k) == old(index)@.get(k),
        final(index)@[key]@ == (if old(index)@.contains_key(key) {
            old(index)@[key]@
        } else {
            Seq::empty()
        }).push(eid),
{
    let mut list = match index.remove(&key) {
        Some(l) => l,
        None => Vec::new(),
    };
    list.push(eid);
    index.insert(key, list);
    assert(index@.dom() =~= old(index)@.dom().insert(key));
}

/// Drops `eid` from the index list kept for `key`, keeping the other entries.
fn unlist(index: &mut HashMap<u128, Vec<u128>>, key: u128, eid: u128)
    ensures
        final(index)@.dom() == old(index)@.dom(),
        forall|k: u128| k != key ==> #[trigger] final(index)@.get(k) == old(index)@.get(k),
        old(index)@.contains_key(key) ==> {
            &&& final(index)@[key]@ == old(index)@[key]@.filter(other_than(eid))
            &&& (old(index)@[key]@.no_duplicates() ==> final(index)@[key]@.no_duplicates())
            &&& forall|x: u128|
                #[trigger] final(index)@[key]@.contains(x) <==> (old(index)@[key]@.contains(x)
                    && x != eid)
        },
{
    match index.remove(&key) {
        Some(list) => {
            let mut kept: Vec<u128> = Vec::new();
            let mut j: usize = 0;
            while j < list.len()
                invariant
                    j <= list.len(),
                    kept@ == list@.take(j as int).filter(other_than(eid)),
                    list@.no_duplicates() ==> kept@.no_duplicates(),
                    forall|x: u128|
                        #[trigger] kept@.contains(x) <==> (list@.take(j as int).contains(x)
                            && x != eid),
                decreases list.len() - j,
            {
                let x = list[j];
                proof {
                    assert(list@.take(j + 1) =~= list@.take(j as int).push(x));
                    list@.take(j as int).lemma_filter_push(x, other_than(eid));
                    if list@.no_duplicates() {
                        assert(!list@.take(j as int).contains(x)) by {
                            if list@.take(j as int).contains(x) {
                                let k = choose|k: int| 0 <= k < j && list@.take(j as int)[k] == x;
                                assert(list@[k] == list@[j as int]);
                            }
                        }
                    }
                }
                let ghost before = kept@;
                if x != eid {
                    kept.push(x);
                    proof {
                        assert(kept@ == before.push(x));
                        if list@.no_duplicates() {
                            lemma_push_no_duplicates(before, x);
                        }
                        assert forall|y: u128| #[trigger] kept@.contains(y) <==> (before.contains(y) || y == x) by {
                            if kept@.contains(y) && y != x {
                                let k = choose|k: int| 0 <= k < kept@.len() && kept@[k] == y;
                                assert(before[k] == y);
                            }
                            if before.contains(y) {
                                let k = choose|k: int| 0 <= k < before.len() && before[k] == y;
                                assert(kept@[k] == y);
                            }
                            if y == x {
                                assert(kept@[before.len() as int] == y);
                            }
                        }
                    }
                }
                proof {
                    assert forall|y: u128| #[trigger] list@.take(j + 1).contains(y) <==> (list@.take(j as int).contains(y) || y == x) by {
                        let t = list@.take(j as int);
                        assert(list@.take(j + 1) == t.push(x));
                        if t.push(x).contains(y) && y != x {
                            let k = choose|k: int| 0 <= k < t.push(x).len() && t.push(x)[k] == y;
                            assert(t[k] == y);
                        }
                        if t.contains(y) {
                            let k = choose|k: int| 0 <= k < t.len() && t[k] == y;
                            assert(t.push(x)[k] == y);
                        }
                        if y == x {
                            assert(t.push(x)[t.len() as int] == y);
                        }
                    }
                }
                j = j + 1;
            }
            assert(list@.take(list.len() as int) =~= list@);
            index.insert(key, kept);
        },
        None => {},
    }
}

} // verus!
