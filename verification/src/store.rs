//! Rebuilding a graph from lists of its nodes and edges, as a stored graph is read
//! back.

use vstd::prelude::*;
use crate::edge::Edge;
use crate::graph::{one_if, AmureGraph};
use crate::index::other_than;
use crate::node::Node;

verus! {

broadcast use vstd::std_specs::vec::axiom_spec_into_iter;

/// The nodes of a list under their identifiers; a later node replaces an earlier one
/// with the same identifier.
pub open spec fn keyed_nodes(ns: Seq<Node>) -> Map<u128, Node>
    decreases ns.len(),
{
    if ns.len() == 0 {
        Map::empty()
    } else {
        keyed_nodes(ns.drop_last()).insert(ns.last().id, ns.last())
    }
}

/// The edges of a list under their identifiers; a later edge replaces an earlier one
/// with the same identifier.
pub open spec fn keyed_edges(es: Seq<Edge>) -> Map<u128, Edge>
    decreases es.len(),
{
    if es.len() == 0 {
        Map::empty()
    } else {
        keyed_edges(es.drop_last()).insert(es.last().id, es.last())
    }
}

/// No two edges of `es` share an identifier.
pub open spec fn distinct_ids(es: Seq<Edge>) -> bool {
    forall|i: int, j: int| 0 <= i < j < es.len() ==> #[trigger] es[i].id != #[trigger] es[j].id
}

/// The identifiers that a graph built by adding the edges of `es` in order lists as
/// leaving `n`, in index order.
pub open spec fn out_after(es: Seq<Edge>, n: u128) -> Seq<u128>
    decreases es.len(),
{
    if es.len() == 0 {
        Seq::empty()
    } else {
        out_after(es.drop_last(), n) + one_if(n == es.last().source, es.last().id)
    }
}

/// The identifiers that a graph built by adding the edges of `es` in order lists as
/// entering `n`, in index order.
pub open spec fn in_after(es: Seq<Edge>, n: u128) -> Seq<u128>
    decreases es.len(),
{
    if es.len() == 0 {
        Seq::empty()
    } else {
        in_after(es.drop_last(), n) + one_if(n == es.last().target, es.last().id)
    }
}

impl AmureGraph {
    /// A graph holding the given nodes and edges, each stored under its own identifier,
    /// added in the order given (so a later node or edge replaces an earlier one with the
    /// same identifier). When no two of the edges share an identifier, its indexes list
    /// nothing else (`sound`).
    pub fn from_parts(nodes: Vec<Node>, edges: Vec<Edge>) -> (g: AmureGraph)
        ensures
            g.wf(),
            distinct_ids(edges@) ==> g.sound(),
            g.nodes_view() == keyed_nodes(nodes@),
            g.edges_view() == keyed_edges(edges@),
            forall|n: u128| #[trigger] g.out_list(n) == out_after(edges@, n),
            forall|n: u128| #[trigger] g.in_list(n) == in_after(edges@, n),
    {
        let ghost ns = nodes@;
        let ghost es = edges@;
        let mut g = AmureGraph::new();
        for n in it: nodes.into_iter()
            invariant
                it.seq() == ns,
                g.wf(),
                g.sound(),
                g.edges_view() == Map::<u128, Edge>::empty(),
                g.nodes_view() == keyed_nodes(ns.take(it.index() as int)),
                forall|n: u128| #[trigger] g.out_list(n) == Seq::<u128>::empty(),
                forall|n: u128| #[trigger] g.in_list(n) == Seq::<u128>::empty(),
        {
            let ghost i = it.index() as int;
            assert(ns.take(i + 1).drop_last() =~= ns.take(i));
            g.add_node(n);
        }
        assert(ns.take(ns.len() as int) =~= ns);
        assert(es.take(0) =~= Seq::<Edge>::empty());
        for e in it: edges.into_iter()
            invariant
                it.seq() == es,
                g.wf(),
                distinct_ids(es) ==> g.sound(),
                g.nodes_view() == keyed_nodes(ns),
                g.edges_view() == keyed_edges(es.take(it.index() as int)),
                forall|n: u128| #[trigger] g.out_list(n) == out_after(es.take(it.index() as int), n),
                forall|n: u128| #[trigger] g.in_list(n) == in_after(es.take(it.index() as int), n),
        {
            let ghost i = it.index() as int;
            assert(es.take(i + 1).drop_last() =~= es.take(i));
            proof {
                if distinct_ids(es) {
                    let p = es.take(i);
                    assert forall|a: int, b: int| 0 <= a < b < p.len() implies #[trigger] p[a].id != #[trigger] p[b].id by {
                        assert(p[a] == es[a] && p[b] == es[b]);
                    }
                    lemma_keyed_edges_distinct(p);
                    if keyed_edges(p).contains_key(es[i].id) {
                        let j = choose|j: int| 0 <= j < p.len() && p[j].id == es[i].id;
                        assert(p[j] == es[j]);
                    }
                }
            }
            g.add_edge(e);
        }
        assert(es.take(es.len() as int) =~= es);
        g
    }
}


/// Keying a list whose identifiers are all different keeps every item, each under its
/// own identifier, and nothing else.
proof fn lemma_keyed_nodes_distinct(ns: Seq<Node>)
    requires
        forall|i: int, j: int| 0 <= i < j < ns.len() ==> #[trigger] ns[i].id != #[trigger] ns[j].id,
    ensures
        forall|k: u128| #[trigger] keyed_nodes(ns).contains_key(k) <==> exists|i: int| 0 <= i < ns.len() && ns[i].id == k,
        forall|i: int| 0 <= i < ns.len() ==> #[trigger] keyed_nodes(ns)[ns[i].id] == ns[i],
    decreases ns.len(),
{
    if ns.len() > 0 {
        let p = ns.drop_last();
        lemma_keyed_nodes_distinct(p);
        assert forall|k: u128| #[trigger] keyed_nodes(ns).contains_key(k) <==> exists|i: int| 0 <= i < ns.len() && ns[i].id == k by {
            if keyed_nodes(p).contains_key(k) {
                let i = choose|i: int| 0 <= i < p.len() && p[i].id == k;
                assert(ns[i].id == k);
            }
            if exists|i: int| 0 <= i < ns.len() && ns[i].id == k {
                let i = choose|i: int| 0 <= i < ns.len() && ns[i].id == k;
                if i < p.len() {
                    assert(p[i].id == k);
                }
            }
        }
        assert forall|i: int| 0 <= i < ns.len() implies #[trigger] keyed_nodes(ns)[ns[i].id] == ns[i] by {
            assert(keyed_nodes(ns) == keyed_nodes(p).insert(ns.last().id, ns.last()));
            if i < p.len() {
                assert(p[i] == ns[i]);
                assert(ns[i].id != ns[ns.len() - 1].id);
                assert(keyed_nodes(p)[p[i].id] == p[i]);
            }
        }
    }
}

/// Keying a list whose identifiers are all different keeps every item, each under its
/// own identifier, and nothing else.
proof fn lemma_keyed_edges_distinct(es: Seq<Edge>)
    requires
        forall|i: int, j: int| 0 <= i < j < es.len() ==> #[trigger] es[i].id != #[trigger] es[j].id,
    ensures
        forall|k: u128| #[trigger] keyed_edges(es).contains_key(k) <==> exists|i: int| 0 <= i < es.len() && es[i].id == k,
        forall|i: int| 0 <= i < es.len() ==> #[trigger] keyed_edges(es)[es[i].id] == es[i],
    decreases es.len(),
{
    if es.len() > 0 {
        let p = es.drop_last();
        lemma_keyed_edges_distinct(p);
        assert forall|k: u128| #[trigger] keyed_edges(es).contains_key(k) <==> exists|i: int| 0 <= i < es.len() && es[i].id == k by {
            if keyed_edges(p).contains_key(k) {
                let i = choose|i: int| 0 <= i < p.len() && p[i].id == k;
                assert(es[i].id == k);
            }
            if exists|i: int| 0 <= i < es.len() && es[i].id == k {
                let i = choose|i: int| 0 <= i < es.len() && es[i].id == k;
                if i < p.len() {
                    assert(p[i].id == k);
                }
            }
        }
        assert forall|i: int| 0 <= i < es.len() implies #[trigger] keyed_edges(es)[es[i].id] == es[i] by {
            assert(keyed_edges(es) == keyed_edges(p).insert(es.last().id, es.last()));
            if i < p.len() {
                assert(p[i] == es[i]);
                assert(es[i].id != es[es.len() - 1].id);
                assert(keyed_edges(p)[p[i].id] == p[i]);
            }
        }
    }
}

/// Reading back what was listed: a graph rebuilt from its nodes and edges, listed once
/// each under the identifiers the graph stores them under (as `node_ids` and `edge_ids`
/// list them), holds the same nodes and edges, provided every node is stored under its
/// own identifier.
pub proof fn law_rebuild_gives_back(g: &AmureGraph, node_keys: Seq<u128>, edge_keys: Seq<u128>)
    requires
        g.wf(),
        forall|k: u128| #[trigger] g.nodes_view().contains_key(k) ==> g.nodes_view()[k].id == k,
        node_keys.no_duplicates(),
        forall|k: u128| #[trigger] node_keys.contains(k) <==> g.nodes_view().contains_key(k),
        edge_keys.no_duplicates(),
        forall|k: u128| #[trigger] edge_keys.contains(k) <==> g.edges_view().contains_key(k),
    ensures
        keyed_nodes(node_keys.map_values(|k: u128| g.nodes_view()[k])) == g.nodes_view(),
        keyed_edges(edge_keys.map_values(|k: u128| g.edges_view()[k])) == g.edges_view(),
{
    g.lemma_edges_keyed_by_id();
    let nodes = g.nodes_view();
    let edges = g.edges_view();
    let ns = node_keys.map_values(|k: u128| nodes[k]);
    let es = edge_keys.map_values(|k: u128| edges[k]);
    assert forall|i: int| 0 <= i < ns.len() implies #[trigger] ns[i].id == node_keys[i] by {
        assert(node_keys.contains(node_keys[i]));
    }
    assert forall|i: int| 0 <= i < es.len() implies #[trigger] es[i].id == edge_keys[i] by {
        assert(edge_keys.contains(edge_keys[i]));
    }
    assert forall|i: int, j: int| 0 <= i < j < ns.len() implies #[trigger] ns[i].id != #[trigger] ns[j].id by {
        assert(ns[i].id == node_keys[i] && ns[j].id == node_keys[j]);
    }
    assert forall|i: int, j: int| 0 <= i < j < es.len() implies #[trigger] es[i].id != #[trigger] es[j].id by {
        assert(es[i].id == edge_keys[i] && es[j].id == edge_keys[j]);
    }
    lemma_keyed_nodes_distinct(ns);
    lemma_keyed_edges_distinct(es);
    assert forall|k: u128| #[trigger] keyed_nodes(ns).contains_key(k) <==> nodes.contains_key(k) by {
        if nodes.contains_key(k) {
            assert(node_keys.contains(k));
            let i = choose|i: int| 0 <= i < node_keys.len() && node_keys[i] == k;
            assert(ns[i].id == k);
        }
        if keyed_nodes(ns).contains_key(k) {
            let i = choose|i: int| 0 <= i < ns.len() && ns[i].id == k;
            assert(node_keys[i] == k);
            assert(node_keys.contains(k));
        }
    }
    assert forall|k: u128| #[trigger] nodes.contains_key(k) implies keyed_nodes(ns)[k] == nodes[k] by {
        assert(node_keys.contains(k));
        let i = choose|i: int| 0 <= i < node_keys.len() && node_keys[i] == k;
        assert(ns[i].id == k);
    }
    assert(keyed_nodes(ns) =~= nodes);
    assert forall|k: u128| #[trigger] keyed_edges(es).contains_key(k) <==> edges.contains_key(k) by {
        if edges.contains_key(k) {
            assert(edge_keys.contains(k));
            let i = choose|i: int| 0 <= i < edge_keys.len() && edge_keys[i] == k;
            assert(es[i].id == k);
        }
        if keyed_edges(es).contains_key(k) {
            let i = choose|i: int| 0 <= i < es.len() && es[i].id == k;
            assert(edge_keys[i] == k);
            assert(edge_keys.contains(k));
        }
    }
    assert forall|k: u128| #[trigger] edges.contains_key(k) implies keyed_edges(es)[k] == edges[k] by {
        assert(edge_keys.contains(k));
        let i = choose|i: int| 0 <= i < edge_keys.len() && edge_keys[i] == k;
        assert(es[i].id == k);
    }
    assert(keyed_edges(es) =~= edges);
}

} // verus!
