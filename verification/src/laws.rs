//! Properties of the library that span several operations.

use vstd::prelude::*;
use crate::edge::{reverse_kind, Edge, EdgeKind};
use crate::edit::experiment_added;
use crate::graph::{
    experiment_adder, has_kind, has_status, incident, kind_followed, not_touching, unlisted, Direction, kind_count, one_if, same_index, status_count, total_experiments, without_incident, AmureGraph,
};
use crate::index::{lemma_filter_agree, lemma_filter_all, lemma_filter_filter, lemma_filter_none, other_than};
use crate::node::{char_class, keeps_token, lemma_keeps_token, status_name, token_filter, token_seqs, word_runs, Experiment, Node, NodeStatus};
use crate::reach::neighbor_listing;
use crate::search::passes_status_filter;
use crate::text::eq_ignore_ascii_case;
use crate::reach::{
    hop_distance, is_bfs_walk, is_hop_path, labelled, lemma_hop_distance_unique, lemma_labelled_depths, lemma_labelled_push,
    passes, step, within, within_depth,
};

verus! {

/// Reading a node back after storing it gives that node, and every other identifier
/// reads as before. `g1` is what `add_node(node)` makes of `g0`.
pub proof fn law_get_after_add(g0: &AmureGraph, g1: &AmureGraph, node: Node)
    requires
        g1.nodes_view() == g0.nodes_view().insert(node.id, node),
    ensures
        g1.nodes_view().contains_key(node.id),
        g1.nodes_view()[node.id] == node,
        forall|k: u128| k != node.id ==> #[trigger] g1.nodes_view().get(k) == g0.nodes_view().get(k),
{
    assert forall|k: u128| k != node.id implies #[trigger] g1.nodes_view().get(k) == g0.nodes_view().get(k) by {}
}

/// Removing an edge just added gives the graph back as it was (the same edges, and
/// every node's index listing the same edges in the same order) when its identifier was
/// neither stored nor listed at its source's outgoing or its target's incoming index,
/// as in a sound graph (`lemma_unlisted_when_absent`). `g1` is what `add_edge(e)` makes
/// of `g0`, and `g2` what `remove_edge(&e.id)` makes of `g1`.
pub proof fn law_remove_edge_undoes_add_edge(g0: &AmureGraph, g1: &AmureGraph, g2: &AmureGraph, e: Edge)
    requires
        !g0.edges_view().contains_key(e.id),
        !g0.out_list(e.source).contains(e.id),
        !g0.in_list(e.target).contains(e.id),
        g1.edges_view() == g0.edges_view().insert(e.id, e),
        forall|n: u128| #[trigger] g1.out_list(n) == g0.out_list(n) + one_if(n == e.source, e.id),
        forall|n: u128| #[trigger] g1.in_list(n) == g0.in_list(n) + one_if(n == e.target, e.id),
        g2.edges_view() == g1.edges_view().remove(e.id),
        forall|n: u128| #[trigger] g2.out_list(n) == unlisted(g1.out_list(n), g1.edges_view(), e.id, n, true),
        forall|n: u128| #[trigger] g2.in_list(n) == unlisted(g1.in_list(n), g1.edges_view(), e.id, n, false),
    ensures
        g2.edges_view() == g0.edges_view(),
        same_index(*g2, *g0),
{
    broadcast use Seq::filter_distributes_over_add;

    assert(g2.edges_view() =~= g0.edges_view());
    let o = other_than(e.id);
    let lo = g0.out_list(e.source);
    let li = g0.in_list(e.target);
    assert forall|i: int| 0 <= i < lo.len() implies o(#[trigger] lo[i]) by {
        assert(lo.contains(lo[i]));
    }
    assert forall|i: int| 0 <= i < li.len() implies o(#[trigger] li[i]) by {
        assert(li.contains(li[i]));
    }
    lemma_filter_all(lo, o);
    lemma_filter_all(li, o);
    lemma_filter_all(Seq::<u128>::empty(), o);
    Seq::<u128>::empty().lemma_filter_push(e.id, o);
    assert(Seq::<u128>::empty().push(e.id) =~= seq![e.id]);
    assert forall|n: u128| #[trigger] g2.out_list(n) == g0.out_list(n) by {
        let l = g0.out_list(n);
        if n == e.source {
            assert((l + seq![e.id]).filter(o) == l.filter(o) + seq![e.id].filter(o));
            assert(l + Seq::<u128>::empty() =~= l);
        } else {
            assert(l + Seq::<u128>::empty() =~= l);
        }
    }
    assert forall|n: u128| #[trigger] g2.in_list(n) == g0.in_list(n) by {
        let l = g0.in_list(n);
        if n == e.target {
            assert((l + seq![e.id]).filter(o) == l.filter(o) + seq![e.id].filter(o));
            assert(l + Seq::<u128>::empty() =~= l);
        } else {
            assert(l + Seq::<u128>::empty() =~= l);
        }
    }
}

/// After a node is removed, neither the node nor any edge touching it is left, and
/// every edge that did not touch it is still there unchanged. `g1` is what `remove_node(&n)` makes of `g0`.
pub proof fn law_remove_node_cascades(g0: &AmureGraph, g1: &AmureGraph, n: u128)
    requires
        g1.nodes_view() == g0.nodes_view().remove(n),
        g1.edges_view() == without_incident(g0.edges_view(), n),
    ensures
        !g1.nodes_view().contains_key(n),
        forall|e: u128| #[trigger] g1.edges_view().contains_key(e) ==> !incident(g1.edges_view()[e], n),
        forall|e: u128|
            g0.edges_view().contains_key(e) && !incident(g0.edges_view()[e], n) ==> #[trigger] g1.edges_view().contains_key(e)
                && g1.edges_view()[e] == g0.edges_view()[e],
{
}

/// After a node is removed, every other node's neighbours are those it had, in the same
/// order, less those reached over an edge that touched the removed node; the removed
/// node has none. (Which neighbour an edge identifier gives is read from the edges,
/// which keep their values.) `g1` is what `remove_node(&n)` makes of `g0`.
pub proof fn law_remove_node_neighbors(
    g0: &AmureGraph,
    g1: &AmureGraph,
    n: u128,
    m: u128,
    dir: Direction,
    f: Option<Seq<EdgeKind>>,
)
    requires
        g0.sound(),
        g1.edges_view() == without_incident(g0.edges_view(), n),
        g1.out_list(n) == Seq::<u128>::empty(),
        g1.in_list(n) == Seq::<u128>::empty(),
        forall|x: u128| x != n ==> #[trigger] g1.out_list(x) == g0.out_list(x).filter(not_touching(g0.edges_view(), n)),
        forall|x: u128| x != n ==> #[trigger] g1.in_list(x) == g0.in_list(x).filter(not_touching(g0.edges_view(), n)),
    ensures
        m == n ==> g1.followed_out(m, dir, f).len() == 0 && g1.followed_in(m, dir, f).len() == 0,
        m != n ==> g1.followed_out(m, dir, f) == g0.followed_out(m, dir, f).filter(not_touching(g0.edges_view(), n)),
        m != n ==> g1.followed_in(m, dir, f) == g0.followed_in(m, dir, f).filter(not_touching(g0.edges_view(), n)),
{
    let e0 = g0.edges_view();
    let e1 = g1.edges_view();
    let nt = not_touching(e0, n);
    let k0 = kind_followed(e0, f);
    let k1 = kind_followed(e1, f);
    lemma_filter_all(Seq::<u128>::empty(), k1);
    lemma_filter_all(Seq::<u128>::empty(), nt);
    g0.lemma_lists_hold_edges();
    if m != n {
        let lo = g0.out_list(m);
        lemma_filter_filter(lo, nt, k1);
        lemma_filter_filter(lo, k0, nt);
        assert forall|i: int| 0 <= i < lo.len() implies (|x: u128| nt(x) && k1(x))(#[trigger] lo[i])
            == (|x: u128| k0(x) && nt(x))(lo[i]) by {
            assert(e0.contains_key(lo[i]));
            if nt(lo[i]) {
                assert(e1.contains_key(lo[i]));
                assert(e1[lo[i]] == e0[lo[i]]);
            }
        }
        lemma_filter_agree(lo, |x: u128| nt(x) && k1(x), |x: u128| k0(x) && nt(x));
        let li = g0.in_list(m);
        lemma_filter_filter(li, nt, k1);
        lemma_filter_filter(li, k0, nt);
        assert forall|i: int| 0 <= i < li.len() implies (|x: u128| nt(x) && k1(x))(#[trigger] li[i])
            == (|x: u128| k0(x) && nt(x))(li[i]) by {
            assert(e0.contains_key(li[i]));
            if nt(li[i]) {
                assert(e1.contains_key(li[i]));
                assert(e1[li[i]] == e0[li[i]]);
            }
        }
        lemma_filter_agree(li, |x: u128| nt(x) && k1(x), |x: u128| k0(x) && nt(x));
    }
}

/// Every node has exactly one status: the status counts add up to the number of nodes.
pub proof fn law_status_counts_add_up(g: &AmureGraph)
    ensures
        status_count(g.nodes_view(), NodeStatus::Draft) + status_count(g.nodes_view(), NodeStatus::Accept)
            + status_count(g.nodes_view(), NodeStatus::Decline) == g.nodes_view().len(),
{
    g.lemma_views_finite();
    let nodes = g.nodes_view();
    let dom = nodes.dom();
    let d = dom.filter(has_status(nodes, NodeStatus::Draft));
    let a = dom.filter(has_status(nodes, NodeStatus::Accept));
    let x = dom.filter(has_status(nodes, NodeStatus::Decline));
    dom.lemma_len_filter(has_status(nodes, NodeStatus::Draft));
    dom.lemma_len_filter(has_status(nodes, NodeStatus::Accept));
    dom.lemma_len_filter(has_status(nodes, NodeStatus::Decline));
    assert(d.disjoint(a));
    vstd::set_lib::lemma_set_disjoint_lens(d, a);
    assert((d + a).disjoint(x));
    vstd::set_lib::lemma_set_disjoint_lens(d + a, x);
    assert(d + a + x =~= dom);
}

/// The summary's count for a status is the number of nodes that `nodes_by_status`
/// lists for it. `r` is what `nodes_by_status(st)` returns.
pub proof fn law_status_count_is_listing(g: &AmureGraph, st: NodeStatus, r: Seq<&Node>)
    requires
        exists|ks: Seq<u128>|
            {
                &&& ks.no_duplicates()
                &&& forall|k: u128| #[trigger] ks.contains(k) <==> (g.nodes_view().contains_key(k)
                    && g.nodes_view()[k].status == st)
                &&& r.len() == ks.len()
                &&& forall|i: int| 0 <= i < ks.len() ==> *#[trigger] r[i] == g.nodes_view()[ks[i]]
            },
    ensures
        r.len() == status_count(g.nodes_view(), st),
{
    let ks = choose|ks: Seq<u128>|
        {
            &&& ks.no_duplicates()
            &&& forall|k: u128| #[trigger] ks.contains(k) <==> (g.nodes_view().contains_key(k)
                && g.nodes_view()[k].status == st)
            &&& r.len() == ks.len()
            &&& forall|i: int| 0 <= i < ks.len() ==> *#[trigger] r[i] == g.nodes_view()[ks[i]]
        };
    ks.unique_seq_to_set();
    assert(ks.to_set() =~= g.nodes_view().dom().filter(has_status(g.nodes_view(), st)));
}

/// Every edge has exactly one kind: the kind counts add up to the number of edges.
pub proof fn law_kind_counts_add_up(g: &AmureGraph)
    ensures
        kind_count(g.edges_view(), EdgeKind::Reference) + kind_count(g.edges_view(), EdgeKind::Superset)
            + kind_count(g.edges_view(), EdgeKind::Subset) + kind_count(g.edges_view(), EdgeKind::Orthogonal)
            == g.edges_view().len(),
{
    g.lemma_views_finite();
    let edges = g.edges_view();
    let dom = edges.dom();
    let r = dom.filter(has_kind(edges, EdgeKind::Reference));
    let p = dom.filter(has_kind(edges, EdgeKind::Superset));
    let b = dom.filter(has_kind(edges, EdgeKind::Subset));
    let o = dom.filter(has_kind(edges, EdgeKind::Orthogonal));
    dom.lemma_len_filter(has_kind(edges, EdgeKind::Reference));
    dom.lemma_len_filter(has_kind(edges, EdgeKind::Superset));
    dom.lemma_len_filter(has_kind(edges, EdgeKind::Subset));
    dom.lemma_len_filter(has_kind(edges, EdgeKind::Orthogonal));
    assert(r.disjoint(p));
    vstd::set_lib::lemma_set_disjoint_lens(r, p);
    assert((r + p).disjoint(b));
    vstd::set_lib::lemma_set_disjoint_lens(r + p, b);
    assert((r + p + b).disjoint(o));
    vstd::set_lib::lemma_set_disjoint_lens(r + p + b, o);
    assert(r + p + b + o =~= dom);
}

/// The edge drawn back by `add_edge_with_reverse` has the reverse kind, and reversing
/// it once more gives the kind of the edge drawn forward; reference and orthogonal
/// edges point back with their own kind.
pub proof fn law_reverse_pair(k: EdgeKind)
    ensures
        reverse_kind(reverse_kind(k)) == k,
        (k == EdgeKind::Reference || k == EdgeKind::Orthogonal) ==> reverse_kind(k) == k,
        k == EdgeKind::Subset <==> reverse_kind(k) == EdgeKind::Superset,
{
}

/// Totals of experiments over a set of nodes agree when each node has as many
/// experiments in both maps.
proof fn lemma_experiment_total_agree(s: Set<u128>, n1: Map<u128, Node>, n2: Map<u128, Node>)
    requires
        s.finite(),
        forall|k: u128| #[trigger] s.contains(k) ==> n1[k].experiments@.len() == n2[k].experiments@.len(),
    ensures
        s.fold(0nat, experiment_adder(n1)) == s.fold(0nat, experiment_adder(n2)),
    decreases s.len(),
{
    let f1 = experiment_adder(n1);
    let f2 = experiment_adder(n2);
    assert(vstd::set::fold::is_fun_commutative(f1));
    assert(vstd::set::fold::is_fun_commutative(f2));
    if s.len() == 0 {
        assert(s =~= Set::<u128>::empty());
        vstd::set::fold::lemma_fold_empty(0nat, f1);
        vstd::set::fold::lemma_fold_empty(0nat, f2);
    } else {
        let a = s.choose();
        let r = s.remove(a);
        lemma_experiment_total_agree(r, n1, n2);
        assert(r.insert(a) =~= s);
        vstd::set::fold::lemma_fold_insert(r, 0nat, f1, a);
        vstd::set::fold::lemma_fold_insert(r, 0nat, f2, a);
    }
}

/// Recording an experiment on a node adds one to the number of experiments that a
/// summary counts. `g1` is what `add_experiment` makes of `g0` when it records `e` on
/// the node stored under `id`.
pub proof fn law_experiment_is_counted(g0: &AmureGraph, g1: &AmureGraph, id: u128, e: Experiment)
    requires
        g0.nodes_view().contains_key(id),
        g1.nodes_view() == g0.nodes_view().insert(id, g1.nodes_view()[id]),
        experiment_added(g0.nodes_view()[id], g1.nodes_view()[id], e),
    ensures
        total_experiments(g1.nodes_view()) == total_experiments(g0.nodes_view()) + 1,
{
    g0.lemma_views_finite();
    let n0 = g0.nodes_view();
    let n1 = g1.nodes_view();
    let dom = n0.dom();
    assert(n1.dom() =~= dom);
    let rest = dom.remove(id);
    assert forall|k: u128| #[trigger] rest.contains(k) implies n0[k].experiments@.len() == n1[k].experiments@.len() by {
        assert(n1[k] == n0[k]);
    }
    lemma_experiment_total_agree(rest, n0, n1);
    let f0 = experiment_adder(n0);
    let f1 = experiment_adder(n1);
    assert(vstd::set::fold::is_fun_commutative(f0));
    assert(vstd::set::fold::is_fun_commutative(f1));
    assert(rest.insert(id) =~= dom);
    vstd::set::fold::lemma_fold_insert(rest, 0nat, f0, id);
    vstd::set::fold::lemma_fold_insert(rest, 0nat, f1, id);
}

/// A hop along some kinds of edges is a hop when every kind is followed.
proof fn lemma_filtered_hop_is_hop(g: &AmureGraph, kinds: Seq<EdgeKind>, u: u128, v: u128)
    requires
        g.neighbor_seq(u, Some(kinds)).contains(v),
    ensures
        g.neighbor_seq(u, None).contains(v),
{
    let e = g.edges_view();
    let ks = kind_followed(e, Some(kinds));
    let kn = kind_followed(e, None);
    let lo = g.out_list(u);
    let li = g.in_list(u);
    let fos = lo.filter(ks);
    let fis = li.filter(ks);
    let fon = lo.filter(kn);
    let fin = li.filter(kn);
    let ns = g.neighbor_seq(u, Some(kinds));
    let nn = g.neighbor_seq(u, None);
    let i = choose|i: int| 0 <= i < ns.len() && ns[i] == v;
    if i < fos.len() {
        let x = fos[i];
        lo.lemma_filter_pred(ks, i);
        assert(fos.contains(x));
        lo.lemma_filter_contains_rev(ks, x);
        let j = choose|j: int| 0 <= j < lo.len() && lo[j] == x;
        lo.lemma_filter_contains(kn, j);
        let m = choose|m: int| 0 <= m < fon.len() && fon[m] == x;
        assert(nn[m] == e[x].target);
    } else {
        let x = fis[i - fos.len()];
        li.lemma_filter_pred(ks, i - fos.len());
        assert(fis.contains(x));
        li.lemma_filter_contains_rev(ks, x);
        let j = choose|j: int| 0 <= j < li.len() && li[j] == x;
        li.lemma_filter_contains(kn, j);
        let m = choose|m: int| 0 <= m < fin.len() && fin[m] == x;
        assert(nn[fon.len() + m] == e[x].source);
    }
}

/// Reaching a node along some kinds of edges reaches it when every kind is followed.
pub proof fn law_filtered_reach_is_reach(
    g: &AmureGraph,
    kinds: Seq<EdgeKind>,
    s: u128,
    v: u128,
    k: nat,
)
    requires
        within(g.hops(Some(kinds)), s, v, k),
    ensures
        within(g.hops(None), s, v, k),
{
    let a = g.hops(Some(kinds));
    let b = g.hops(None);
    let p = choose|p: Seq<u128>|
        #[trigger] is_hop_path(a, p) && p[0] == s && p.last() == v && p.len() <= k + 1;
    assert forall|i: int, j: int| 0 <= i && j == i + 1 && j < p.len() implies #[trigger] step(b, p[i], p[j]) by {
        assert(step(a, p[i], p[j]));
        lemma_filtered_hop_is_hop(g, kinds, p[i], p[j]);
    }
    assert(is_hop_path(b, p));
}

/// In a sound graph a hop is an edge: under a kind filter, `v` is a neighbour of `u`
/// exactly when a stored edge of a followed kind joins them, whichever way it points.
pub proof fn law_hops_are_edges(g: &AmureGraph, filter: Option<Seq<EdgeKind>>, u: u128, v: u128)
    requires
        g.sound(),
    ensures
        step(g.hops(filter), u, v) <==> exists|e: u128| #[trigger]
            g.edges_view().contains_key(e) && passes(filter, g.edges_view()[e].kind) && crate::reach::joins(
                g.edges_view()[e],
                u,
                v,
            ),
{
    let ed = g.edges_view();
    let kf = kind_followed(ed, filter);
    let lo = g.out_list(u);
    let li = g.in_list(u);
    let fo = lo.filter(kf);
    let fi = li.filter(kf);
    let ns = g.neighbor_seq(u, filter);
    g.lemma_lists_hold_edges();
    g.lemma_sound_is_wf();
    g.lemma_lists_complete();
    assert(g.hops(filter)(u) == ns);
    if ns.contains(v) {
        let i = choose|i: int| 0 <= i < ns.len() && ns[i] == v;
        if i < fo.len() {
            let x = fo[i];
            lo.lemma_filter_pred(kf, i);
            assert(fo.contains(x));
            lo.lemma_filter_contains_rev(kf, x);
            let j = choose|j: int| 0 <= j < lo.len() && lo[j] == x;
            assert(ed.contains_key(lo[j]) && ed[lo[j]].source == u);
            assert(crate::reach::joins(ed[x], u, v));
        } else {
            let x = fi[i - fo.len()];
            li.lemma_filter_pred(kf, i - fo.len());
            assert(fi.contains(x));
            li.lemma_filter_contains_rev(kf, x);
            let j = choose|j: int| 0 <= j < li.len() && li[j] == x;
            assert(ed.contains_key(li[j]) && ed[li[j]].target == u);
            assert(crate::reach::joins(ed[x], u, v));
        }
    }
    if exists|e: u128| #[trigger] ed.contains_key(e) && passes(filter, ed[e].kind) && crate::reach::joins(ed[e], u, v) {
        let e = choose|e: u128| #[trigger] ed.contains_key(e) && passes(filter, ed[e].kind) && crate::reach::joins(ed[e], u, v);
        if ed[e].source == u && ed[e].target == v {
            assert(lo.contains(e));
            let j = choose|j: int| 0 <= j < lo.len() && lo[j] == e;
            lo.lemma_filter_contains(kf, j);
            let m = choose|m: int| 0 <= m < fo.len() && fo[m] == e;
            assert(ns[m] == v);
        } else {
            assert(li.contains(e));
            let j = choose|j: int| 0 <= j < li.len() && li[j] == e;
            li.lemma_filter_contains(kf, j);
            let m = choose|m: int| 0 <= m < fi.len() && fi[m] == e;
            assert(ns[fo.len() + m] == v);
        }
    }
}

/// A walk of no hops lists the start alone.
pub proof fn law_walk_zero_hops(
    adj: spec_fn(u128) -> Seq<u128>,
    s: u128,
    r: Seq<(u128, usize)>,
)
    requires
        is_bfs_walk(adj, s, 0, r),
    ensures
        r == seq![(s, 0usize)],
{
    if r.len() > 1 {
        assert(r[1].1 <= 0);
        assert(hop_distance(adj, s, r[1].0, 0));
        crate::reach::lemma_within_zero(adj, s, r[1].0);
        assert(r[0].0 != r[1].0);
    }
    assert(r =~= seq![(s, 0usize)]);
}

/// Two walks from one start, one allowed more hops than the other, agree: every node
/// the shorter walk lists, the longer lists too, at the same number of hops.
pub proof fn law_walk_grows_with_hops(
    adj: spec_fn(u128) -> Seq<u128>,
    s: u128,
    h1: nat,
    h2: nat,
    r1: Seq<(u128, usize)>,
    r2: Seq<(u128, usize)>,
)
    requires
        is_bfs_walk(adj, s, h1, r1),
        is_bfs_walk(adj, s, h2, r2),
        h1 <= h2,
    ensures
        forall|i: int| 0 <= i < r1.len() ==> exists|j: int| 0 <= j < r2.len() && #[trigger] r2[j] == #[trigger] r1[i],
{
    assert forall|i: int| 0 <= i < r1.len() implies exists|j: int| 0 <= j < r2.len() && #[trigger] r2[j] == #[trigger] r1[i] by {
        let v = r1[i].0;
        let d = r1[i].1 as nat;
        assert(hop_distance(adj, s, v, d));
        assert(within(adj, s, v, d));
        let j = choose|j: int| 0 <= j < r2.len() && #[trigger] r2[j].0 == v;
        assert(hop_distance(adj, s, r2[j].0, r2[j].1 as nat));
        lemma_hop_distance_unique(adj, s, v, d, r2[j].1 as nat);
        assert(r2[j] == r1[i]);
    }
}

/// A walk allowed fewer hops is the beginning of a walk allowed more, from the same
/// start along the same kinds of edges: the longer walk only adds nodes after it.
pub proof fn law_walk_extends_shorter(g: &AmureGraph, s: u128, filter: Option<Seq<EdgeKind>>, h1: nat, h2: nat)
    requires
        h1 <= h2,
    ensures
        labelled(g.walk_layers(s, filter, h1)).len() <= labelled(g.walk_layers(s, filter, h2)).len(),
        labelled(g.walk_layers(s, filter, h2)).take(labelled(g.walk_layers(s, filter, h1)).len() as int)
            == labelled(g.walk_layers(s, filter, h1)),
    decreases h2,
{
    if h2 > h1 {
        law_walk_extends_shorter(g, s, filter, h1, (h2 - 1) as nat);
        let prev = g.walk_layers(s, filter, (h2 - 1) as nat);
        let l = g.walk_layers(s, filter, h2).last();
        assert(g.walk_layers(s, filter, h2) == prev.push(l));
        lemma_labelled_push(prev, l);
        let a = labelled(g.walk_layers(s, filter, h1));
        let b = labelled(prev);
        let c = labelled(prev.push(l));
        assert(c.take(a.len() as int) =~= b.take(a.len() as int));
    }
}

/// A walk allowed `k` hops is the walk allowed `h >= k` hops with every entry more than
/// `k` hops away dropped, from the same start along the same kinds of edges (hop
/// counts fitting in a `usize`).
pub proof fn law_walk_cut_at_bound(g: &AmureGraph, s: u128, filter: Option<Seq<EdgeKind>>, k: nat, h: nat)
    requires
        k <= h,
        h <= usize::MAX,
    ensures
        labelled(g.walk_layers(s, filter, h)).filter(within_depth(k)) == labelled(g.walk_layers(s, filter, k)),
    decreases h,
{
    broadcast use Seq::filter_distributes_over_add;

    if h == k {
        g.lemma_walk_layers_len(s, filter, k);
        lemma_labelled_depths(g.walk_layers(s, filter, k));
        let l = labelled(g.walk_layers(s, filter, k));
        assert forall|i: int| 0 <= i < l.len() implies within_depth(k)(#[trigger] l[i]) by {}
        lemma_filter_all(l, within_depth(k));
    } else {
        law_walk_cut_at_bound(g, s, filter, k, (h - 1) as nat);
        let prev = g.walk_layers(s, filter, (h - 1) as nat);
        let last = g.walk_layers(s, filter, h).last();
        assert(g.walk_layers(s, filter, h) == prev.push(last));
        g.lemma_walk_layers_len(s, filter, (h - 1) as nat);
        lemma_labelled_push(prev, last);
        let tail = last.map_values(|v: u128| (v, prev.len() as usize));
        assert forall|i: int| 0 <= i < tail.len() implies !within_depth(k)(#[trigger] tail[i]) by {}
        lemma_filter_none(tail, within_depth(k));
        assert(labelled(prev).filter(within_depth(k)) + Seq::<(u128, usize)>::empty()
            =~= labelled(prev).filter(within_depth(k)));
    }
}

/// Edges that are not orthogonal, as a predicate on identifiers.
pub open spec fn not_orthogonal(edges: Map<u128, Edge>) -> spec_fn(u128) -> bool {
    |e: u128| edges[e].kind != EdgeKind::Orthogonal
}

/// The kinds the orthogonal-excluding walk follows are exactly the kinds other than
/// orthogonal.
proof fn lemma_non_orthogonal_kinds(k: EdgeKind)
    ensures
        seq![EdgeKind::Reference, EdgeKind::Superset, EdgeKind::Subset].contains(k) <==> k != EdgeKind::Orthogonal,
{
    let ks = seq![EdgeKind::Reference, EdgeKind::Superset, EdgeKind::Subset];
    match k {
        EdgeKind::Reference => { assert(ks[0] == k); },
        EdgeKind::Superset => { assert(ks[1] == k); },
        EdgeKind::Subset => { assert(ks[2] == k); },
        EdgeKind::Orthogonal => {
            assert forall|i: int| 0 <= i < ks.len() implies ks[i] != k by {}
        },
    }
}

/// The walk that skips orthogonal edges is the walk that follows every edge of the
/// graph with its orthogonal edges taken out: layer for layer, in the same order. `g2`
/// is `g` with each orthogonal edge removed as `remove_edge` removes one: the edge is
/// gone and its identifier is dropped from the index lists, which keep their order.
pub proof fn law_exclude_orthogonal_is_walk_without_them(g: &AmureGraph, g2: &AmureGraph, s: u128, k: nat)
    requires
        g.sound(),
        g2.edges_view() == g.edges_view().restrict(g.edges_view().dom().filter(not_orthogonal(g.edges_view()))),
        forall|x: u128| #[trigger] g2.out_list(x) == g.out_list(x).filter(not_orthogonal(g.edges_view())),
        forall|x: u128| #[trigger] g2.in_list(x) == g.in_list(x).filter(not_orthogonal(g.edges_view())),
    ensures
        g.walk_layers(s, Some(seq![EdgeKind::Reference, EdgeKind::Superset, EdgeKind::Subset]), k)
            == g2.walk_layers(s, None, k),
    decreases k,
{
    let fk = Some(seq![EdgeKind::Reference, EdgeKind::Superset, EdgeKind::Subset]);
    if k > 0 {
        law_exclude_orthogonal_is_walk_without_them(g, g2, s, (k - 1) as nat);
        let prev = g.walk_layers(s, fk, (k - 1) as nat);
        lemma_same_frontier_neighbors(g, g2, prev.last());
    }
}

/// Both graphs give every frontier the same neighbours, under the hypotheses of
/// `law_exclude_orthogonal_is_walk_without_them`.
proof fn lemma_same_frontier_neighbors(g: &AmureGraph, g2: &AmureGraph, fr: Seq<u128>)
    requires
        g.sound(),
        g2.edges_view() == g.edges_view().restrict(g.edges_view().dom().filter(not_orthogonal(g.edges_view()))),
        forall|x: u128| #[trigger] g2.out_list(x) == g.out_list(x).filter(not_orthogonal(g.edges_view())),
        forall|x: u128| #[trigger] g2.in_list(x) == g.in_list(x).filter(not_orthogonal(g.edges_view())),
    ensures
        g.frontier_neighbors(fr, Some(seq![EdgeKind::Reference, EdgeKind::Superset, EdgeKind::Subset]))
            == g2.frontier_neighbors(fr, None),
    decreases fr.len(),
{
    if fr.len() > 0 {
        lemma_same_frontier_neighbors(g, g2, fr.drop_last());
        lemma_same_neighbor_seq(g, g2, fr.last());
    }
}

/// Both graphs give a node the same neighbours, under the hypotheses of
/// `law_exclude_orthogonal_is_walk_without_them`.
proof fn lemma_same_neighbor_seq(g: &AmureGraph, g2: &AmureGraph, u: u128)
    requires
        g.sound(),
        g2.edges_view() == g.edges_view().restrict(g.edges_view().dom().filter(not_orthogonal(g.edges_view()))),
        forall|x: u128| #[trigger] g2.out_list(x) == g.out_list(x).filter(not_orthogonal(g.edges_view())),
        forall|x: u128| #[trigger] g2.in_list(x) == g.in_list(x).filter(not_orthogonal(g.edges_view())),
    ensures
        g.neighbor_seq(u, Some(seq![EdgeKind::Reference, EdgeKind::Superset, EdgeKind::Subset]))
            == g2.neighbor_seq(u, None),
{
    let fk = Some(seq![EdgeKind::Reference, EdgeKind::Superset, EdgeKind::Subset]);
    let e = g.edges_view();
    let e2 = g2.edges_view();
    let no = not_orthogonal(e);
    g.lemma_lists_hold_edges();
    let lo = g.out_list(u);
    let li = g.in_list(u);
    assert forall|i: int| 0 <= i < lo.len() implies kind_followed(e, fk)(#[trigger] lo[i]) == no(lo[i]) by {
        lemma_non_orthogonal_kinds(e[lo[i]].kind);
    }
    assert forall|i: int| 0 <= i < li.len() implies kind_followed(e, fk)(#[trigger] li[i]) == no(li[i]) by {
        lemma_non_orthogonal_kinds(e[li[i]].kind);
    }
    lemma_filter_agree(lo, kind_followed(e, fk), no);
    lemma_filter_agree(li, kind_followed(e, fk), no);
    lemma_filter_all(g2.out_list(u), kind_followed(e2, None));
    lemma_filter_all(g2.in_list(u), kind_followed(e2, None));
    let fo = lo.filter(no);
    let fi = li.filter(no);
    assert(g.followed_out(u, Direction::Both, fk) == fo);
    assert(g2.followed_out(u, Direction::Both, None) == fo);
    assert(g.followed_in(u, Direction::Both, fk) == fi);
    assert(g2.followed_in(u, Direction::Both, None) == fi);
    assert forall|i: int| 0 <= i < fo.len() implies e2[#[trigger] fo[i]] == e[fo[i]] by {
        lo.lemma_filter_pred(no, i);
        assert(lo.filter(no).contains(fo[i]));
        lo.lemma_filter_contains_rev(no, fo[i]);
        let j = choose|j: int| 0 <= j < lo.len() && lo[j] == fo[i];
        assert(e.contains_key(lo[j]));
    }
    assert forall|i: int| 0 <= i < fi.len() implies e2[#[trigger] fi[i]] == e[fi[i]] by {
        li.lemma_filter_pred(no, i);
        assert(li.filter(no).contains(fi[i]));
        li.lemma_filter_contains_rev(no, fi[i]);
        let j = choose|j: int| 0 <= j < li.len() && li[j] == fi[i];
        assert(e.contains_key(li[j]));
    }
    assert(fo.map_values(|x: u128| e[x].target) =~= fo.map_values(|x: u128| e2[x].target));
    assert(fi.map_values(|x: u128| e[x].source) =~= fi.map_values(|x: u128| e2[x].source));
}

/// The runs a text splits into are non-empty, and all characters of a run are of one
/// and the same word class.
pub proof fn lemma_word_runs_shape(s: Seq<char>)
    ensures
        forall|i: int|
            0 <= i < word_runs(s).len() ==> {
                &&& #[trigger] word_runs(s)[i].len() > 0
                &&& char_class(word_runs(s)[i][0]) != 0
                &&& forall|j: int|
                    0 <= j < word_runs(s)[i].len() ==> char_class(#[trigger] word_runs(s)[i][j])
                        == char_class(word_runs(s)[i][0])
            },
        s.len() > 0 && char_class(s.last()) != 0 ==> word_runs(s).len() > 0 && word_runs(s).last().last() == s.last(),
    decreases s.len(),
{
    if s.len() > 0 {
        let prev = s.drop_last();
        lemma_word_runs_shape(prev);
        let c = s.last();
        if char_class(c) != 0 && s.len() >= 2 && char_class(s[s.len() - 2]) == char_class(c) {
            assert(prev.last() == s[s.len() - 2]);
            let w = word_runs(prev);
            let last = w.last().push(c);
            assert(word_runs(s) == w.update(w.len() - 1, last));
            assert forall|i: int| 0 <= i < word_runs(s).len() implies {
                &&& #[trigger] word_runs(s)[i].len() > 0
                &&& char_class(word_runs(s)[i][0]) != 0
                &&& forall|j: int|
                    0 <= j < word_runs(s)[i].len() ==> char_class(#[trigger] word_runs(s)[i][j])
                        == char_class(word_runs(s)[i][0])
            } by {
                if i == w.len() - 1 {
                    assert(word_runs(s)[i] == last);
                    assert(w[i].len() > 0);
                    assert forall|j: int| 0 <= j < last.len() implies char_class(#[trigger] last[j])
                        == char_class(last[0]) by {
                        if j < w[i].len() {
                            assert(last[j] == w[i][j]);
                        } else {
                            assert(w[i][w[i].len() - 1] == prev.last());
                        }
                    }
                }
            }
        }
    }
}

/// A space between two texts separates their runs: the runs of the joined text are
/// those of the first followed by those of the second.
pub proof fn lemma_word_runs_split(x: Seq<char>, b: Seq<char>)
    ensures
        word_runs(x + seq![' '] + b) == word_runs(x) + word_runs(b),
    decreases b.len(),
{
    let p = x + seq![' '];
    assert(p.drop_last() =~= x);
    assert(char_class(' ') == 0);
    if b.len() == 0 {
        assert(p + b =~= p);
        assert(word_runs(x) + word_runs(b) =~= word_runs(x));
    } else {
        let b1 = b.drop_last();
        let c = b.last();
        lemma_word_runs_split(x, b1);
        let t = p + b1;
        assert(t.push(c) =~= p + b);
        assert((t.push(c)).drop_last() =~= t);
        assert(b1.push(c) =~= b);
        let wa = word_runs(x);
        let wb1 = word_runs(b1);
        assert(word_runs(t) == wa + wb1);
        if char_class(c) != 0 {
            let joined = b1.len() > 0 && char_class(b1.last()) == char_class(c);
            if b1.len() > 0 {
                assert(t.last() == b1.last());
                assert(t.push(c)[t.push(c).len() - 2] == b1.last());
                assert(b[b.len() - 2] == b1.last());
            } else {
                assert(t.push(c)[t.push(c).len() - 2] == ' ');
            }
            if joined {
                lemma_word_runs_shape(b1);
                let v = wb1.last().push(c);
                assert(word_runs(b) == wb1.update(wb1.len() - 1, v));
                assert((wa + wb1).last() == wb1.last());
                assert((wa + wb1).update((wa + wb1).len() - 1, v) =~= wa + wb1.update(wb1.len() - 1, v));
            } else {
                assert(word_runs(b) == wb1.push(seq![c]));
                assert((wa + wb1).push(seq![c]) =~= wa + wb1.push(seq![c]));
            }
        }
    }
}

/// Tokenizing text made of two texts joined by a space gives the tokens of the first
/// followed by those of the second (of already lower-cased text, as
/// `tokenize_lowercased` takes it).
pub proof fn law_tokens_split_at_space(a: Seq<char>, b: Seq<char>)
    ensures
        token_seqs(a + seq![' '] + b) == token_seqs(a) + token_seqs(b),
{
    broadcast use Seq::filter_distributes_over_add;

    lemma_word_runs_split(a, b);
}

/// Texts joined by single spaces.
pub open spec fn joined_by_spaces(ts: Seq<Seq<char>>) -> Seq<char>
    decreases ts.len(),
{
    if ts.len() == 0 {
        Seq::empty()
    } else if ts.len() == 1 {
        ts[0]
    } else {
        joined_by_spaces(ts.drop_last()) + seq![' '] + ts.last()
    }
}

/// A non-empty text whose characters are all of one word class is a single run.
proof fn lemma_single_run(r: Seq<char>)
    requires
        r.len() > 0,
        char_class(r[0]) != 0,
        forall|j: int| 0 <= j < r.len() ==> char_class(#[trigger] r[j]) == char_class(r[0]),
    ensures
        word_runs(r) == seq![r],
    decreases r.len(),
{
    let p = r.drop_last();
    let c = r.last();
    assert(char_class(r[r.len() - 1]) == char_class(r[0]));
    if r.len() == 1 {
        assert(p =~= Seq::<char>::empty());
        assert(word_runs(p) == Seq::<Seq<char>>::empty());
        assert(seq![c] =~= r);
        assert(word_runs(r) == word_runs(p).push(seq![c]));
        assert(Seq::<Seq<char>>::empty().push(seq![c]) =~= seq![r]);
    } else {
        assert forall|j: int| 0 <= j < p.len() implies char_class(#[trigger] p[j]) == char_class(p[0]) by {
            assert(p[j] == r[j]);
            assert(p[0] == r[0]);
        }
        lemma_single_run(p);
        assert(char_class(r[r.len() - 2]) == char_class(r[0]));
        assert(p.push(c) =~= r);
        assert(r[r.len() - 2] == p.last());
        assert(word_runs(r) == word_runs(p).update(0, word_runs(p).last().push(c)));
        assert(seq![p].update(0, p.push(c)) =~= seq![r]);
    }
}

/// Tokenizing the tokens of a text, joined by spaces, gives those tokens again (of
/// already lower-cased text, as `tokenize_lowercased` takes it).
pub proof fn law_tokenize_is_idempotent(s: Seq<char>)
    ensures
        token_seqs(joined_by_spaces(token_seqs(s))) == token_seqs(s),
{
    law_tokens_are_words(s);
    lemma_tokens_of_words(token_seqs(s));
}

/// Tokenizing words joined by spaces gives the words back, when each is a token: a run
/// of one word class kept by the length rule.
proof fn lemma_tokens_of_words(ts: Seq<Seq<char>>)
    requires
        forall|i: int|
            0 <= i < ts.len() ==> {
                &&& keeps_token(#[trigger] ts[i])
                &&& ts[i].len() > 0
                &&& char_class(ts[i][0]) != 0
                &&& forall|j: int| 0 <= j < ts[i].len() ==> char_class(#[trigger] ts[i][j]) == char_class(ts[i][0])
            },
    ensures
        token_seqs(joined_by_spaces(ts)) == ts,
    decreases ts.len(),
{
    broadcast use Seq::lemma_filter_push;

    if ts.len() == 0 {
        reveal(Seq::filter);
        assert(token_seqs(Seq::<char>::empty()) =~= Seq::<Seq<char>>::empty());
    } else {
        let t = ts.last();
        assert(keeps_token(ts[ts.len() - 1]));
        lemma_single_run(t);
        assert(token_filter()(t));
        assert(Seq::<Seq<char>>::empty().push(t) =~= seq![t]);
        reveal(Seq::filter);
        assert(token_seqs(t) == seq![t]);
        if ts.len() == 1 {
            assert(ts =~= seq![t]);
        } else {
            let p = ts.drop_last();
            assert forall|i: int| 0 <= i < p.len() implies {
                &&& keeps_token(#[trigger] p[i])
                &&& p[i].len() > 0
                &&& char_class(p[i][0]) != 0
                &&& forall|j: int| 0 <= j < p[i].len() ==> char_class(#[trigger] p[i][j]) == char_class(p[i][0])
            } by {
                assert(p[i] == ts[i]);
            }
            lemma_tokens_of_words(p);
            law_tokens_split_at_space(joined_by_spaces(p), t);
            assert(p + seq![t] =~= ts);
        }
    }
}

/// Every token is at least two bytes long in UTF-8 and made of characters of one word
/// class: ASCII letters, digits, `_` and `-`, or Hangul syllables.
pub proof fn law_tokens_are_words(s: Seq<char>)
    ensures
        forall|i: int|
            0 <= i < token_seqs(s).len() ==> {
                &&& keeps_token(#[trigger] token_seqs(s)[i])
                &&& token_seqs(s)[i].len() > 0
                &&& char_class(token_seqs(s)[i][0]) != 0
                &&& forall|j: int|
                    0 <= j < token_seqs(s)[i].len() ==> char_class(#[trigger] token_seqs(s)[i][j])
                        == char_class(token_seqs(s)[i][0])
            },
{
    lemma_word_runs_shape(s);
    let w = word_runs(s);
    assert forall|i: int| 0 <= i < token_seqs(s).len() implies {
        &&& keeps_token(#[trigger] token_seqs(s)[i])
        &&& token_seqs(s)[i].len() > 0
        &&& char_class(token_seqs(s)[i][0]) != 0
        &&& forall|j: int|
            0 <= j < token_seqs(s)[i].len() ==> char_class(#[trigger] token_seqs(s)[i][j])
                == char_class(token_seqs(s)[i][0])
    } by {
        let t = token_seqs(s)[i];
        w.lemma_filter_pred(token_filter(), i);
        assert(w.filter(token_filter()).contains(t));
        w.lemma_filter_contains_rev(token_filter(), t);
        assert(w.contains(t));
        let k = choose|k: int| 0 <= k < w.len() && w[k] == t;
        assert(w[k].len() > 0);
    }
}


/// An edge-kind filter follows exactly the kinds it lists; no filter follows every kind.
pub proof fn law_kind_filter_is_membership(ks: Seq<EdgeKind>, k: EdgeKind)
    ensures
        passes(Some(ks), k) <==> ks.contains(k),
        passes(None, k),
{
}

/// Under the filter `Some(ks)`, `neighbors` lists only neighbours reached over an edge
/// whose kind `ks` lists, and it lists every such stored edge that the node's index
/// names (leaving it unless the direction is `In`, entering it unless it is `Out`),
/// with the far end of the edge. `r` is what `neighbors(&n, dir, Some(ks))` returns.
pub proof fn law_neighbors_follow_listed_kinds<'a>(
    g: &AmureGraph,
    n: u128,
    dir: Direction,
    ks: Seq<EdgeKind>,
    r: Seq<(u128, &'a Edge)>,
)
    requires
        neighbor_listing(g.edges_view(), g.followed_out(n, dir, Some(ks)), g.followed_in(n, dir, Some(ks)), r),
    ensures
        forall|i: int| 0 <= i < r.len() ==> ks.contains(#[trigger] r[i].1.kind),
        forall|e: u128|
            dir != Direction::In && #[trigger] g.out_list(n).contains(e) && g.edges_view().contains_key(e)
                && ks.contains(g.edges_view()[e].kind) ==> exists|i: int|
                0 <= i < r.len() && r[i].0 == g.edges_view()[e].target && *r[i].1 == g.edges_view()[e],
        forall|e: u128|
            dir != Direction::Out && #[trigger] g.in_list(n).contains(e) && g.edges_view().contains_key(e)
                && ks.contains(g.edges_view()[e].kind) ==> exists|i: int|
                0 <= i < r.len() && r[i].0 == g.edges_view()[e].source && *r[i].1 == g.edges_view()[e],
{
    let edges = g.edges_view();
    let kf = kind_followed(edges, Some(ks));
    let fo = g.followed_out(n, dir, Some(ks));
    let fi = g.followed_in(n, dir, Some(ks));
    g.out_list(n).filter_lemma(kf);
    g.in_list(n).filter_lemma(kf);
    assert forall|i: int| 0 <= i < r.len() implies ks.contains(#[trigger] r[i].1.kind) by {
        if i < fo.len() {
            assert(kf(fo[i]));
            assert(r[i].0 == edges[fo[i]].target);
        } else {
            let j = i - fo.len();
            assert(kf(fi[j]));
            assert(r[fo.len() + j].0 == edges[fi[j]].source);
            assert(fo.len() + j == i);
        }
    }
    assert forall|e: u128|
        dir != Direction::In && #[trigger] g.out_list(n).contains(e) && edges.contains_key(e) && ks.contains(
            edges[e].kind,
        ) implies exists|i: int| 0 <= i < r.len() && r[i].0 == edges[e].target && *r[i].1 == edges[e] by {
        let l = g.out_list(n);
        let j = choose|j: int| 0 <= j < l.len() && l[j] == e;
        assert(kf(l[j]));
        assert(fo.contains(e));
        let i = choose|i: int| 0 <= i < fo.len() && fo[i] == e;
        assert(r[i].0 == edges[fo[i]].target);
    }
    assert forall|e: u128|
        dir != Direction::Out && #[trigger] g.in_list(n).contains(e) && edges.contains_key(e) && ks.contains(
            edges[e].kind,
        ) implies exists|i: int| 0 <= i < r.len() && r[i].0 == edges[e].source && *r[i].1 == edges[e] by {
        let l = g.in_list(n);
        let j = choose|j: int| 0 <= j < l.len() && l[j] == e;
        assert(kf(l[j]));
        assert(fi.contains(e));
        let i = choose|i: int| 0 <= i < fi.len() && fi[i] == e;
        assert(r[fo.len() + i].0 == edges[fi[i]].source);
    }
}

/// A status filter word other than `all` lets a status through exactly when it is that
/// status's name up to ASCII case; `all` (in any case) and no filter let every status
/// through.
pub proof fn law_status_filter_names_status(st: NodeStatus, f: Seq<char>)
    ensures
        !eq_ignore_ascii_case(f, "all"@) ==> (passes_status_filter(st, Some(f)) <==> eq_ignore_ascii_case(
            status_name(st),
            f,
        )),
        eq_ignore_ascii_case(f, "all"@) ==> passes_status_filter(st, Some(f)),
        passes_status_filter(st, None),
{
}

/// A status filter word other than `all` lets through at most one status.
pub proof fn law_status_filter_picks_one_status(a: NodeStatus, b: NodeStatus, f: Seq<char>)
    requires
        !eq_ignore_ascii_case(f, "all"@),
        passes_status_filter(a, Some(f)),
        passes_status_filter(b, Some(f)),
    ensures
        a == b,
{
    reveal_strlit("Draft");
    reveal_strlit("Accept");
    reveal_strlit("Decline");
    assert(status_name(a).len() == f.len());
    assert(status_name(b).len() == f.len());
}

/// ASCII letters and digits, `_` and `-`: the characters of a word.
pub open spec fn ascii_word_char(c: char) -> bool {
    ('a' <= c <= 'z') || ('A' <= c <= 'Z') || ('0' <= c <= '9') || c == '_' || c == '-'
}

/// ASCII letters, digits, `_` and `-` are all word characters of one class, so that a
/// word may mix them; no separator is among them.
pub proof fn law_ascii_word_chars_share_a_class(c: char)
    ensures
        ascii_word_char(c) ==> char_class(c) == char_class('a'),
        char_class('a') != 0,
        !ascii_word_char(c) && !('\u{AC00}' <= c <= '\u{D7A3}') ==> char_class(c) == 0,
{
}

/// A text of at least two ASCII letters, digits, `_` or `-` is one token, itself (of
/// already lower-cased text, as `tokenize_lowercased` takes it): so `2024` or `eth2`
/// is kept whole.
pub proof fn law_ascii_word_is_a_token(s: Seq<char>)
    requires
        s.len() >= 2,
        forall|j: int| 0 <= j < s.len() ==> ascii_word_char(#[trigger] s[j]),
    ensures
        token_seqs(s) == seq![s],
{
    assert forall|j: int| 0 <= j < s.len() implies char_class(#[trigger] s[j]) == char_class(s[0]) by {
        assert(ascii_word_char(s[0]));
        assert(ascii_word_char(s[j]));
    }
    assert(ascii_word_char(s[0]));
    lemma_single_run(s);
    lemma_keeps_token(s);
    assert(token_filter()(s));
    reveal(Seq::filter);
    assert(seq![s].filter(token_filter()) =~= seq![s]) by {
        Seq::<Seq<char>>::empty().lemma_filter_push(s, token_filter());
        assert(Seq::<Seq<char>>::empty().push(s) =~= seq![s]);
    }
}

} // verus!
