//! Reachability along a neighbour relation, the measure that walks are held to.

use vstd::prelude::*;
use crate::edge::{Edge, EdgeKind};
use crate::graph::Direction;

verus! {

/// An optional list of edge kinds as a sequence.
pub open spec fn filter_view(f: Option<&[EdgeKind]>) -> Option<Seq<EdgeKind>> {
    match f {
        Some(s) => Some(s@),
        None => None,
    }
}

/// Whether an edge of kind `k` is followed under `filter`: always without a filter,
/// otherwise when `k` is one of the listed kinds.
pub open spec fn passes(filter: Option<Seq<EdgeKind>>, k: EdgeKind) -> bool {
    match filter {
        None => true,
        Some(ks) => ks.contains(k),
    }
}

/// Whether edge `e` joins `u` and `v`, in either direction.
pub open spec fn joins(e: Edge, u: u128, v: u128) -> bool {
    (e.source == u && e.target == v) || (e.target == u && e.source == v)
}

/// One hop: `v` is among the neighbours that `adj` lists for `u`.
pub open spec fn step(adj: spec_fn(u128) -> Seq<u128>, u: u128, v: u128) -> bool {
    adj(u).contains(v)
}

/// `p` is a walk: one hop between each node and the next.
pub open spec fn is_hop_path(adj: spec_fn(u128) -> Seq<u128>, p: Seq<u128>) -> bool {
    &&& p.len() >= 1
    &&& forall|i: int, j: int|
        0 <= i && j == i + 1 && j < p.len() ==> #[trigger] step(adj, p[i], p[j])
}

/// `v` can be reached from `s` in at most `k` hops.
pub open spec fn within(
    adj: spec_fn(u128) -> Seq<u128>,
    s: u128,
    v: u128,
    k: nat,
) -> bool {
    exists|p: Seq<u128>|
        #[trigger] is_hop_path(adj, p) && p[0] == s && p.last() == v && p.len() <= k + 1
}

/// The fewest hops from `s` to `v` are exactly `d`.
pub open spec fn hop_distance(
    adj: spec_fn(u128) -> Seq<u128>,
    s: u128,
    v: u128,
    d: nat,
) -> bool {
    &&& within(adj, s, v, d)
    &&& (d == 0 || !within(adj, s, v, (d - 1) as nat))
}

/// `r` is a breadth-first walk from `start` of at most `max_hops` hops: it starts with
/// `(start, 0)`, lists each node once with its fewest hops from `start`, in order of
/// those hops, and lists every node that can be reached within `max_hops`.
pub open spec fn is_bfs_walk(
    adj: spec_fn(u128) -> Seq<u128>,
    start: u128,
    max_hops: nat,
    r: Seq<(u128, usize)>,
) -> bool {
    &&& r.len() > 0
    &&& r[0] == (start, 0usize)
    &&& forall|i: int, j: int| 0 <= i < j < r.len() ==> #[trigger] r[i].0 != #[trigger] r[j].0
    &&& forall|i: int|
        0 <= i < r.len() ==> #[trigger] r[i].1 <= max_hops && hop_distance(
            adj,
            start,
            r[i].0,
            r[i].1 as nat,
        )
    &&& forall|i: int, j: int| 0 <= i <= j < r.len() ==> #[trigger] r[i].1 <= #[trigger] r[j].1
    &&& forall|v: u128, k: nat|
        k <= max_hops && #[trigger] within(adj, start, v, k) ==> exists|i: int|
            0 <= i < r.len() && #[trigger] r[i].0 == v
}

/// The neighbours `r` list the far end of each edge of `outs`, in order, then the near
/// end of each edge of `ins`, in order, each with its edge.
pub open spec fn neighbor_listing<'a>(
    edges: Map<u128, Edge>,
    outs: Seq<u128>,
    ins: Seq<u128>,
    r: Seq<(u128, &'a Edge)>,
) -> bool {
    &&& r.len() == outs.len() + ins.len()
    &&& forall|i: int|
        0 <= i < outs.len() ==> #[trigger] r[i].0 == edges[outs[i]].target && *r[i].1
            == edges[outs[i]]
    &&& forall|i: int|
        0 <= i < ins.len() ==> #[trigger] r[outs.len() + i].0 == edges[ins[i]].source
            && *r[outs.len() + i].1 == edges[ins[i]]
}

/// Within no hops, only the start is reached.
pub proof fn lemma_within_zero(
    adj: spec_fn(u128) -> Seq<u128>,
    s: u128,
    v: u128,
)
    ensures
        within(adj, s, v, 0) <==> v == s,
{
    if v == s {
        let p = seq![s];
        assert(is_hop_path(adj, p));
    }
}

/// Reaching within `j` hops implies reaching within any `k >= j`.
pub proof fn lemma_within_mono_le(
    adj: spec_fn(u128) -> Seq<u128>,
    s: u128,
    v: u128,
    j: nat,
    k: nat,
)
    requires
        within(adj, s, v, j),
        j <= k,
    ensures
        within(adj, s, v, k),
{
    let p = choose|p: Seq<u128>|
        #[trigger] is_hop_path(adj, p) && p[0] == s && p.last() == v && p.len() <= j + 1;
    assert(is_hop_path(adj, p));
}

/// One more hop from a node reached within `k` hops reaches within `k + 1`.
pub proof fn lemma_within_step(
    adj: spec_fn(u128) -> Seq<u128>,
    s: u128,
    u: u128,
    v: u128,
    k: nat,
)
    requires
        within(adj, s, u, k),
        step(adj, u, v),
    ensures
        within(adj, s, v, k + 1),
{
    let p = choose|p: Seq<u128>|
        #[trigger] is_hop_path(adj, p) && p[0] == s && p.last() == u && p.len() <= k + 1;
    let q = p.push(v);
    assert forall|i: int, j: int| 0 <= i && j == i + 1 && j < q.len() implies #[trigger] step(
        adj,
        q[i],
        q[j],
    ) by {
        if j < p.len() {
            assert(q[i] == p[i] && q[j] == p[j]);
            assert(step(adj, p[i], p[j]));
        } else {
            assert(q[i] == u && q[j] == v);
        }
    }
    assert(is_hop_path(adj, q));
}

/// A node first reached in `k + 1` hops has a neighbour reached within `k`.
pub proof fn lemma_within_pred(
    adj: spec_fn(u128) -> Seq<u128>,
    s: u128,
    v: u128,
    k: nat,
) -> (u: u128)
    requires
        within(adj, s, v, k + 1),
        !within(adj, s, v, k),
    ensures
        within(adj, s, u, k),
        step(adj, u, v),
{
    let p = choose|p: Seq<u128>|
        #[trigger] is_hop_path(adj, p) && p[0] == s && p.last() == v && p.len() <= k + 2;
    assert(p.len() == k + 2);
    let q = p.drop_last();
    let u = q.last();
    assert forall|i: int, j: int| 0 <= i && j == i + 1 && j < q.len() implies #[trigger] step(
        adj,
        q[i],
        q[j],
    ) by {
        assert(q[i] == p[i] && q[j] == p[j]);
        assert(step(adj, p[i], p[j]));
    }
    assert(is_hop_path(adj, q));
    assert(q[0] == s);
    assert(step(adj, p[k as int], p[(k + 1) as int]));
    u
}

/// Once one more hop reaches nothing new, no number of hops does.
pub proof fn lemma_within_stable(
    adj: spec_fn(u128) -> Seq<u128>,
    s: u128,
    d: nat,
    v: u128,
    k: nat,
)
    requires
        forall|w: u128| #[trigger]
            within(adj, s, w, d + 1) ==> within(adj, s, w, d),
        within(adj, s, v, k),
    ensures
        within(adj, s, v, d),
    decreases k,
{
    if k <= d {
        lemma_within_mono_le(adj, s, v, k, d);
    } else if within(adj, s, v, (k - 1) as nat) {
        lemma_within_stable(adj, s, d, v, (k - 1) as nat);
    } else {
        let u = lemma_within_pred(adj, s, v, (k - 1) as nat);
        lemma_within_stable(adj, s, d, u, (k - 1) as nat);
        lemma_within_step(adj, s, u, v, d);
    }
}

} // verus!

verus! {

/// A node has one fewest number of hops.
pub proof fn lemma_hop_distance_unique(
    adj: spec_fn(u128) -> Seq<u128>,
    s: u128,
    v: u128,
    d1: nat,
    d2: nat,
)
    requires
        hop_distance(adj, s, v, d1),
        hop_distance(adj, s, v, d2),
    ensures
        d1 == d2,
{
    if d1 < d2 {
        lemma_within_mono_le(adj, s, v, d1, (d2 - 1) as nat);
    } else if d2 < d1 {
        lemma_within_mono_le(adj, s, v, d2, (d1 - 1) as nat);
    }
}

/// Whether `v` is listed in a walk.
pub open spec fn listed(r: Seq<(u128, usize)>, v: u128) -> bool {
    exists|i: int| 0 <= i < r.len() && #[trigger] r[i].0 == v
}

/// The state of a breadth-first walk part-way through the layer after `depth`: the
/// first `lvl_start` entries are the nodes within `depth` hops, the rest are the nodes
/// of `next`, each first reached in `depth + 1` hops; every entry is listed once and with
/// its fewest hops.
pub open spec fn layer_state(
    adj: spec_fn(u128) -> Seq<u128>,
    s: u128,
    depth: nat,
    lvl_start: int,
    visited: Set<u128>,
    r: Seq<(u128, usize)>,
    next: Seq<u128>,
) -> bool {
    &&& 0 < lvl_start <= r.len()
    &&& r[0] == (s, 0usize)
    &&& r.len() == lvl_start + next.len()
    &&& forall|t: int| 0 <= t < next.len() ==> #[trigger] r[lvl_start + t] == (next[t], (depth + 1) as usize)
    &&& forall|i: int| 0 <= i < lvl_start ==> #[trigger] r[i].1 <= depth
    &&& forall|i: int, j: int| 0 <= i <= j < lvl_start ==> #[trigger] r[i].1 <= #[trigger] r[j].1
    &&& forall|i: int, j: int| 0 <= i < j < r.len() ==> #[trigger] r[i].0 != #[trigger] r[j].0
    &&& forall|v: u128| #[trigger] visited.contains(v) <==> listed(r, v)
    &&& forall|i: int| 0 <= i < r.len() ==> hop_distance(adj, s, #[trigger] r[i].0, r[i].1 as nat)
    &&& forall|v: u128| #[trigger] within(adj, s, v, depth) ==> visited.contains(v)
}


/// Adding a node first reached in `depth + 1` hops to the layer being built keeps the
/// layer's state.
pub(crate) proof fn lemma_layer_push(
    adj: spec_fn(u128) -> Seq<u128>,
    s: u128,
    depth: nat,
    lvl_start: int,
    visited: Set<u128>,
    r: Seq<(u128, usize)>,
    next: Seq<u128>,
    v: u128,
)
    requires
        depth + 1 <= usize::MAX,
        layer_state(adj, s, depth, lvl_start, visited, r, next),
        !visited.contains(v),
        hop_distance(adj, s, v, depth + 1),
    ensures
        layer_state(
            adj,
            s,
            depth,
            lvl_start,
            visited.insert(v),
            r.push((v, (depth + 1) as usize)),
            next.push(v),
        ),
{
    let r2 = r.push((v, (depth + 1) as usize));
    let n2 = next.push(v);
    assert(!listed(r, v));
    assert forall|t: int| 0 <= t < n2.len() implies #[trigger] r2[lvl_start + t] == (n2[t], (depth
        + 1) as usize) by {
        if t < next.len() {
            assert(r2[lvl_start + t] == r[lvl_start + t]);
        }
    }
    assert forall|i: int| 0 <= i < lvl_start implies #[trigger] r2[i].1 <= depth by {
        assert(r2[i] == r[i]);
    }
    assert forall|i: int, j: int| 0 <= i <= j < lvl_start implies #[trigger] r2[i].1
        <= #[trigger] r2[j].1 by {
        assert(r2[i] == r[i] && r2[j] == r[j]);
    }
    assert forall|i: int, j: int| 0 <= i < j < r2.len() implies #[trigger] r2[i].0
        != #[trigger] r2[j].0 by {
        if j < r.len() {
            assert(r2[i] == r[i] && r2[j] == r[j]);
        } else {
            assert(r2[i] == r[i]);
            if r[i].0 == v {
                assert(listed(r, v));
            }
        }
    }
    assert forall|w: u128| #[trigger] visited.insert(v).contains(w) <==> listed(r2, w) by {
        if listed(r2, w) {
            let i = choose|i: int| 0 <= i < r2.len() && #[trigger] r2[i].0 == w;
            if i < r.len() {
                assert(r2[i] == r[i]);
                assert(listed(r, w));
            }
        }
        if listed(r, w) {
            let i = choose|i: int| 0 <= i < r.len() && #[trigger] r[i].0 == w;
            assert(r2[i] == r[i]);
        }
        if w == v {
            assert(r2[r.len() as int].0 == v);
        }
    }
    assert forall|i: int| 0 <= i < r2.len() implies hop_distance(
        adj,
        s,
        #[trigger] r2[i].0,
        r2[i].1 as nat,
    ) by {
        if i < r.len() {
            assert(r2[i] == r[i]);
        }
    }
}


/// The elements of `cands`, in order, that are neither in `seen` nor earlier in `cands`.
pub open spec fn fresh(cands: Seq<u128>, seen: Set<u128>) -> Seq<u128>
    decreases cands.len(),
{
    if cands.len() == 0 {
        Seq::empty()
    } else {
        let p = fresh(cands.drop_last(), seen);
        let x = cands.last();
        if seen.contains(x) || p.contains(x) {
            p
        } else {
            p.push(x)
        }
    }
}

/// The nodes of a sequence of layers, layer by layer, each with the number of its layer.
pub open spec fn labelled(layers: Seq<Seq<u128>>) -> Seq<(u128, usize)>
    decreases layers.len(),
{
    if layers.len() == 0 {
        Seq::empty()
    } else {
        labelled(layers.drop_last()) + layers.last().map_values(|v: u128| (v, (layers.len() - 1) as usize))
    }
}

/// The nodes listed in a walk, as a set.
pub open spec fn listed_set(r: Seq<(u128, usize)>) -> Set<u128> {
    Set::new(|v: u128| listed(r, v))
}

/// Considering one more candidate: it is added when it is new.
pub proof fn lemma_fresh_push(cands: Seq<u128>, seen: Set<u128>, x: u128)
    ensures
        fresh(cands.push(x), seen) == if seen.contains(x) || fresh(cands, seen).contains(x) {
            fresh(cands, seen)
        } else {
            fresh(cands, seen).push(x)
        },
{
    assert(cands.push(x).drop_last() =~= cands);
}

/// Adding a layer lists its nodes after those of the earlier layers, with its number.
pub proof fn lemma_labelled_push(layers: Seq<Seq<u128>>, l: Seq<u128>)
    ensures
        labelled(layers.push(l)) == labelled(layers) + l.map_values(|v: u128| (v, layers.len() as usize)),
{
    assert(layers.push(l).drop_last() =~= layers);
}

/// Part-way through a layer, a node has been seen exactly when it was listed before the
/// layer began or has been added to the layer.
pub(crate) proof fn lemma_visited_split(
    adj: spec_fn(u128) -> Seq<u128>,
    s: u128,
    depth: nat,
    lvl_start: int,
    visited: Set<u128>,
    r: Seq<(u128, usize)>,
    next: Seq<u128>,
    seen: Set<u128>,
)
    requires
        layer_state(adj, s, depth, lvl_start, visited, r, next),
        forall|v: u128| #[trigger] seen.contains(v) <==> exists|i: int| 0 <= i < lvl_start && r[i].0 == v,
    ensures
        forall|v: u128| #[trigger] visited.contains(v) <==> (seen.contains(v) || next.contains(v)),
{
    assert forall|v: u128| #[trigger] visited.contains(v) <==> (seen.contains(v) || next.contains(v)) by {
        if visited.contains(v) {
            let i = choose|i: int| 0 <= i < r.len() && #[trigger] r[i].0 == v;
            if i >= lvl_start {
                assert(r[lvl_start + (i - lvl_start)] == (next[i - lvl_start], (depth + 1) as usize));
                assert(next[i - lvl_start] == v);
            }
        }
        if seen.contains(v) {
            let i = choose|i: int| 0 <= i < lvl_start && r[i].0 == v;
            assert(listed(r, v));
        }
        if next.contains(v) {
            let t = choose|t: int| 0 <= t < next.len() && next[t] == v;
            assert(r[lvl_start + t] == (next[t], (depth + 1) as usize));
            assert(r[lvl_start + t].0 == v);
            assert(listed(r, v));
        }
    }
}


/// Walk entries at most `k` hops from the start, as a predicate.
pub open spec fn within_depth(k: nat) -> spec_fn((u128, usize)) -> bool {
    |p: (u128, usize)| p.1 <= k
}

/// Each entry of a layered listing carries the number of its layer, below the number
/// of layers, when layer numbers fit in a `usize`.
pub proof fn lemma_labelled_depths(layers: Seq<Seq<u128>>)
    requires
        layers.len() <= usize::MAX + 1,
    ensures
        forall|i: int| 0 <= i < labelled(layers).len() ==> (#[trigger] labelled(layers)[i]).1 < layers.len(),
    decreases layers.len(),
{
    if layers.len() > 0 {
        let prev = layers.drop_last();
        lemma_labelled_depths(prev);
        assert(prev.push(layers.last()) =~= layers);
        lemma_labelled_push(prev, layers.last());
        let a = labelled(prev);
        let b = layers.last().map_values(|v: u128| (v, prev.len() as usize));
        assert forall|i: int| 0 <= i < labelled(layers).len() implies (#[trigger] labelled(layers)[i]).1
            < layers.len() by {
            if i < a.len() {
                assert(labelled(layers)[i] == a[i]);
            } else {
                assert(labelled(layers)[i] == b[i - a.len()]);
            }
        }
    }
}

} // verus!
