//! The per-node lists of edge identifiers that index a graph's edges, and what keeps
//! them correct.

use vstd::prelude::*;
use crate::edge::Edge;

verus! {

/// The end of an edge that an index list is kept by: its source for an outgoing
/// index, its target otherwise.
pub open spec fn indexed_end(e: Edge, outgoing: bool) -> u128 {
    if outgoing {
        e.source
    } else {
        e.target
    }
}

/// An index list of node `n`: identifiers of existing edges, each once, whose source
/// (`outgoing`) or target (otherwise) is `n`.
pub open spec fn index_list_ok(list: Seq<u128>, edges: Map<u128, Edge>, n: u128, outgoing: bool) -> bool {
    &&& list.no_duplicates()
    &&& forall|i: int|
        0 <= i < list.len() ==> #[trigger] edges.contains_key(list[i]) && indexed_end(
            edges[list[i]],
            outgoing,
        ) == n
}

/// The far end of an edge seen from the end that an index list is kept by.
pub open spec fn other_end(e: Edge, outgoing: bool) -> u128 {
    if outgoing {
        e.target
    } else {
        e.source
    }
}

/// Appending an element that is not yet there keeps a sequence free of duplicates.
pub proof fn lemma_push_no_duplicates<A>(s: Seq<A>, x: A)
    requires
        s.no_duplicates(),
        !s.contains(x),
    ensures
        s.push(x).no_duplicates(),
{
    assert forall|i: int, j: int| 0 <= i < j < s.push(x).len() implies s.push(x)[i] != s.push(
        x,
    )[j] by {
        if j == s.len() {
            assert(s.push(x)[i] == s[i]);
        } else {
            assert(s.push(x)[i] == s[i] && s.push(x)[j] == s[j]);
        }
    }
}

/// Listing a new edge at the end of one index list keeps every index list correct.
pub(crate) proof fn lemma_enlist_keeps_index(
    idx0: Map<u128, Vec<u128>>,
    idx1: Map<u128, Vec<u128>>,
    edges0: Map<u128, Edge>,
    edges1: Map<u128, Edge>,
    key: u128,
    id: u128,
    outgoing: bool,
)
    requires
        forall|n: u128| #[trigger] idx0.contains_key(n) ==> index_list_ok(idx0[n]@, edges0, n, outgoing),
        !edges0.contains_key(id),
        edges1.contains_key(id),
        forall|x: u128| x != id ==> #[trigger] edges1.get(x) == edges0.get(x),
        indexed_end(edges1[id], outgoing) == key,
        idx1.dom() == idx0.dom().insert(key),
        forall|k: u128| k != key ==> #[trigger] idx1.get(k) == idx0.get(k),
        idx1[key]@ == (if idx0.contains_key(key) { idx0[key]@ } else { Seq::empty() }).push(id),
    ensures
        forall|n: u128| #[trigger] idx1.contains_key(n) ==> index_list_ok(idx1[n]@, edges1, n, outgoing),
{
    assert forall|n: u128| #[trigger] idx1.contains_key(n) implies index_list_ok(idx1[n]@, edges1, n, outgoing) by {
        let l = idx1[n]@;
        if n == key {
            let l0 = if idx0.contains_key(key) { idx0[key]@ } else { Seq::<u128>::empty() };
            assert(!l0.contains(id)) by {
                if l0.contains(id) {
                    let k = choose|k: int| 0 <= k < l0.len() && l0[k] == id;
                    assert(edges0.contains_key(l0[k]));
                }
            }
            lemma_push_no_duplicates(l0, id);
            assert(l == l0.push(id));
            assert(l.no_duplicates());
            assert forall|i: int| 0 <= i < l.len() implies {
                &&& #[trigger] edges1.contains_key(l[i])
                &&& indexed_end(edges1[l[i]], outgoing) == n
            } by {
                if i < l0.len() {
                    assert(l[i] == l0[i]);
                    assert(edges0.contains_key(l0[i]));
                    assert(edges1.get(l0[i]) == edges0.get(l0[i]));
                }
            }
            assert(index_list_ok(l, edges1, n, outgoing));
        } else {
            assert(idx1.get(n) == idx0.get(n));
            assert(index_list_ok(l, edges0, n, outgoing));
            assert forall|i: int| 0 <= i < l.len() implies {
                &&& #[trigger] edges1.contains_key(l[i])
                &&& indexed_end(edges1[l[i]], outgoing) == n
            } by {
                assert(edges0.contains_key(l[i]));
                assert(edges1.get(l[i]) == edges0.get(l[i]));
            }
            assert(l.no_duplicates());
            assert(index_list_ok(l, edges1, n, outgoing));
        }
    }
}


/// Every identifier but `x`, as a predicate.
pub open spec fn other_than(x: u128) -> spec_fn(u128) -> bool {
    |y: u128| y != x
}

/// Filtering by two predicates one after the other keeps what both keep.
pub proof fn lemma_filter_filter(s: Seq<u128>, p: spec_fn(u128) -> bool, q: spec_fn(u128) -> bool)
    ensures
        s.filter(p).filter(q) == s.filter(|x: u128| p(x) && q(x)),
    decreases s.len(),
{
    broadcast use Seq::lemma_filter_push;

    let pq = |x: u128| p(x) && q(x);
    if s.len() == 0 {
        reveal(Seq::filter);
        assert(s.filter(p).filter(q) =~= s.filter(pq));
    } else {
        let t = s.drop_last();
        let x = s.last();
        lemma_filter_filter(t, p, q);
        assert(s =~= t.push(x));
        assert(s.filter(p) == if p(x) { t.filter(p).push(x) } else { t.filter(p) });
        if p(x) {
            assert(t.filter(p).push(x).filter(q) == if q(x) { t.filter(p).filter(q).push(x) } else { t.filter(p).filter(q) });
        }
        assert(t.push(x).filter(pq) == if pq(x) { t.filter(pq).push(x) } else { t.filter(pq) });
    }
}

/// Filtering by predicates that agree on every element gives the same sequence.
pub proof fn lemma_filter_agree(s: Seq<u128>, p: spec_fn(u128) -> bool, q: spec_fn(u128) -> bool)
    requires
        forall|i: int| 0 <= i < s.len() ==> p(#[trigger] s[i]) == q(s[i]),
    ensures
        s.filter(p) == s.filter(q),
    decreases s.len(),
{
    broadcast use Seq::lemma_filter_push;

    if s.len() == 0 {
        reveal(Seq::filter);
    } else {
        let t = s.drop_last();
        let x = s.last();
        assert forall|i: int| 0 <= i < t.len() implies p(#[trigger] t[i]) == q(t[i]) by {
            assert(t[i] == s[i]);
        }
        lemma_filter_agree(t, p, q);
        assert(s =~= t.push(x));
        assert(p(s[s.len() - 1]) == q(s[s.len() - 1]));
        assert(t.push(x).filter(p) == if p(x) { t.filter(p).push(x) } else { t.filter(p) });
        assert(t.push(x).filter(q) == if q(x) { t.filter(q).push(x) } else { t.filter(q) });
    }
}

/// Filtering changes nothing when the predicate keeps every element.
pub proof fn lemma_filter_all<A>(s: Seq<A>, p: spec_fn(A) -> bool)
    requires
        forall|i: int| 0 <= i < s.len() ==> p(#[trigger] s[i]),
    ensures
        s.filter(p) == s,
    decreases s.len(),
{
    broadcast use Seq::lemma_filter_push;

    if s.len() == 0 {
        reveal(Seq::filter);
    } else {
        let t = s.drop_last();
        assert forall|i: int| 0 <= i < t.len() implies p(#[trigger] t[i]) by {
            assert(t[i] == s[i]);
        }
        lemma_filter_all(t, p);
        assert(s =~= t.push(s.last()));
        assert(p(s[s.len() - 1]));
    }
}


/// Filtering keeps nothing when the predicate keeps no element.
pub proof fn lemma_filter_none<A>(s: Seq<A>, p: spec_fn(A) -> bool)
    requires
        forall|i: int| 0 <= i < s.len() ==> !p(#[trigger] s[i]),
    ensures
        s.filter(p) == Seq::<A>::empty(),
    decreases s.len(),
{
    broadcast use Seq::lemma_filter_push;

    if s.len() == 0 {
        reveal(Seq::filter);
    } else {
        let t = s.drop_last();
        assert forall|i: int| 0 <= i < t.len() implies !p(#[trigger] t[i]) by {
            assert(t[i] == s[i]);
        }
        lemma_filter_none(t, p);
        assert(s =~= t.push(s.last()));
        assert(!p(s[s.len() - 1]));
    }
}

} // verus!
