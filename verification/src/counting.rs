//! Counting and summing over the keys of a map, one key at a time.

use vstd::prelude::*;

verus! {

/// The set of the first `i + 1` elements is that of the first `i` with one more; with
/// no duplicates, that one was not there yet.
pub proof fn lemma_take_to_set_push<A>(ks: Seq<A>, i: int)
    requires
        0 <= i < ks.len(),
    ensures
        ks.take(i + 1).to_set() == ks.take(i).to_set().insert(ks[i]),
        ks.no_duplicates() ==> !ks.take(i).to_set().contains(ks[i]),
{
    let t = ks.take(i);
    assert(ks.take(i + 1) =~= t.push(ks[i]));
    assert forall|x: A| #[trigger] t.push(ks[i]).to_set().contains(x) <==> t.to_set().insert(
        ks[i],
    ).contains(x) by {
        if t.push(ks[i]).contains(x) && x != ks[i] {
            let k = choose|k: int| 0 <= k < t.push(ks[i]).len() && t.push(ks[i])[k] == x;
            assert(t[k] == x);
        }
        if t.contains(x) {
            let k = choose|k: int| 0 <= k < t.len() && t[k] == x;
            assert(t.push(ks[i])[k] == x);
        }
        if x == ks[i] {
            assert(t.push(ks[i])[t.len() as int] == x);
        }
    }
    assert(ks.take(i + 1).to_set() =~= t.to_set().insert(ks[i]));
    if ks.no_duplicates() && t.to_set().contains(ks[i]) {
        let k = choose|k: int| 0 <= k < t.len() && t[k] == ks[i];
        assert(ks[k] == ks[i]);
    }
}

/// The whole sequence's set, and its length when there are no duplicates.
pub proof fn lemma_full_take_to_set<A>(ks: Seq<A>)
    ensures
        ks.take(ks.len() as int).to_set() == ks.to_set(),
        ks.take(0).to_set() == Set::<A>::empty(),
{
    assert(ks.take(ks.len() as int) =~= ks);
    assert(ks.take(0).to_set() =~= Set::<A>::empty());
}

/// Filtering a set with one more element.
pub proof fn lemma_filter_insert_len<A>(s: Set<A>, x: A, p: spec_fn(A) -> bool)
    requires
        s.finite(),
        !s.contains(x),
    ensures
        s.insert(x).filter(p).finite(),
        s.insert(x).filter(p).len() == s.filter(p).len() + (if p(x) {
            1int
        } else {
            0int
        }),
{
    s.lemma_len_filter(p);
    s.insert(x).lemma_len_filter(p);
    if p(x) {
        assert(s.insert(x).filter(p) =~= s.filter(p).insert(x));
    } else {
        assert(s.insert(x).filter(p) =~= s.filter(p));
    }
}

} // verus!
