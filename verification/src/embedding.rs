//! What is made of an embedding service's reply: the vectors, each held as the bit
//! patterns of its `f32` components.

use vstd::prelude::*;

verus! {

/// The first embedding of a reply, if there is one.
pub fn first_embedding(data: Vec<Vec<u32>>) -> (r: Option<Vec<u32>>)
    ensures
        r == (if data@.len() > 0 {
            Some(data@[0])
        } else {
            None
        }),
{
    let mut data = data;
    if data.len() > 0 {
        Some(data.remove(0))
    } else {
        None
    }
}

/// `p` puts the items of `data` in order of their index, items with equal indexes
/// keeping the order they came in: it lists each position of `data` once.
pub open spec fn is_stable_index_order(data: Seq<(usize, Vec<u32>)>, p: Seq<int>) -> bool {
    &&& p.len() == data.len()
    &&& forall|i: int| 0 <= i < p.len() ==> 0 <= #[trigger] p[i] < data.len()
    &&& forall|i: int, j: int| 0 <= i < j < p.len() ==> #[trigger] p[i] != #[trigger] p[j]
    &&& forall|i: int, j: int|
        0 <= i < j < p.len() ==> #[trigger] data[p[i]].0 <= #[trigger] data[p[j]].0
    &&& forall|i: int, j: int|
        0 <= i < j < p.len() && #[trigger] data[p[i]].0 == #[trigger] data[p[j]].0 ==> p[i] < p[j]
}

/// The embeddings of a batch reply, in order of the index each came with; items with
/// equal indexes keep the order they came in.
pub fn order_by_index(data: Vec<(usize, Vec<u32>)>) -> (r: Vec<Vec<u32>>)
    ensures
        exists|p: Seq<int>|
            is_stable_index_order(data@, p) && r@.len() == data@.len() && forall|i: int|
                0 <= i < r@.len() ==> #[trigger] r@[i] == data@[p[i]].1,
{
    let ghost d = data@;
    let mut rest = data;
    let mut keys: Vec<usize> = Vec::new();
    let mut vals: Vec<Vec<u32>> = Vec::new();
    let ghost mut p: Seq<int> = Seq::empty();
    let mut k: usize = 0;
    let n = rest.len();
    while k < n
        invariant
            n == d.len(),
            k <= n,
            rest@ == d.skip(k as int),
            keys@.len() == k,
            vals@.len() == k,
            p.len() == k,
            forall|i: int| 0 <= i < k ==> 0 <= #[trigger] p[i] < k,
            forall|i: int, j: int| 0 <= i < j < k ==> #[trigger] p[i] != #[trigger] p[j],
            forall|i: int| 0 <= i < k ==> #[trigger] keys@[i] == d[p[i]].0 && vals@[i] == d[p[i]].1,
            forall|i: int, j: int| 0 <= i < j < k ==> #[trigger] keys@[i] <= #[trigger] keys@[j],
            forall|i: int, j: int|
                0 <= i < j < k && #[trigger] keys@[i] == #[trigger] keys@[j] ==> p[i] < p[j],
        decreases n - k,
    {
        let item = rest.remove(0);
        assert(item == d[k as int]);
        assert(rest@ =~= d.skip(k + 1));
        let key = item.0;
        let mut pos: usize = 0;
        while pos < keys.len() && keys[pos] <= key
            invariant
                pos <= keys@.len(),
                forall|q: int| 0 <= q < pos ==> #[trigger] keys@[q] <= key,
            decreases keys@.len() - pos,
        {
            pos = pos + 1;
        }
        let ghost k0 = keys@;
        let ghost v0 = vals@;
        let ghost p0 = p;
        proof {
            assert forall|q: int| pos <= q < k0.len() implies #[trigger] k0[q] > key by {
                if k0[q] <= key {
                    assert(k0[pos as int] <= k0[q]);
                }
            }
        }
        keys.insert(pos, key);
        vals.insert(pos, item.1);
        proof {
            p = p0.insert(pos as int, k as int);
            assert forall|i: int| 0 <= i < k + 1 implies 0 <= #[trigger] p[i] < k + 1 by {
                if i < pos {
                    assert(p[i] == p0[i]);
                } else if i > pos {
                    assert(p[i] == p0[i - 1]);
                }
            }
            assert forall|i: int| 0 <= i < k + 1 implies #[trigger] keys@[i] == d[p[i]].0
                && vals@[i] == d[p[i]].1 by {
                if i < pos {
                    assert(p[i] == p0[i] && keys@[i] == k0[i] && vals@[i] == v0[i]);
                } else if i > pos {
                    assert(p[i] == p0[i - 1] && keys@[i] == k0[i - 1] && vals@[i] == v0[i - 1]);
                }
            }
            assert forall|i: int, j: int| 0 <= i < j < k + 1 implies #[trigger] p[i] != #[trigger] p[j] by {
                if i != pos && j != pos {
                    let i0 = if i < pos { i } else { i - 1 };
                    let j0 = if j < pos { j } else { j - 1 };
                    assert(p[i] == p0[i0] && p[j] == p0[j0]);
                } else if i == pos {
                    let j0 = j - 1;
                    assert(p[j] == p0[j0]);
                } else {
                    assert(p[i] == p0[i]);
                }
            }
            assert forall|i: int, j: int| 0 <= i < j < k + 1 implies #[trigger] keys@[i]
                <= #[trigger] keys@[j] by {
                if i != pos && j != pos {
                    let i0 = if i < pos { i } else { i - 1 };
                    let j0 = if j < pos { j } else { j - 1 };
                    assert(keys@[i] == k0[i0] && keys@[j] == k0[j0]);
                } else if i == pos {
                    assert(keys@[j] == k0[j - 1]);
                } else {
                    assert(keys@[i] == k0[i]);
                }
            }
            assert forall|i: int, j: int| 0 <= i < j < k + 1 && #[trigger] keys@[i]
                == #[trigger] keys@[j] implies p[i] < p[j] by {
                if i != pos && j != pos {
                    let i0 = if i < pos { i } else { i - 1 };
                    let j0 = if j < pos { j } else { j - 1 };
                    assert(keys@[i] == k0[i0] && keys@[j] == k0[j0]);
                    assert(p[i] == p0[i0] && p[j] == p0[j0]);
                } else if i == pos {
                    assert(keys@[j] == k0[j - 1]);
                } else {
                    assert(keys@[i] == k0[i]);
                    assert(p[i] == p0[i]);
                }
            }
        }
        k = k + 1;
    }
    proof {
        assert forall|i: int, j: int| 0 <= i < j < p.len() implies #[trigger] d[p[i]].0 <= #[trigger] d[p[j]].0 by {
            assert(keys@[i] <= keys@[j]);
        }
        assert forall|i: int, j: int| 0 <= i < j < p.len() && #[trigger] d[p[i]].0 == #[trigger] d[p[j]].0 implies p[i] < p[j] by {
            assert(keys@[i] == keys@[j]);
        }
        assert(is_stable_index_order(d, p));
        assert(d == data@);
        assert forall|i: int| 0 <= i < vals@.len() implies #[trigger] vals@[i] == data@[p[i]].1 by {
            assert(keys@[i] == d[p[i]].0);
        }
        assert(is_stable_index_order(data@, p) && vals@.len() == data@.len());
    }
    vals
}

} // verus!
