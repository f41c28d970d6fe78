//! Lookup in a sequence of entries keyed by byte strings.

use vstd::prelude::*;

verus! {

/// The first index at or after `i` whose key is `k`.
pub open spec fn key_index_from<V>(order: Seq<(Seq<u8>, V)>, k: Seq<u8>, i: int) -> Option<int>
    decreases order.len() - i,
{
    if i < 0 || i >= order.len() {
        None
    } else if order[i].0 == k {
        Some(i)
    } else {
        key_index_from(order, k, i + 1)
    }
}

/// The index of the entry whose key is `k`.
pub open spec fn key_index<V>(order: Seq<(Seq<u8>, V)>, k: Seq<u8>) -> Option<int> {
    key_index_from(order, k, 0)
}

/// No key occurs twice.
pub open spec fn keys_distinct<V>(order: Seq<(Seq<u8>, V)>) -> bool {
    forall|i: int, j: int| 0 <= i < j < order.len() ==> order[i].0 != order[j].0
}

pub proof fn lemma_key_index_from<V>(order: Seq<(Seq<u8>, V)>, k: Seq<u8>, i: int)
    requires
        0 <= i,
    ensures
        match key_index_from(order, k, i) {
            Some(j) => i <= j < order.len() && order[j].0 == k && forall|m: int|
                i <= m < j ==> order[m].0 != k,
            None => forall|m: int| i <= m < order.len() ==> order[m].0 != k,
        },
    decreases order.len() - i,
{
    if i < order.len() && order[i].0 != k {
        lemma_key_index_from(order, k, i + 1);
    }
}

/// With distinct keys, `key_index` finds exactly the entry holding `k`.
pub proof fn lemma_key_index<V>(order: Seq<(Seq<u8>, V)>, k: Seq<u8>)
    requires
        keys_distinct(order),
    ensures
        match key_index(order, k) {
            Some(j) => 0 <= j < order.len() && order[j].0 == k,
            None => forall|m: int| 0 <= m < order.len() ==> order[m].0 != k,
        },
        forall|m: int| 0 <= m < order.len() && order[m].0 == k ==> key_index(order, k) == Some(m),
{
    lemma_key_index_from(order, k, 0);
}

/// An entry is found at the index where it stands.
pub proof fn lemma_key_index_at<V>(order: Seq<(Seq<u8>, V)>, m: int)
    requires
        keys_distinct(order),
        0 <= m < order.len(),
    ensures
        key_index(order, order[m].0) == Some(m),
{
    lemma_key_index(order, order[m].0);
}

/// Removing an entry keeps the keys distinct, removes its key, and keeps
/// every other entry's key.
pub proof fn lemma_remove_entry<V>(order: Seq<(Seq<u8>, V)>, j: int)
    requires
        keys_distinct(order),
        0 <= j < order.len(),
    ensures
        keys_distinct(order.remove(j)),
        forall|a: int| 0 <= a < order.remove(j).len() ==> order.remove(j)[a].0 != order[j].0,
        forall|m: int| 0 <= m < order.len() && m != j ==> order.remove(j)[if m < j { m } else { m - 1 }] == order[m],
{
    let base = order.remove(j);
    assert forall|a: int, b: int| 0 <= a < b < base.len() implies base[a].0 != base[b].0 by {
        let ia = if a < j { a } else { a + 1 };
        let ib = if b < j { b } else { b + 1 };
        assert(base[a] == order[ia] && base[b] == order[ib]);
    }
    assert forall|a: int| 0 <= a < base.len() implies base[a].0 != order[j].0 by {
        let ia = if a < j { a } else { a + 1 };
        assert(base[a] == order[ia]);
    }
}

} // verus!
