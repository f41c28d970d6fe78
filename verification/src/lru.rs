//! A bounded cache of file contents that evicts the least recently used
//! entry.

use vstd::prelude::*;
use crate::bytes::bytes_eq;
use crate::keyed::{key_index, keys_distinct, lemma_key_index, lemma_key_index_at};

verus! {

/// The cache's entries as (key, value) pairs, least recently used first.
pub type CacheOrder = Seq<(Seq<u8>, Seq<u8>)>;

/// The value stored under `k`.
pub open spec fn lookup(order: CacheOrder, k: Seq<u8>) -> Option<Seq<u8>> {
    match key_index(order, k) {
        Some(j) => Some(order[j].1),
        None => None,
    }
}

/// The order after a lookup of `k`: a hit moves the entry to the most
/// recently used end.
pub open spec fn touch(order: CacheOrder, k: Seq<u8>) -> CacheOrder {
    match key_index(order, k) {
        Some(j) => order.remove(j).push(order[j]),
        None => order,
    }
}

/// The order after storing `v` under `k` in a cache that holds at most
/// `cap` entries: any old entry for `k` goes, the new one becomes the most
/// recently used, and if that makes too many the least recently used goes.
pub open spec fn store(order: CacheOrder, cap: nat, k: Seq<u8>, v: Seq<u8>) -> CacheOrder {
    let base = match key_index(order, k) {
        Some(j) => order.remove(j),
        None => order,
    };
    let grown = base.push((k, v));
    if grown.len() > cap {
        grown.drop_first()
    } else {
        grown
    }
}

/// A cache entry: the file's path and its bytes.
pub struct CacheEntry {
    pub key: Vec<u8>,
    pub value: Vec<u8>,
}

/// A cache holding at most `capacity` entries, evicting the least recently
/// used one when full.
pub struct LruCache {
    capacity: usize,
    entries: Vec<CacheEntry>,
}

impl LruCache {
    /// The entries, least recently used first.
    pub closed spec fn order(&self) -> CacheOrder {
        self.entries@.map_values(|e: CacheEntry| (e.key@, e.value@))
    }

    /// The most entries the cache holds.
    pub closed spec fn cap(&self) -> nat {
        self.capacity as nat
    }

    /// Keys are distinct and there are no more entries than the capacity.
    pub open spec fn wf(&self) -> bool {
        &&& keys_distinct(self.order())
        &&& self.order().len() <= self.cap()
    }

    /// An empty cache that holds at most `capacity` entries.
    pub fn new(capacity: usize) -> (c: Self)
        ensures
            c.wf(),
            c.order() == Seq::<(Seq<u8>, Seq<u8>)>::empty(),
            c.cap() == capacity,
    {
        let c = LruCache { capacity, entries: Vec::new() };
        assert(c.order() =~= Seq::<(Seq<u8>, Seq<u8>)>::empty());
        c
    }

    /// The number of entries.
    pub fn len(&self) -> (n: usize)
        ensures
            n == self.order().len(),
    {
        self.entries.len()
    }

    /// The most entries the cache holds.
    pub fn capacity(&self) -> (n: usize)
        ensures
            n == self.cap(),
    {
        self.capacity
    }

    fn position(&self, key: &Vec<u8>) -> (r: Option<usize>)
        requires
            self.wf(),
        ensures
            match r {
                Some(j) => key_index(self.order(), key@) == Some(j as int),
                None => key_index(self.order(), key@) is None,
            },
    {
        proof {
            lemma_key_index(self.order(), key@);
        }
        let mut i: usize = 0;
        while i < self.entries.len()
            invariant
                self.wf(),
                i <= self.entries.len(),
                forall|m: int| 0 <= m < i ==> self.order()[m].0 != key@,
                forall|m: int|
                    0 <= m < self.order().len() && self.order()[m].0 == key@ ==> key_index(
                        self.order(),
                        key@,
                    ) == Some(m),
                match key_index(self.order(), key@) {
                    Some(j) => 0 <= j < self.order().len() && self.order()[j].0 == key@,
                    None => forall|m: int|
                        0 <= m < self.order().len() ==> self.order()[m].0 != key@,
                },
            decreases self.entries.len() - i,
        {
            assert(self.order()[i as int] == (self.entries@[i as int].key@, self.entries@[i as int].value@));
            if bytes_eq(&self.entries[i].key, key) {
                return Some(i);
            }
            i = i + 1;
        }
        None
    }

    /// The bytes stored under `key`, if any; a hit makes the entry the most
    /// recently used.
    pub fn get(&mut self, key: &Vec<u8>) -> (r: Option<Vec<u8>>)
        requires
            old(self).wf(),
        ensures
            final(self).wf(),
            final(self).cap() == old(self).cap(),
            final(self).order() == touch(old(self).order(), key@),
            match r {
                Some(v) => lookup(old(self).order(), key@) == Some(v@),
                None => lookup(old(self).order(), key@) is None,
            },
    {
        let ghost o = self.order();
        proof {
            lemma_key_index(o, key@);
        }
        match self.position(key) {
            None => None,
            Some(j) => {
                let e = self.entries.remove(j);
                let v = e.value.clone();
                assert(v@ =~= e.value@);
                self.entries.push(e);
                assert(self.order() =~= o.remove(j as int).push(o[j as int]));
                proof {
                    let n = self.order();
                    assert forall|a: int, b: int| 0 <= a < b < n.len() implies n[a].0 != n[b].0 by {
                        let ia = if a < j { a } else { a + 1 };
                        if b < n.len() - 1 {
                            let ib = if b < j { b } else { b + 1 };
                            assert(n[a] == o[ia] && n[b] == o[ib]);
                        } else {
                            assert(n[a] == o[ia] && n[b] == o[j as int]);
                        }
                    }
                }
                Some(v)
            },
        }
    }

    /// Stores `value` under `key` as the most recently used entry, evicting
    /// the least recently used entry if the cache would hold too many.
    pub fn put(&mut self, key: Vec<u8>, value: Vec<u8>)
        requires
            old(self).wf(),
        ensures
            final(self).wf(),
            final(self).cap() == old(self).cap(),
            final(self).order() == store(old(self).order(), old(self).cap(), key@, value@),
    {
        let ghost o = self.order();
        let ghost k = key@;
        let ghost v = value@;
        let pos = self.position(&key);
        proof {
            lemma_key_index(o, k);
        }
        let ghost base = match key_index(o, k) {
            Some(j) => o.remove(j),
            None => o,
        };
        match pos {
            Some(j) => {
                self.entries.remove(j);
                assert(self.order() =~= o.remove(j as int));
            },
            None => {},
        }
        assert(self.order() == base);
        proof {
            lemma_key_index(o, k);
            assert forall|a: int, b: int| 0 <= a < b < base.len() implies base[a].0 != base[b].0 by {
                match key_index(o, k) {
                    Some(j) => {
                        let ia = if a < j { a } else { a + 1 };
                        let ib = if b < j { b } else { b + 1 };
                        assert(base[a] == o[ia] && base[b] == o[ib]);
                    },
                    None => {},
                }
            }
            assert forall|a: int| 0 <= a < base.len() implies base[a].0 != k by {
                match key_index(o, k) {
                    Some(j) => {
                        let ia = if a < j { a } else { a + 1 };
                        assert(base[a] == o[ia]);
                    },
                    None => {},
                }
            }
        }
        self.entries.push(CacheEntry { key, value });
        let ghost grown = base.push((k, v));
        assert(self.order() =~= grown);
        if self.entries.len() > self.capacity {
            self.entries.remove(0);
            assert(self.order() =~= grown.drop_first());
        }
        proof {
            let n = self.order();
            assert forall|a: int, b: int| 0 <= a < b < n.len() implies n[a].0 != n[b].0 by {
                if n.len() == grown.len() {
                    assert(n[a] == grown[a] && n[b] == grown[b]);
                } else {
                    assert(n[a] == grown[a + 1] && n[b] == grown[b + 1]);
                }
            }
        }
    }
}


proof fn lemma_store_shape(order: CacheOrder, cap: nat, k: Seq<u8>, v: Seq<u8>)
    requires
        keys_distinct(order),
        order.len() <= cap,
    ensures
        keys_distinct(store(order, cap, k, v)),
        cap > 0 ==> store(order, cap, k, v).len() > 0 && store(order, cap, k, v).last() == (k, v),
        forall|m: int|
            0 <= m < store(order, cap, k, v).len() - 1 ==> store(order, cap, k, v)[m].0 != k,
{
    lemma_key_index(order, k);
    let base = match key_index(order, k) {
        Some(j) => order.remove(j),
        None => order,
    };
    assert forall|a: int, b: int| 0 <= a < b < base.len() implies base[a].0 != base[b].0 by {
        match key_index(order, k) {
            Some(j) => {
                let ia = if a < j { a } else { a + 1 };
                let ib = if b < j { b } else { b + 1 };
                assert(base[a] == order[ia] && base[b] == order[ib]);
            },
            None => {},
        }
    }
    assert forall|a: int| 0 <= a < base.len() implies base[a].0 != k by {
        match key_index(order, k) {
            Some(j) => {
                let ia = if a < j { a } else { a + 1 };
                assert(base[a] == order[ia]);
            },
            None => {},
        }
    }
    let grown = base.push((k, v));
    let n = store(order, cap, k, v);
    assert forall|a: int, b: int| 0 <= a < b < n.len() implies n[a].0 != n[b].0 by {
        if n.len() == grown.len() {
            assert(n[a] == grown[a] && n[b] == grown[b]);
        } else {
            assert(n[a] == grown[a + 1] && n[b] == grown[b + 1]);
        }
    }
    assert forall|m: int| 0 <= m < n.len() - 1 implies n[m].0 != k by {
        if n.len() == grown.len() {
            assert(n[m] == grown[m]);
        } else {
            assert(n[m] == grown[m + 1]);
        }
    }
}

/// A value just stored is what a lookup of its key gives back, as long as
/// the cache can hold anything at all.
pub proof fn law_lookup_after_store(order: CacheOrder, cap: nat, k: Seq<u8>, v: Seq<u8>)
    requires
        keys_distinct(order),
        order.len() <= cap,
        cap > 0,
    ensures
        lookup(store(order, cap, k, v), k) == Some(v),
{
    let n = store(order, cap, k, v);
    lemma_store_shape(order, cap, k, v);
    lemma_key_index_at(n, n.len() - 1);
}

/// Storing under one key leaves what is stored under every other key as it
/// was, unless the store evicted that entry as the least recently used.
pub proof fn law_store_keeps_others(
    order: CacheOrder,
    cap: nat,
    k: Seq<u8>,
    v: Seq<u8>,
    other: Seq<u8>,
)
    requires
        keys_distinct(order),
        order.len() <= cap,
        other != k,
        key_index(order, k) is Some || order.len() < cap,
    ensures
        lookup(store(order, cap, k, v), other) == lookup(order, other),
{
    lemma_key_index(order, k);
    lemma_key_index(order, other);
    lemma_store_shape(order, cap, k, v);
    let n = store(order, cap, k, v);
    let base = match key_index(order, k) {
        Some(j) => order.remove(j),
        None => order,
    };
    assert(n == base.push((k, v)));
    lemma_key_index(n, other);
    match key_index(order, other) {
        Some(m) => {
            match key_index(order, k) {
                Some(j) => {
                    let nm = if m < j { m } else { m - 1 };
                    assert(n[nm] == order[m]);
                },
                None => {
                    assert(n[m] == order[m]);
                },
            }
        },
        None => {
            assert forall|a: int| 0 <= a < n.len() implies n[a].0 != other by {
                if a < n.len() - 1 {
                    match key_index(order, k) {
                        Some(j) => {
                            let ia = if a < j { a } else { a + 1 };
                            assert(n[a] == order[ia]);
                        },
                        None => {
                            assert(n[a] == order[a]);
                        },
                    }
                }
            }
        },
    }
}

/// Storing a new key in a full cache evicts exactly the least recently used
/// entry and keeps the rest in order.
pub proof fn law_store_evicts_least_recent(order: CacheOrder, cap: nat, k: Seq<u8>, v: Seq<u8>)
    requires
        keys_distinct(order),
        order.len() == cap,
        cap > 0,
        key_index(order, k) is None,
    ensures
        store(order, cap, k, v) == order.drop_first().push((k, v)),
        lookup(store(order, cap, k, v), order[0].0) is None,
{
    lemma_key_index(order, k);
    let n = store(order, cap, k, v);
    assert(n =~= order.drop_first().push((k, v)));
    lemma_store_shape(order, cap, k, v);
    lemma_key_index(n, order[0].0);
    assert forall|a: int| 0 <= a < n.len() implies n[a].0 != order[0].0 by {
        if a < n.len() - 1 {
            assert(n[a] == order[a + 1]);
        }
    }
}

/// A lookup changes only the order of the entries, never what is stored.
pub proof fn law_touch_keeps_contents(order: CacheOrder, k: Seq<u8>, other: Seq<u8>)
    requires
        keys_distinct(order),
    ensures
        lookup(touch(order, k), other) == lookup(order, other),
        touch(order, k).len() == order.len(),
        keys_distinct(touch(order, k)),
{
    lemma_key_index(order, k);
    lemma_key_index(order, other);
    match key_index(order, k) {
        Some(j) => {
            let n = touch(order, k);
            assert(n.len() == order.len());
            assert forall|a: int| 0 <= a < n.len() implies n[a] == order[if a < j {
                a
            } else if a < n.len() - 1 {
                a + 1
            } else {
                j
            }] by {}
            assert forall|a: int, b: int| 0 <= a < b < n.len() implies n[a].0 != n[b].0 by {
                let ia = if a < j { a } else { a + 1 };
                if b < n.len() - 1 {
                    let ib = if b < j { b } else { b + 1 };
                    assert(n[a] == order[ia] && n[b] == order[ib]);
                } else {
                    assert(n[a] == order[ia] && n[b] == order[j]);
                }
            }
            lemma_key_index(n, other);
            match key_index(order, other) {
                Some(m) => {
                    let nm = if m < j { m } else if m == j { n.len() - 1 } else { m - 1 };
                    assert(n[nm] == order[m]);
                },
                None => {
                    assert forall|a: int| 0 <= a < n.len() implies n[a].0 != other by {
                        let ia = if a < j { a } else if a < n.len() - 1 { a + 1 } else { j };
                        assert(n[a] == order[ia]);
                    }
                },
            }
        },
        None => {},
    }
}

/// Storing keeps the cache's keys distinct and its size within its
/// capacity.
pub proof fn law_store_keeps_invariant(order: CacheOrder, cap: nat, k: Seq<u8>, v: Seq<u8>)
    requires
        keys_distinct(order),
        order.len() <= cap,
    ensures
        keys_distinct(store(order, cap, k, v)),
        store(order, cap, k, v).len() <= cap,
{
    lemma_store_shape(order, cap, k, v);
    lemma_key_index(order, k);
}

/// A hit makes the entry the most recently used and leaves every other
/// entry in the order it was: for any two other keys, which of them was
/// used less recently is the same before and after.
pub proof fn law_hit_becomes_most_recent(order: CacheOrder, k: Seq<u8>, x: Seq<u8>, y: Seq<u8>)
    requires
        keys_distinct(order),
        key_index(order, k) is Some,
        key_index(order, x) is Some,
        key_index(order, y) is Some,
        x != k,
        y != k,
    ensures
        touch(order, k).len() == order.len(),
        key_index(touch(order, k), k) == Some(order.len() - 1),
        key_index(touch(order, k), x) is Some,
        key_index(touch(order, k), y) is Some,
        key_index(order, x)->0 < key_index(order, y)->0 <==> key_index(touch(order, k), x)->0
            < key_index(touch(order, k), y)->0,
{
    lemma_key_index(order, k);
    lemma_key_index(order, x);
    lemma_key_index(order, y);
    law_touch_keeps_contents(order, k, x);
    let j = key_index(order, k)->0;
    let n = touch(order, k);
    assert(n == order.remove(j).push(order[j]));
    lemma_key_index_at(n, n.len() - 1);
    let ix = key_index(order, x)->0;
    let iy = key_index(order, y)->0;
    let nx = if ix < j { ix } else { ix - 1 };
    let ny = if iy < j { iy } else { iy - 1 };
    assert(n[nx] == order[ix]);
    assert(n[ny] == order[iy]);
    lemma_key_index_at(n, nx);
    lemma_key_index_at(n, ny);
}

/// A store makes the stored key the most recently used and leaves every
/// other remaining entry in the order it was.
pub proof fn law_store_keeps_order(order: CacheOrder, cap: nat, k: Seq<u8>, v: Seq<u8>, x: Seq<u8>, y: Seq<u8>)
    requires
        keys_distinct(order),
        order.len() <= cap,
        cap > 0,
        x != k,
        y != k,
        key_index(store(order, cap, k, v), x) is Some,
        key_index(store(order, cap, k, v), y) is Some,
    ensures
        key_index(store(order, cap, k, v), k) == Some(store(order, cap, k, v).len() - 1),
        key_index(order, x) is Some,
        key_index(order, y) is Some,
        key_index(order, x)->0 < key_index(order, y)->0 <==> key_index(store(order, cap, k, v), x)->0
            < key_index(store(order, cap, k, v), y)->0,
{
    lemma_store_shape(order, cap, k, v);
    lemma_key_index(order, k);
    let n = store(order, cap, k, v);
    lemma_key_index_at(n, n.len() - 1);
    let base = match key_index(order, k) {
        Some(j) => order.remove(j),
        None => order,
    };
    let grown = base.push((k, v));
    let sh: int = if grown.len() > cap { 1 } else { 0 };
    assert(forall|a: int| 0 <= a < n.len() ==> n[a] == grown[a + sh]);
    lemma_key_index(n, x);
    lemma_key_index(n, y);
    let nx = key_index(n, x)->0;
    let ny = key_index(n, y)->0;
    assert(nx + sh < base.len() && ny + sh < base.len()) by {
        assert(n[nx] == grown[nx + sh]);
        assert(n[ny] == grown[ny + sh]);
    }
    let bx = nx + sh;
    let by_ = ny + sh;
    let (ox, oy) = match key_index(order, k) {
        Some(j) => (if bx < j { bx } else { bx + 1 }, if by_ < j { by_ } else { by_ + 1 }),
        None => (bx, by_),
    };
    assert(order[ox] == base[bx]);
    assert(order[oy] == base[by_]);
    assert(n[nx] == grown[bx]);
    assert(n[ny] == grown[by_]);
    lemma_key_index_at(order, ox);
    lemma_key_index_at(order, oy);
}

} // verus!
