//! The table of open connections waiting for their static file, keyed by
//! the peer's name.

use vstd::prelude::*;
use crate::bytes::bytes_eq;
use crate::keyed::{key_index, keys_distinct, lemma_key_index, lemma_remove_entry};

verus! {

/// The connection held for one peer.
pub struct PeerSlot<S> {
    pub peer: Vec<u8>,
    pub stream: S,
}

/// Open connections keyed by peer name, at most one per name.
pub struct PeerTable<S> {
    slots: Vec<PeerSlot<S>>,
}

/// The map that a sequence of (peer name, connection) entries stands for.
pub open spec fn slots_map<S>(slots: Seq<(Seq<u8>, S)>) -> Map<Seq<u8>, S> {
    Map::new(
        |k: Seq<u8>| key_index(slots, k) is Some,
        |k: Seq<u8>| slots[key_index(slots, k)->0].1,
    )
}

impl<S> PeerTable<S> {
    /// The entries as (peer name, connection) pairs.
    pub closed spec fn entries(&self) -> Seq<(Seq<u8>, S)> {
        self.slots@.map_values(|e: PeerSlot<S>| (e.peer@, e.stream))
    }

    /// The connection held for each peer name.
    pub open spec fn view(&self) -> Map<Seq<u8>, S> {
        slots_map(self.entries())
    }

    /// No peer name occurs twice.
    pub open spec fn wf(&self) -> bool {
        keys_distinct(self.entries())
    }

    /// An empty table.
    pub fn new() -> (t: Self)
        ensures
            t.wf(),
            t@ == Map::<Seq<u8>, S>::empty(),
    {
        let t = PeerTable { slots: Vec::new() };
        assert(t.entries() =~= Seq::<(Seq<u8>, S)>::empty());
        assert(t@ =~= Map::<Seq<u8>, S>::empty());
        t
    }

    /// The number of connections held.
    pub fn len(&self) -> (n: usize)
        requires
            self.wf(),
        ensures
            n == self@.len(),
    {
        proof {
            self.lemma_len();
        }
        self.slots.len()
    }

    proof fn lemma_len(&self)
        requires
            self.wf(),
        ensures
            self@.dom().finite(),
            self@.len() == self.entries().len(),
        decreases self.entries().len(),
    {
        let e = self.entries();
        let keys = e.map_values(|p: (Seq<u8>, S)| p.0);
        assert forall|k: Seq<u8>| self@.dom().contains(k) <==> keys.to_set().contains(k) by {
            lemma_key_index(e, k);
            if self@.dom().contains(k) {
                let j = key_index(e, k)->0;
                assert(keys[j] == k);
            }
            if keys.to_set().contains(k) {
                let j = choose|j: int| 0 <= j < keys.len() && keys[j] == k;
                assert(e[j].0 == k);
            }
        }
        assert(self@.dom() =~= keys.to_set());
        assert(keys.no_duplicates()) by {
            assert forall|a: int, b: int| 0 <= a < keys.len() && 0 <= b < keys.len() && a != b implies keys[a] != keys[b] by {
                if a < b {
                    assert(e[a].0 != e[b].0);
                } else {
                    assert(e[b].0 != e[a].0);
                }
            }
        }
        keys.unique_seq_to_set();
    }

    fn position(&self, peer: &Vec<u8>) -> (r: Option<usize>)
        requires
            self.wf(),
        ensures
            match r {
                Some(j) => key_index(self.entries(), peer@) == Some(j as int) && j < self.entries().len(),
                None => key_index(self.entries(), peer@) is None,
            },
    {
        proof {
            lemma_key_index(self.entries(), peer@);
        }
        let mut i: usize = 0;
        while i < self.slots.len()
            invariant
                self.wf(),
                i <= self.slots.len(),
                forall|m: int| 0 <= m < i ==> self.entries()[m].0 != peer@,
                forall|m: int|
                    0 <= m < self.entries().len() && self.entries()[m].0 == peer@ ==> key_index(
                        self.entries(),
                        peer@,
                    ) == Some(m),
                match key_index(self.entries(), peer@) {
                    Some(j) => 0 <= j < self.entries().len() && self.entries()[j].0 == peer@,
                    None => forall|m: int|
                        0 <= m < self.entries().len() ==> self.entries()[m].0 != peer@,
                },
            decreases self.slots.len() - i,
        {
            assert(self.entries()[i as int].0 == self.slots@[i as int].peer@);
            if bytes_eq(&self.slots[i].peer, peer) {
                return Some(i);
            }
            i = i + 1;
        }
        None
    }

    /// Removes and returns the connection held for `peer`, if any.
    pub fn pop(&mut self, peer: &Vec<u8>) -> (r: Option<S>)
        requires
            old(self).wf(),
        ensures
            final(self).wf(),
            final(self)@ == old(self)@.remove(peer@),
            match r {
                Some(s) => old(self)@.dom().contains(peer@) && s == old(self)@[peer@],
                None => !old(self)@.dom().contains(peer@),
            },
    {
        let ghost e = self.entries();
        match self.position(peer) {
            None => {
                assert(self@ =~= old(self)@.remove(peer@));
                None
            },
            Some(j) => {
                let slot = self.slots.remove(j);
                assert(self.entries() =~= e.remove(j as int));
                proof {
                    lemma_key_index(e, peer@);
                    lemma_remove_entry(e, j as int);
                    let n = self.entries();
                    assert forall|k: Seq<u8>| #![auto] self@.dom().contains(k) <==> old(self)@.remove(peer@).dom().contains(k) by {
                        lemma_key_index(n, k);
                        lemma_key_index(e, k);
                        if self@.dom().contains(k) {
                            let a = key_index(n, k)->0;
                            let ia = if a < j { a } else { a + 1 };
                            assert(n[a] == e[ia]);
                        }
                        if old(self)@.remove(peer@).dom().contains(k) {
                            let m = key_index(e, k)->0;
                            assert(n[if m < j { m } else { m - 1 }] == e[m]);
                        }
                    }
                    assert forall|k: Seq<u8>| #![auto] self@.dom().contains(k) implies self@[k] == old(self)@[k] by {
                        lemma_key_index(n, k);
                        lemma_key_index(e, k);
                        let m = key_index(e, k)->0;
                        assert(n[if m < j { m } else { m - 1 }] == e[m]);
                    }
                    assert(self@ =~= old(self)@.remove(peer@));
                }
                Some(slot.stream)
            },
        }
    }

    /// Holds `stream` for `peer`, returning the connection previously held
    /// for that peer, if any.
    pub fn swap(&mut self, peer: Vec<u8>, stream: S) -> (r: Option<S>)
        requires
            old(self).wf(),
        ensures
            final(self).wf(),
            final(self)@ == old(self)@.insert(peer@, stream),
            match r {
                Some(s) => old(self)@.dom().contains(peer@) && s == old(self)@[peer@],
                None => !old(self)@.dom().contains(peer@),
            },
    {
        let ghost k = peer@;
        let previous = self.pop(&peer);
        let ghost e = self.entries();
        let ghost mid = self@;
        proof {
            lemma_key_index(e, k);
            assert(!mid.dom().contains(k));
            assert(key_index(e, k) is None);
            assert(forall|m: int| 0 <= m < e.len() ==> e[m].0 != k);
        }
        self.slots.push(PeerSlot { peer, stream });
        proof {
            let n = self.entries();
            assert(n =~= e.push((k, stream)));
            assert forall|a: int, b: int| 0 <= a < b < n.len() implies n[a].0 != n[b].0 by {
                if b < n.len() - 1 {
                    assert(n[a] == e[a] && n[b] == e[b]);
                } else {
                    assert(n[a] == e[a]);
                }
            }
            lemma_key_index(n, k);
            assert forall|q: Seq<u8>| #![auto] self@.dom().contains(q) <==> old(self)@.insert(k, stream).dom().contains(q) by {
                lemma_key_index(n, q);
                lemma_key_index(e, q);
                if self@.dom().contains(q) && q != k {
                    let a = key_index(n, q)->0;
                    assert(n[n.len() - 1].0 == k);
                    assert(a < n.len() - 1);
                    assert(n[a] == e[a]);
                    assert(key_index(e, q) == Some(a));
                    assert(mid.dom().contains(q));
                }
                if q != k && old(self)@.insert(k, stream).dom().contains(q) {
                    assert(mid.dom().contains(q));
                    let m = key_index(e, q)->0;
                    assert(n[m] == e[m]);
                    assert(key_index(n, q) == Some(m));
                }
                if q == k {
                    assert(n[n.len() - 1].0 == k);
                    assert(key_index(n, k) == Some(n.len() - 1));
                }
            }
            assert forall|q: Seq<u8>| #![auto] self@.dom().contains(q) implies self@[q] == old(self)@.insert(k, stream)[q] by {
                lemma_key_index(n, q);
                lemma_key_index(e, q);
                if q != k {
                    assert(mid.dom().contains(q));
                    assert(mid[q] == old(self)@[q]);
                    let m = key_index(e, q)->0;
                    assert(n[m] == e[m]);
                }
            }
            assert(self@ =~= old(self)@.insert(k, stream));
        }
        previous
    }
}

} // verus!
