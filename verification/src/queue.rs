//! The queue of static-file requests waiting for a responder, with
//! requests from favoured networks served first.

use vstd::prelude::*;
use crate::bytes::{lemma_index_of_from, index_of_byte, index_of_from, slice_bytes, bytes_eq};

verus! {

/// A request for a static file: the peer it came from (the key under which
/// its connection is kept) and the file's path.
pub struct HttpRequest {
    pub peer_name: Vec<u8>,
    pub path: Vec<u8>,
}

/// A request as plain values: (peer name, path).
pub type RequestView = (Seq<u8>, Seq<u8>);

impl HttpRequest {
    pub open spec fn view(&self) -> RequestView {
        (self.peer_name@, self.path@)
    }
}

/// The bytes of "128.143".
pub open spec fn favoured_net_a() -> Seq<u8> {
    seq![49u8, 50u8, 56u8, 46u8, 49u8, 52u8, 51u8]
}

/// The bytes of "137.54".
pub open spec fn favoured_net_b() -> Seq<u8> {
    seq![49u8, 51u8, 55u8, 46u8, 53u8, 52u8]
}

/// The first two dot-separated components of a peer name, joined by their
/// dot, or `None` when the name has no dot (and so fewer than two
/// components).
pub open spec fn first_two_components(peer: Seq<u8>) -> Option<Seq<u8>> {
    match index_of_from(peer, 46u8, 0) {
        None => None,
        Some(d1) => {
            let end = match index_of_from(peer, 46u8, d1 + 1) {
                Some(d2) => d2,
                None => peer.len() as int,
            };
            Some(peer.subrange(0, end))
        },
    }
}

/// Whether requests from `peer` jump the queue: its first two components
/// are "128.143" or "137.54". `None` when the name has fewer than two
/// components.
pub open spec fn is_priority_peer(peer: Seq<u8>) -> Option<bool> {
    match first_two_components(peer) {
        None => None,
        Some(f) => Some(f == favoured_net_a() || f == favoured_net_b()),
    }
}


/// Whether requests from `peer` jump the queue; `None` when the peer name
/// has fewer than two dot-separated components.
pub fn priority_of_peer(peer: &Vec<u8>) -> (r: Option<bool>)
    ensures
        r == is_priority_peer(peer@),
{
    match index_of_byte(peer, 46u8, 0) {
        None => None,
        Some(d1) => {
            proof {
                lemma_index_of_from(peer@, 46u8, 0);
            }
            assert(d1 < peer.len());
            let end = match index_of_byte(peer, 46u8, d1 + 1) {
                Some(d2) => {
                    proof {
                        lemma_index_of_from(peer@, 46u8, d1 + 1);
                    }
                    d2
                },
                None => peer.len(),
            };
            let first_two = slice_bytes(peer, 0, end);
            let a: Vec<u8> = vec![49u8, 50u8, 56u8, 46u8, 49u8, 52u8, 51u8];
            let b: Vec<u8> = vec![49u8, 51u8, 55u8, 46u8, 53u8, 52u8];
            assert(a@ =~= favoured_net_a());
            assert(b@ =~= favoured_net_b());
            let pa = bytes_eq(&first_two, &a);
            let pb = bytes_eq(&first_two, &b);
            Some(pa || pb)
        },
    }
}

/// The queue after adding `r`: at the front when it has priority, else at
/// the back.
pub open spec fn enqueued(q: Seq<RequestView>, r: RequestView, priority: bool) -> Seq<RequestView> {
    if priority {
        seq![r] + q
    } else {
        q.push(r)
    }
}

/// Requests waiting to be served, the next one first.
pub struct RequestQueue {
    items: Vec<HttpRequest>,
}

impl RequestQueue {
    /// The waiting requests, the next one to be served first.
    pub closed spec fn view(&self) -> Seq<RequestView> {
        self.items@.map_values(|r: HttpRequest| r.view())
    }

    /// An empty queue.
    pub fn new() -> (q: Self)
        ensures
            q@ == Seq::<RequestView>::empty(),
    {
        let q = RequestQueue { items: Vec::new() };
        assert(q@ =~= Seq::<RequestView>::empty());
        q
    }

    /// The number of waiting requests.
    pub fn len(&self) -> (n: usize)
        ensures
            n == self@.len(),
    {
        self.items.len()
    }

    /// Adds `req` at the front when `priority` holds, else at the back.
    pub fn push(&mut self, req: HttpRequest, priority: bool)
        ensures
            final(self)@ == enqueued(old(self)@, req.view(), priority),
    {
        let ghost r = req.view();
        if priority {
            self.items.insert(0, req);
        } else {
            self.items.push(req);
        }
        assert(self@ =~= enqueued(old(self)@, r, priority));
    }

    /// Adds `req`, ahead of all waiting requests when its peer is favoured
    /// and behind them otherwise. Returns false, leaving the queue as it
    /// was, when the peer name has fewer than two dot-separated components.
    pub fn enqueue(&mut self, req: HttpRequest) -> (ok: bool)
        ensures
            ok == (is_priority_peer(req.peer_name@) is Some),
            ok ==> final(self)@ == enqueued(
                old(self)@,
                req.view(),
                is_priority_peer(req.peer_name@)->0,
            ),
            !ok ==> final(self)@ == old(self)@,
    {
        match priority_of_peer(&req.peer_name) {
            None => false,
            Some(p) => {
                self.push(req, p);
                true
            },
        }
    }

    /// Takes the next request, if any.
    pub fn dequeue(&mut self) -> (r: Option<HttpRequest>)
        ensures
            old(self)@.len() == 0 ==> r is None && final(self)@ == old(self)@,
            old(self)@.len() > 0 ==> r is Some && r->0.view() == old(self)@[0] && final(self)@
                == old(self)@.drop_first(),
    {
        if self.items.len() == 0 {
            None
        } else {
            let r = self.items.remove(0);
            assert(self@ =~= old(self)@.drop_first());
            Some(r)
        }
    }
}

/// A request from a favoured peer is the next one served.
pub proof fn law_priority_served_next(q: Seq<RequestView>, r: RequestView)
    ensures
        enqueued(q, r, true)[0] == r,
        enqueued(q, r, true).drop_first() == q,
{
    assert(enqueued(q, r, true).drop_first() =~= q);
}

/// Other requests are served first come, first served: one added at the
/// back comes after every request already waiting.
pub proof fn law_fifo_for_others(q: Seq<RequestView>, r: RequestView)
    ensures
        enqueued(q, r, false).len() == q.len() + 1,
        enqueued(q, r, false).subrange(0, q.len() as int) == q,
        enqueued(q, r, false).last() == r,
        q.len() > 0 ==> enqueued(q, r, false)[0] == q[0],
{
    assert(enqueued(q, r, false).subrange(0, q.len() as int) =~= q);
}

/// Enqueueing loses no request and adds exactly the new one.
pub proof fn law_enqueue_keeps_requests(q: Seq<RequestView>, r: RequestView, priority: bool)
    ensures
        enqueued(q, r, priority).to_multiset() == q.to_multiset().insert(r),
{
    broadcast use vstd::multiset::group_multiset_axioms, vstd::seq_lib::group_to_multiset_ensures;
    if priority {
        vstd::seq_lib::lemma_multiset_commutative(seq![r], q);
        assert(seq![r].to_multiset() =~= vstd::multiset::Multiset::<RequestView>::empty().insert(r)) by {
            assert(seq![r] =~= Seq::<RequestView>::empty().push(r));
        }
        assert((seq![r] + q).to_multiset() =~= q.to_multiset().insert(r));
    } else {
    }
}

/// A request jumps the queue exactly when the first two dot-separated
/// components of its peer's name, joined by their dot, are "128.143" or
/// "137.54": `d1` is the name's first dot and `e` the end of its second
/// component (the next dot, or the end of the name).
pub proof fn law_priority_is_first_two_components(peer: Seq<u8>, d1: int, e: int)
    requires
        0 <= d1 < e <= peer.len(),
        peer[d1] == 46u8,
        forall|k: int| 0 <= k < d1 ==> peer[k] != 46u8,
        forall|k: int| d1 < k < e ==> peer[k] != 46u8,
        e == peer.len() || peer[e] == 46u8,
    ensures
        is_priority_peer(peer) == Some(
            peer.subrange(0, e) == seq![49u8, 50u8, 56u8, 46u8, 49u8, 52u8, 51u8]
                || peer.subrange(0, e) == seq![49u8, 51u8, 55u8, 46u8, 53u8, 52u8],
        ),
{
    lemma_index_of_from(peer, 46u8, 0);
    lemma_index_of_from(peer, 46u8, d1 + 1);
    assert(index_of_from(peer, 46u8, 0) == Some(d1));
    match index_of_from(peer, 46u8, d1 + 1) {
        Some(j) => {
            if j < e {
                assert(peer[j] != 46u8);
            }
            if e < j {
                assert(peer[e] != 46u8);
            }
            assert(j == e);
        },
        None => {
            if e < peer.len() {
                assert(peer[e] != 46u8);
            }
        },
    }
    assert(favoured_net_a() =~= seq![49u8, 50u8, 56u8, 46u8, 49u8, 52u8, 51u8]);
    assert(favoured_net_b() =~= seq![49u8, 51u8, 55u8, 46u8, 53u8, 52u8]);
}

/// A peer name without a dot has fewer than two components, and only such
/// a name cannot be queued.
pub proof fn law_priority_needs_a_dot(peer: Seq<u8>)
    ensures
        is_priority_peer(peer) is None <==> forall|k: int| 0 <= k < peer.len() ==> peer[k] != 46u8,
{
    lemma_index_of_from(peer, 46u8, 0);
}

} // verus!
