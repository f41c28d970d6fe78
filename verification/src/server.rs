//! The server's shared state and the decisions taken on it: counting
//! visitors, queueing static requests with their connections, and handing
//! queued requests to responders while responders are free.

use vstd::prelude::*;
use crate::http::{counter_page, counter_page_bytes, error_page, error_page_bytes};
use crate::path::{display_path, path_display};
use crate::peers::PeerTable;
use crate::queue::{HttpRequest, RequestQueue, RequestView, enqueued, is_priority_peer};
use crate::request::{PeerAddr, peer_name};
use crate::ssi::{dynamic_page, page_directives};

verus! {

/// The number of responders that may run at once.
pub const RESPONDERS: i64 = 16;

/// The server's shared state as plain values.
pub struct ServerView<S> {
    /// Connections accepted so far.
    pub visitors: int,
    /// Responders that may still be started.
    pub tasks: int,
    /// Static requests waiting, the next one first.
    pub queue: Seq<RequestView>,
    /// The connection held for each waiting request's peer.
    pub streams: Map<Seq<u8>, S>,
}

/// What happens to a queued request when the responder loop is notified.
pub enum DispatchView<S> {
    /// The queue was empty.
    NothingQueued,
    /// No connection was held for the request's peer.
    MissingStream(RequestView),
    /// A responder is started for the request on its connection.
    Dispatch(RequestView, S),
    /// No responder was free; the request and its connection are dropped.
    Declined(RequestView, S),
}

/// The state after a static request from `peer` for `path` arrives on
/// `stream`: the connection is held under the peer's name (replacing any
/// held before), and the request is queued (ahead of the others when the
/// peer is favoured) unless the peer's name has fewer than two
/// components.
pub open spec fn enqueue_next<S>(st: ServerView<S>, stream: S, peer: Seq<u8>, path: Seq<u8>) -> ServerView<S> {
    ServerView {
        visitors: st.visitors,
        tasks: st.tasks,
        queue: match is_priority_peer(peer) {
            Some(p) => enqueued(st.queue, (peer, path), p),
            None => st.queue,
        },
        streams: st.streams.insert(peer, stream),
    }
}

/// What the responder loop does when notified in state `st`.
pub open spec fn dispatch_of<S>(st: ServerView<S>) -> DispatchView<S> {
    if st.queue.len() == 0 {
        DispatchView::NothingQueued
    } else if !st.streams.dom().contains(st.queue[0].0) {
        DispatchView::MissingStream(st.queue[0])
    } else if st.tasks > 0 {
        DispatchView::Dispatch(st.queue[0], st.streams[st.queue[0].0])
    } else {
        DispatchView::Declined(st.queue[0], st.streams[st.queue[0].0])
    }
}

/// The state after the responder loop is notified in state `st`: the next
/// request leaves the queue and its connection leaves the table.
pub open spec fn dispatch_next<S>(st: ServerView<S>) -> ServerView<S> {
    if st.queue.len() == 0 {
        st
    } else {
        ServerView {
            visitors: st.visitors,
            tasks: st.tasks,
            queue: st.queue.drop_first(),
            streams: st.streams.remove(st.queue[0].0),
        }
    }
}

/// What a step of the server reacts to.
pub enum Event<S> {
    /// A connection was accepted.
    Arrival,
    /// A static request from `peer_name` for `path` arrived on `stream`.
    StaticRequest { stream: S, peer_name: Vec<u8>, path: Vec<u8> },
    /// The responder loop was told that a request was queued.
    Notified,
    /// A responder began serving.
    ResponderStarted,
    /// A responder finished serving.
    ResponderFinished,
}

/// What a step of the server decided.
pub enum Outcome<S> {
    /// The visitor was counted, or a responder was accounted for.
    Recorded,
    /// The request was queued; `replaced` is the connection held before
    /// for the same peer, now dropped. The responder loop is to be told.
    Queued { replaced: Option<S> },
    /// The request's peer name has fewer than two components: its
    /// connection is held but the request is not queued.
    Unqueued { replaced: Option<S> },
    /// The queue was empty.
    NothingQueued,
    /// No connection was held for the request's peer.
    MissingStream { request: HttpRequest },
    /// A responder is to serve the request on the connection.
    Dispatch { request: HttpRequest, stream: S },
    /// No responder was free: the request and its connection are dropped.
    Declined { request: HttpRequest, stream: S },
}

impl<S> Outcome<S> {
    /// The decision taken when the responder loop was notified.
    pub open spec fn dispatch_view(&self) -> DispatchView<S> {
        match self {
            Outcome::NothingQueued => DispatchView::NothingQueued,
            Outcome::MissingStream { request } => DispatchView::MissingStream(request.view()),
            Outcome::Dispatch { request, stream } => DispatchView::Dispatch(request.view(), *stream),
            Outcome::Declined { request, stream } => DispatchView::Declined(request.view(), *stream),
            _ => DispatchView::NothingQueued,
        }
    }

    /// Whether this is the decision taken when the responder loop was
    /// notified.
    pub open spec fn is_dispatch_decision(&self) -> bool {
        match self {
            Outcome::NothingQueued => true,
            Outcome::MissingStream { .. } => true,
            Outcome::Dispatch { .. } => true,
            Outcome::Declined { .. } => true,
            _ => false,
        }
    }
}

/// The server: where it listens, what it serves, and its shared state.
pub struct WebServer<S> {
    ip: Vec<u8>,
    port: u64,
    www_dir_path: Vec<u8>,
    visitor_count: i64,
    task_count: i64,
    request_queue: RequestQueue,
    stream_map: PeerTable<S>,
}

impl<S> WebServer<S> {
    /// The shared state as plain values.
    pub closed spec fn state(&self) -> ServerView<S> {
        ServerView {
            visitors: self.visitor_count as int,
            tasks: self.task_count as int,
            queue: self.request_queue@,
            streams: self.stream_map@,
        }
    }

    /// The address the server listens on.
    pub closed spec fn ip_spec(&self) -> Seq<u8> {
        self.ip@
    }

    /// The port the server listens on.
    pub closed spec fn port_spec(&self) -> u64 {
        self.port
    }

    /// The directory the server serves.
    pub closed spec fn www_dir_spec(&self) -> Seq<u8> {
        self.www_dir_path@
    }

    /// The address the server listens on.
    pub fn ip(&self) -> (r: &Vec<u8>)
        ensures
            r@ == self.ip_spec(),
    {
        &self.ip
    }

    /// The port the server listens on.
    pub fn port(&self) -> (r: u64)
        ensures
            r == self.port_spec(),
    {
        self.port
    }

    /// The directory the server serves.
    pub fn www_dir_path(&self) -> (r: &Vec<u8>)
        ensures
            r@ == self.www_dir_spec(),
    {
        &self.www_dir_path
    }

    /// The visitor count as the machine holds it.
    pub closed spec fn visitors(&self) -> i64 {
        self.visitor_count
    }

    /// The free-responder count as the machine holds it.
    pub closed spec fn tasks(&self) -> i64 {
        self.task_count
    }

    /// The counts of the plain-value state are the counts the machine holds.
    pub proof fn lemma_counts(&self)
        ensures
            self.state().visitors == self.visitors() as int,
            self.state().tasks == self.tasks() as int,
    {
    }

    /// The connection table keeps one connection per peer name.
    pub closed spec fn wf(&self) -> bool {
        self.stream_map.wf()
    }

    /// A server for `ip` and `port` serving `www_dir` (kept in normal form),
    /// with no visitors yet, all responders free and nothing queued. A path
    /// holds no NUL byte.
    pub fn new(ip: Vec<u8>, port: u64, www_dir: Vec<u8>) -> (s: Self)
        requires
            !www_dir@.contains(0u8),
        ensures
            s.wf(),
            s.ip_spec() == ip@,
            s.port_spec() == port,
            s.www_dir_spec() == path_display(www_dir@),
            s.state().visitors == 0,
            s.state().tasks == RESPONDERS,
            s.visitors() == 0,
            s.tasks() == RESPONDERS,
            s.state().queue.len() == 0,
            s.state().streams == Map::<Seq<u8>, S>::empty(),
    {
        WebServer {
            ip,
            port,
            www_dir_path: display_path(&www_dir),
            visitor_count: 0,
            task_count: RESPONDERS,
            request_queue: RequestQueue::new(),
            stream_map: PeerTable::new(),
        }
    }

    /// Counts a newly accepted connection.
    pub fn visitor_arrived(&mut self)
        ensures
            final(self).wf() == old(self).wf(),
            final(self).visitors() == old(self).visitors().wrapping_add(1),
            final(self).state().visitors == old(self).visitors().wrapping_add(1) as int,
            old(self).visitors() < i64::MAX ==> final(self).state().visitors == old(self).state().visitors + 1,
            final(self).state().tasks == old(self).state().tasks,
            final(self).state().queue == old(self).state().queue,
            final(self).state().streams == old(self).state().streams,
    {
        self.visitor_count = self.visitor_count.wrapping_add(1);
    }

    /// Accounts for a responder that began serving.
    pub fn responder_started(&mut self)
        ensures
            final(self).wf() == old(self).wf(),
            final(self).tasks() == old(self).tasks().wrapping_sub(1),
            final(self).state().tasks == old(self).tasks().wrapping_sub(1) as int,
            old(self).tasks() > i64::MIN ==> final(self).state().tasks == old(self).state().tasks - 1,
            final(self).state().visitors == old(self).state().visitors,
            final(self).state().queue == old(self).state().queue,
            final(self).state().streams == old(self).state().streams,
    {
        self.task_count = self.task_count.wrapping_sub(1);
    }

    /// Accounts for a responder that finished serving.
    pub fn responder_finished(&mut self)
        ensures
            final(self).wf() == old(self).wf(),
            final(self).tasks() == old(self).tasks().wrapping_add(1),
            final(self).state().tasks == old(self).tasks().wrapping_add(1) as int,
            old(self).tasks() < i64::MAX ==> final(self).state().tasks == old(self).state().tasks + 1,
            final(self).state().visitors == old(self).state().visitors,
            final(self).state().queue == old(self).state().queue,
            final(self).state().streams == old(self).state().streams,
    {
        self.task_count = self.task_count.wrapping_add(1);
    }

    /// The visitor-counter page for the visitors counted so far.
    pub fn respond_with_counter_page(&self) -> (r: Vec<u8>)
        ensures
            r@ == counter_page(self.state().visitors),
    {
        counter_page_bytes(self.visitor_count)
    }

    /// The not-found page for the file at `path`, whose name is UTF-8 text.
    pub fn respond_with_error_page(path: &Vec<u8>) -> (r: Vec<u8>)
        requires
            vstd::utf8::valid_utf8(path@),
        ensures
            r@ == error_page(path@),
    {
        error_page_bytes(path)
    }

    /// The response for a page with server-side includes, given the output
    /// of each of its directives' commands, in order.
    pub fn respond_with_dynamic_page(page: &Vec<u8>, outputs: &Vec<Vec<u8>>) -> (r: Vec<u8>)
        requires
            vstd::utf8::valid_utf8(page@),
            page_directives(page@).1,
            outputs@.len() == page_directives(page@).0.len(),
        ensures
            r@ == dynamic_page(page@, outputs@.map_values(|o: Vec<u8>| o@)),
    {
        crate::ssi::respond_with_dynamic_page(page, outputs)
    }

    /// The name of a connection's peer; empty when it is unknown.
    pub fn get_peer_name(peer: &Option<PeerAddr>) -> (r: Vec<u8>)
        ensures
            r@ == peer_name(*peer),
    {
        crate::request::get_peer_name(peer)
    }

    /// The size of a file, as the count of bytes to read from it.
    pub fn get_file_size(size: u64) -> (r: usize)
        requires
            size <= usize::MAX,
        ensures
            r == size,
    {
        crate::static_file::get_file_size(size)
    }

    /// Holds `stream` for `peer_name` and queues the request for `path`,
    /// ahead of the others when the peer is favoured.
    pub fn enqueue_static_file_request(&mut self, stream: S, peer_name: Vec<u8>, path: Vec<u8>) -> (r: Outcome<S>)
        requires
            old(self).wf(),
        ensures
            final(self).wf(),
            final(self).state() == enqueue_next(old(self).state(), stream, peer_name@, path@),
            final(self).visitors() == old(self).visitors(),
            final(self).tasks() == old(self).tasks(),
            match r {
                Outcome::Queued { replaced } => is_priority_peer(peer_name@) is Some && replaced
                    == old(self).state().streams.get(peer_name@),
                Outcome::Unqueued { replaced } => is_priority_peer(peer_name@) is None && replaced
                    == old(self).state().streams.get(peer_name@),
                _ => false,
            },
    {
        let key = peer_name.clone();
        assert(key@ =~= peer_name@);
        let replaced = self.stream_map.swap(key, stream);
        let request = HttpRequest { peer_name, path };
        if self.request_queue.enqueue(request) {
            Outcome::Queued { replaced }
        } else {
            Outcome::Unqueued { replaced }
        }
    }

    /// Takes the next queued request and its connection, and hands them to
    /// a responder if one is free.
    pub fn dequeue_static_file_request(&mut self) -> (r: Outcome<S>)
        requires
            old(self).wf(),
        ensures
            final(self).wf(),
            final(self).state() == dispatch_next(old(self).state()),
            final(self).visitors() == old(self).visitors(),
            final(self).tasks() == old(self).tasks(),
            r.is_dispatch_decision(),
            r.dispatch_view() == dispatch_of(old(self).state()),
    {
        let ghost st = self.state();
        match self.request_queue.dequeue() {
            None => {
                assert(self.state() == st);
                Outcome::NothingQueued
            },
            Some(request) => {
                match self.stream_map.pop(&request.peer_name) {
                    None => {
                        assert(self.state() == dispatch_next(st));
                        Outcome::MissingStream { request }
                    },
                    Some(stream) => {
                        assert(self.state() == dispatch_next(st));
                        if self.task_count > 0 {
                            Outcome::Dispatch { request, stream }
                        } else {
                            Outcome::Declined { request, stream }
                        }
                    },
                }
            },
        }
    }

    /// One step of the server: reacts to `event` and says what was decided.
    pub fn run(&mut self, event: Event<S>) -> (r: Outcome<S>)
        requires
            old(self).wf(),
        ensures
            final(self).wf(),
            match event {
                Event::Arrival => r is Recorded && final(self).visitors() == old(self).visitors().wrapping_add(1)
                    && final(self).state().visitors == old(self).visitors().wrapping_add(1) as int
                    && final(self).tasks() == old(self).tasks()
                    && final(self).state().tasks == old(self).state().tasks
                    && final(self).state().queue == old(self).state().queue
                    && final(self).state().streams == old(self).state().streams,
                Event::StaticRequest { stream, peer_name, path } => final(self).state()
                    == enqueue_next(old(self).state(), stream, peer_name@, path@)
                    && final(self).visitors() == old(self).visitors()
                    && final(self).tasks() == old(self).tasks() && match r {
                    Outcome::Queued { replaced } => is_priority_peer(peer_name@) is Some && replaced
                        == old(self).state().streams.get(peer_name@),
                    Outcome::Unqueued { replaced } => is_priority_peer(peer_name@) is None && replaced
                        == old(self).state().streams.get(peer_name@),
                    _ => false,
                },
                Event::Notified => final(self).state() == dispatch_next(old(self).state())
                    && final(self).visitors() == old(self).visitors()
                    && final(self).tasks() == old(self).tasks()
                    && r.is_dispatch_decision() && r.dispatch_view() == dispatch_of(old(self).state()),
                Event::ResponderStarted => r is Recorded && final(self).tasks() == old(self).tasks().wrapping_sub(1)
                    && final(self).state().tasks == old(self).tasks().wrapping_sub(1) as int
                    && final(self).visitors() == old(self).visitors()
                    && final(self).state().visitors == old(self).state().visitors
                    && final(self).state().queue == old(self).state().queue
                    && final(self).state().streams == old(self).state().streams,
                Event::ResponderFinished => r is Recorded && final(self).tasks() == old(self).tasks().wrapping_add(1)
                    && final(self).state().tasks == old(self).tasks().wrapping_add(1) as int
                    && final(self).visitors() == old(self).visitors()
                    && final(self).state().visitors == old(self).state().visitors
                    && final(self).state().queue == old(self).state().queue
                    && final(self).state().streams == old(self).state().streams,
            },
    {
        match event {
            Event::Arrival => {
                self.visitor_arrived();
                Outcome::Recorded
            },
            Event::StaticRequest { stream, peer_name, path } => {
                self.enqueue_static_file_request(stream, peer_name, path)
            },
            Event::Notified => self.dequeue_static_file_request(),
            Event::ResponderStarted => {
                self.responder_started();
                Outcome::Recorded
            },
            Event::ResponderFinished => {
                self.responder_finished();
                Outcome::Recorded
            },
        }
    }
}

/// A static request that reaches a server with nothing queued and a free
/// responder is the one the responder loop hands out next, on the
/// connection it came on.
pub proof fn law_idle_server_serves_request<S>(st: ServerView<S>, stream: S, peer: Seq<u8>, path: Seq<u8>)
    requires
        st.queue.len() == 0,
        st.tasks > 0,
        is_priority_peer(peer) is Some,
    ensures
        dispatch_of(enqueue_next(st, stream, peer, path)) == DispatchView::Dispatch((peer, path), stream),
        dispatch_next(enqueue_next(st, stream, peer, path)).queue.len() == 0,
        dispatch_next(enqueue_next(st, stream, peer, path)).streams == st.streams.remove(peer),
{
    let n = enqueue_next(st, stream, peer, path);
    assert(n.queue[0] == (peer, path));
    assert(n.streams.remove(peer) =~= st.streams.remove(peer));
}

/// A request from a favoured peer is the next one handed out, whatever was
/// waiting before it.
pub proof fn law_favoured_request_served_next<S>(st: ServerView<S>, stream: S, peer: Seq<u8>, path: Seq<u8>)
    requires
        st.tasks > 0,
        is_priority_peer(peer) == Some(true),
    ensures
        dispatch_of(enqueue_next(st, stream, peer, path)) == DispatchView::Dispatch((peer, path), stream),
        dispatch_next(enqueue_next(st, stream, peer, path)).queue == st.queue,
{
    let n = enqueue_next(st, stream, peer, path);
    assert(n.queue[0] == (peer, path));
    assert(n.queue.drop_first() =~= st.queue);
}

/// A request from any other peer waits behind those already queued: the
/// responder loop hands out the same request it would have handed out
/// before, as long as that request came from another peer.
pub proof fn law_other_request_waits<S>(st: ServerView<S>, stream: S, peer: Seq<u8>, path: Seq<u8>)
    requires
        is_priority_peer(peer) == Some(false),
        st.queue.len() > 0,
        st.queue[0].0 != peer,
    ensures
        dispatch_of(enqueue_next(st, stream, peer, path)) == dispatch_of(st),
        dispatch_next(enqueue_next(st, stream, peer, path)).queue == dispatch_next(st).queue.push(
            (peer, path),
        ),
{
    let n = enqueue_next(st, stream, peer, path);
    assert(n.queue[0] == st.queue[0]);
    assert(n.queue.drop_first() =~= st.queue.drop_first().push((peer, path)));
}

/// A responder that starts and then finishes leaves the count of free
/// responders as it was.
pub proof fn law_responder_accounting_balances(tasks: i64)
    ensures
        tasks.wrapping_sub(1).wrapping_add(1) == tasks,
{
    assert(tasks.wrapping_sub(1).wrapping_add(1) == tasks) by (bit_vector);
}

/// The free-responder count after responder events, `true` for a
/// responder that began and `false` for one that finished.
pub open spec fn after_responders(tasks: i64, events: Seq<bool>) -> i64
    decreases events.len(),
{
    if events.len() == 0 {
        tasks
    } else {
        let before = after_responders(tasks, events.drop_last());
        if events.last() {
            before.wrapping_sub(1)
        } else {
            before.wrapping_add(1)
        }
    }
}

/// How many of the events are responders that began.
pub open spec fn started(events: Seq<bool>) -> int
    decreases events.len(),
{
    if events.len() == 0 {
        0
    } else {
        started(events.drop_last()) + if events.last() {
            1int
        } else {
            0int
        }
    }
}

/// How many of the events are responders that finished.
pub open spec fn finished(events: Seq<bool>) -> int
    decreases events.len(),
{
    if events.len() == 0 {
        0
    } else {
        finished(events.drop_last()) + if events.last() {
            0int
        } else {
            1int
        }
    }
}

proof fn lemma_event_counts(events: Seq<bool>)
    ensures
        started(events) >= 0,
        finished(events) >= 0,
        started(events) + finished(events) == events.len(),
    decreases events.len(),
{
    if events.len() > 0 {
        lemma_event_counts(events.drop_last());
    }
}

/// The free-responder count is the count it started from less the
/// responders that began and have not finished (for any history of fewer
/// than 2^61 events starting from a count no larger than 2^61 in size).
pub proof fn law_free_responders_count(tasks: i64, events: Seq<bool>)
    requires
        -0x2000_0000_0000_0000 <= tasks <= 0x2000_0000_0000_0000,
        events.len() <= 0x2000_0000_0000_0000,
    ensures
        after_responders(tasks, events) == tasks - (started(events) - finished(events)),
    decreases events.len(),
{
    lemma_event_counts(events);
    if events.len() > 0 {
        let rest = events.drop_last();
        law_free_responders_count(tasks, rest);
        lemma_event_counts(rest);
        let before = after_responders(tasks, rest);
        assert(before == tasks - (started(rest) - finished(rest)));
        assert(i64::MIN < before < i64::MAX);
        if events.last() {
            assert(before.wrapping_sub(1) == before - 1);
        } else {
            assert(before.wrapping_add(1) == before + 1);
        }
    }
}

/// Once every responder that began has finished, all responders are free
/// again, and a count never rises above the number of responders.
pub proof fn law_all_responders_free_again(events: Seq<bool>)
    requires
        events.len() <= 0x2000_0000_0000_0000,
    ensures
        started(events) == finished(events) ==> after_responders(RESPONDERS, events) == RESPONDERS,
        started(events) >= finished(events) ==> after_responders(RESPONDERS, events) <= RESPONDERS,
{
    law_free_responders_count(RESPONDERS, events);
}

/// The visitor count after `n` more connections are accepted, each adding
/// one (wrapping at the limit of the machine integer).
pub open spec fn after_arrivals(visitors: i64, n: nat) -> i64
    decreases n,
{
    if n == 0 {
        visitors
    } else {
        after_arrivals(visitors, (n - 1) as nat).wrapping_add(1)
    }
}

/// After `n` connections the visitor count has risen by exactly `n`: it is
/// the old count plus `n` up to a whole number of wraps past the machine
/// integer's limit, and exactly the old count plus `n` when that sum fits.
pub proof fn law_arrivals_counted(visitors: i64, n: nat)
    ensures
        (after_arrivals(visitors, n) - visitors - n) % 0x1_0000_0000_0000_0000int == 0,
        visitors + n <= i64::MAX ==> after_arrivals(visitors, n) == visitors + n,
    decreases n,
{
    if n > 0 {
        let m = (n - 1) as nat;
        law_arrivals_counted(visitors, m);
        let before = after_arrivals(visitors, m);
        let k = (before - visitors - m) / 0x1_0000_0000_0000_0000int;
        assert(before - visitors - m == k * 0x1_0000_0000_0000_0000int);
        if before == i64::MAX {
            assert(after_arrivals(visitors, n) == before + 1 - 0x1_0000_0000_0000_0000int);
            assert(after_arrivals(visitors, n) - visitors - n == (k - 1) * 0x1_0000_0000_0000_0000int);
        } else {
            assert(after_arrivals(visitors, n) == before + 1);
            assert(after_arrivals(visitors, n) - visitors - n == k * 0x1_0000_0000_0000_0000int);
        }
        assert((after_arrivals(visitors, n) - visitors - n) % 0x1_0000_0000_0000_0000int == 0) by (nonlinear_arith)
            requires
                after_arrivals(visitors, n) - visitors - n == (if before == i64::MAX { k - 1 } else { k })
                    * 0x1_0000_0000_0000_0000int,
        ;
    }
}

} // verus!
