//! Reading a request line, choosing how to answer it, and the texts that
//! describe a connection (peer name, log line, listening address).

use vstd::prelude::*;
use crate::bytes::{lemma_index_of_from, append_bytes, bytes_eq, index_of_byte, index_of_from, slice_bytes};
use crate::http::{decimal, decimal_i64};
use crate::path::extension;

verus! {

/// The target of a request: the bytes between its first and second space,
/// or `None` when it has fewer than two spaces.
pub open spec fn request_target(req: Seq<u8>) -> Option<Seq<u8>> {
    match index_of_from(req, 32u8, 0) {
        None => None,
        Some(d1) => match index_of_from(req, 32u8, d1 + 1) {
            None => None,
            Some(d2) => Some(req.subrange(d1 + 1, d2)),
        },
    }
}

/// The path, relative to the served directory, that a request target names:
/// the target behind a ".".
pub open spec fn relative_path(target: Seq<u8>) -> Seq<u8> {
    seq![46u8] + target
}


/// The target of a request, or `None` when it has fewer than two spaces.
pub fn parse_request(req: &Vec<u8>) -> (r: Option<Vec<u8>>)
    ensures
        match r {
            Some(t) => request_target(req@) == Some(t@),
            None => request_target(req@) is None,
        },
{
    proof {
        lemma_index_of_from(req@, 32u8, 0);
    }
    match index_of_byte(req, 32u8, 0) {
        None => None,
        Some(d1) => {
            assert(d1 < req.len());
            proof {
                lemma_index_of_from(req@, 32u8, d1 + 1);
            }
            match index_of_byte(req, 32u8, d1 + 1) {
                None => None,
                Some(d2) => Some(slice_bytes(req, d1 + 1, d2)),
            }
        },
    }
}

/// The path, relative to the served directory, that `target` names.
pub fn relative_path_of(target: &Vec<u8>) -> (r: Vec<u8>)
    ensures
        r@ == relative_path(target@),
{
    let mut r: Vec<u8> = vec![46u8];
    append_bytes(&mut r, target);
    assert(r@ =~= relative_path(target@));
    r
}

/// How a request is answered.
#[derive(PartialEq, Eq, Structural, Clone, Copy, Debug)]
pub enum Route {
    /// The visitor-counter page.
    Counter,
    /// The not-found page.
    NotFound,
    /// A page with server-side includes expanded.
    Dynamic,
    /// A file sent as it is, by a responder taking requests from the queue.
    Static,
}

/// The bytes of "./".
pub open spec fn root_request() -> Seq<u8> {
    seq![46u8, 47u8]
}

/// The bytes of "shtml".
pub open spec fn dynamic_extension() -> Seq<u8> {
    seq![115u8, 104u8, 116u8, 109u8, 108u8]
}

/// How the request for `rel` (the relative path) is answered, given the
/// file it resolves to and whether that was found and is a directory.
pub open spec fn route_of(rel: Seq<u8>, file: Seq<u8>, found: bool, is_dir: bool) -> Route {
    if rel == root_request() {
        Route::Counter
    } else if !found || is_dir {
        Route::NotFound
    } else if extension(file) == Some(dynamic_extension()) {
        Route::Dynamic
    } else {
        Route::Static
    }
}

/// How the request for `rel` is answered, given the file it resolves to and
/// whether that was found and is a directory.
pub fn route(rel: &Vec<u8>, file: &Vec<u8>, found: bool, is_dir: bool) -> (r: Route)
    ensures
        r == route_of(rel@, file@, found, is_dir),
{
    let root: Vec<u8> = vec![46u8, 47u8];
    assert(root@ =~= root_request());
    if bytes_eq(rel, &root) {
        return Route::Counter;
    }
    if !found || is_dir {
        return Route::NotFound;
    }
    let shtml: Vec<u8> = vec![115u8, 104u8, 116u8, 109u8, 108u8];
    assert(shtml@ =~= dynamic_extension());
    match crate::path::extension_of(file) {
        Some(e) => {
            if bytes_eq(&e, &shtml) {
                Route::Dynamic
            } else {
                Route::Static
            }
        },
        None => Route::Static,
    }
}

/// The address of a connected peer.
pub enum PeerAddr {
    /// An IPv4 address and port.
    V4 { a: u8, b: u8, c: u8, d: u8, port: u16 },
    /// An address already written out.
    Named(Vec<u8>),
}

/// "a.b.c.d:port" for an IPv4 peer; the written-out name otherwise.
pub open spec fn peer_text(addr: PeerAddr) -> Seq<u8> {
    match addr {
        PeerAddr::V4 { a, b, c, d, port } => decimal(a as int) + seq![46u8] + decimal(b as int)
            + seq![46u8] + decimal(c as int) + seq![46u8] + decimal(d as int) + seq![58u8]
            + decimal(port as int),
        PeerAddr::Named(n) => n@,
    }
}

/// The name of the peer of a connection; empty when the connection or its
/// peer is unknown.
pub open spec fn peer_name(peer: Option<PeerAddr>) -> Seq<u8> {
    match peer {
        Some(addr) => peer_text(addr),
        None => Seq::empty(),
    }
}

/// The name of the peer of a connection; empty when the connection or its
/// peer is unknown.
pub fn get_peer_name(peer: &Option<PeerAddr>) -> (r: Vec<u8>)
    ensures
        r@ == peer_name(*peer),
{
    match peer {
        None => Vec::new(),
        Some(PeerAddr::Named(n)) => {
            let r = n.clone();
            assert(r@ =~= n@);
            r
        },
        Some(PeerAddr::V4 { a, b, c, d, port }) => {
            let mut r = decimal_i64(*a as i64);
            r.push(46u8);
            append_bytes(&mut r, &decimal_i64(*b as i64));
            r.push(46u8);
            append_bytes(&mut r, &decimal_i64(*c as i64));
            r.push(46u8);
            append_bytes(&mut r, &decimal_i64(*d as i64));
            r.push(58u8);
            append_bytes(&mut r, &decimal_i64(*port as i64));
            assert(r@ =~= peer_name(*peer));
            r
        },
    }
}

/// Six spaces, the separator between the fields of a log line.
pub open spec fn log_gap() -> Seq<u8> {
    seq![32u8, 32u8, 32u8, 32u8, 32u8, 32u8]
}

/// The log line for a request: the time, the peer and the target, separated
/// by six spaces and ended by a newline.
pub open spec fn log_line(time: Seq<u8>, peer: Seq<u8>, target: Seq<u8>) -> Seq<u8> {
    time + log_gap() + peer + log_gap() + target + seq![10u8]
}

/// The log line for a request.
pub fn log_line_bytes(time: &Vec<u8>, peer: &Vec<u8>, target: &Vec<u8>) -> (r: Vec<u8>)
    ensures
        r@ == log_line(time@, peer@, target@),
{
    let gap: Vec<u8> = vec![32u8, 32u8, 32u8, 32u8, 32u8, 32u8];
    assert(gap@ =~= log_gap());
    let mut r = time.clone();
    assert(r@ =~= time@);
    append_bytes(&mut r, &gap);
    append_bytes(&mut r, peer);
    append_bytes(&mut r, &gap);
    append_bytes(&mut r, target);
    r.push(10u8);
    assert(r@ =~= log_line(time@, peer@, target@));
    r
}

/// "ip:port", the address the server listens on.
pub open spec fn bind_address(ip: Seq<u8>, port: u64) -> Seq<u8> {
    ip + seq![58u8] + decimal(port as int)
}

/// "ip:port", the address the server listens on.
pub fn bind_address_bytes(ip: &Vec<u8>, port: u64) -> (r: Vec<u8>)
    ensures
        r@ == bind_address(ip@, port),
{
    let mut r = ip.clone();
    assert(r@ =~= ip@);
    r.push(58u8);
    append_bytes(&mut r, &crate::http::digits_u64(port));
    assert(r@ =~= bind_address(ip@, port));
    r
}

} // verus!
