use lib::static_file::{static_response_writes, cached_response};
use lib::lru::LruCache;
use lib::queue::{HttpRequest, RequestQueue, priority_of_peer};
use lib::peers::PeerTable;
use lib::server::{WebServer, Event, Outcome, RESPONDERS};
use lib::ssi::{ssi_commands, respond_with_dynamic_page};
use lib::static_file::{blocks_of, block_sizes_of, cached_file, remember_file, new_file_cache, get_file_size, BLOCK_SIZE};
use lib::request::PeerAddr;

fn b(s: &str) -> Vec<u8> {
    s.as_bytes().to_vec()
}

fn req(peer: &str, path: &str) -> HttpRequest {
    HttpRequest { peer_name: b(peer), path: b(path) }
}

#[test]
fn cache_gives_back_what_was_stored() {
    let mut c = LruCache::new(2);
    c.put(b("/a"), b("AAA"));
    assert_eq!(c.get(&b("/a")), Some(b("AAA")));
    c.put(b("/a"), b("A2"));
    assert_eq!(c.get(&b("/a")), Some(b("A2")));
    assert_eq!(c.len(), 1);
    assert_eq!(c.get(&b("/zzz")), None);
}

#[test]
fn cache_evicts_least_recently_used() {
    let mut c = LruCache::new(2);
    c.put(b("/a"), b("1"));
    c.put(b("/b"), b("2"));
    assert_eq!(c.get(&b("/a")), Some(b("1")));
    c.put(b("/c"), b("3"));
    assert_eq!(c.len(), 2);
    assert_eq!(c.get(&b("/b")), None);
    assert_eq!(c.get(&b("/a")), Some(b("1")));
    assert_eq!(c.get(&b("/c")), Some(b("3")));
    assert_eq!(c.capacity(), 2);
}

#[test]
fn cache_of_capacity_zero_holds_nothing() {
    let mut c = LruCache::new(0);
    c.put(b("/a"), b("1"));
    assert_eq!(c.len(), 0);
    assert_eq!(c.get(&b("/a")), None);
}

#[test]
fn file_cache_holds_five_files() {
    let mut c = new_file_cache();
    assert_eq!(c.capacity(), 5);
    for i in 0..6u8 {
        remember_file(&mut c, vec![b'/', b'0' + i], vec![i + 1]);
    }
    assert_eq!(c.len(), 5);
    assert_eq!(cached_file(&mut c, &b("/0")), None);
    assert_eq!(cached_file(&mut c, &b("/5")), Some(vec![6]));
    remember_file(&mut c, b("/empty"), vec![]);
    assert_eq!(cached_file(&mut c, &b("/empty")), None);
    assert_eq!(c.len(), 5);
}

#[test]
fn favoured_peers() {
    assert_eq!(priority_of_peer(&b("128.143.10.2:4000")), Some(true));
    assert_eq!(priority_of_peer(&b("137.54.1.1:80")), Some(true));
    assert_eq!(priority_of_peer(&b("127.0.0.1:5555")), Some(false));
    assert_eq!(priority_of_peer(&b("128.1431.0.1:1")), Some(false));
    assert_eq!(priority_of_peer(&b("")), None);
    assert_eq!(priority_of_peer(&b("localhost")), None);
    assert_eq!(priority_of_peer(&b("128.143")), Some(true));
}

#[test]
fn queue_serves_favoured_first_then_in_order() {
    let mut q = RequestQueue::new();
    assert!(q.enqueue(req("10.0.0.1:1", "/one")));
    assert!(q.enqueue(req("10.0.0.2:2", "/two")));
    assert!(q.enqueue(req("137.54.0.9:3", "/vip")));
    assert!(!q.enqueue(req("nodots", "/x")));
    assert_eq!(q.len(), 3);
    assert_eq!(q.dequeue().unwrap().path, b("/vip"));
    assert_eq!(q.dequeue().unwrap().path, b("/one"));
    assert_eq!(q.dequeue().unwrap().path, b("/two"));
    assert!(q.dequeue().is_none());
}

#[test]
fn peer_table_holds_one_connection_per_peer() {
    let mut t: PeerTable<u32> = PeerTable::new();
    assert_eq!(t.swap(b("a:1"), 10), None);
    assert_eq!(t.swap(b("b:2"), 20), None);
    assert_eq!(t.swap(b("a:1"), 11), Some(10));
    assert_eq!(t.len(), 2);
    assert_eq!(t.pop(&b("a:1")), Some(11));
    assert_eq!(t.pop(&b("a:1")), None);
    assert_eq!(t.pop(&b("b:2")), Some(20));
    assert_eq!(t.len(), 0);
}

#[test]
fn server_counts_visitors_on_counter_page() {
    let mut s: WebServer<u32> = WebServer::new(b("127.0.0.1"), 4414, b("./www"));
    assert!(matches!(s.run(Event::Arrival), Outcome::Recorded));
    assert!(matches!(s.run(Event::Arrival), Outcome::Recorded));
    let page = String::from_utf8(s.respond_with_counter_page()).unwrap();
    assert!(page.contains("<h2>Visitor count: 2</h2>"));
    assert_eq!(s.ip(), &b("127.0.0.1"));
    assert_eq!(s.port(), 4414);
    assert_eq!(s.www_dir_path(), &b("www"));
}

#[test]
fn server_hands_queued_request_to_responder() {
    let mut s: WebServer<u32> = WebServer::new(b("127.0.0.1"), 4414, b("./www"));
    let o = s.run(Event::StaticRequest { stream: 7, peer_name: b("10.1.2.3:999"), path: b("/srv/f.html") });
    assert!(matches!(o, Outcome::Queued { replaced: None }));
    match s.run(Event::Notified) {
        Outcome::Dispatch { request, stream } => {
            assert_eq!(stream, 7);
            assert_eq!(request.path, b("/srv/f.html"));
            assert_eq!(request.peer_name, b("10.1.2.3:999"));
        }
        _ => panic!("expected a dispatch"),
    }
    assert!(matches!(s.run(Event::Notified), Outcome::NothingQueued));
}

#[test]
fn server_favours_listed_networks() {
    let mut s: WebServer<u32> = WebServer::new(b("127.0.0.1"), 4414, b("./www"));
    s.run(Event::StaticRequest { stream: 1, peer_name: b("10.0.0.1:1"), path: b("/a") });
    s.run(Event::StaticRequest { stream: 2, peer_name: b("128.143.5.5:2"), path: b("/b") });
    match s.run(Event::Notified) {
        Outcome::Dispatch { request, stream } => {
            assert_eq!(stream, 2);
            assert_eq!(request.path, b("/b"));
        }
        _ => panic!("expected a dispatch"),
    }
}

#[test]
fn server_declines_when_no_responder_is_free() {
    let mut s: WebServer<u32> = WebServer::new(b("127.0.0.1"), 4414, b("./www"));
    for _ in 0..RESPONDERS {
        s.run(Event::ResponderStarted);
    }
    s.run(Event::StaticRequest { stream: 3, peer_name: b("10.0.0.1:1"), path: b("/a") });
    assert!(matches!(s.run(Event::Notified), Outcome::Declined { stream: 3, .. }));
    s.run(Event::ResponderFinished);
    s.run(Event::StaticRequest { stream: 4, peer_name: b("10.0.0.1:2"), path: b("/a") });
    assert!(matches!(s.run(Event::Notified), Outcome::Dispatch { stream: 4, .. }));
}

#[test]
fn server_reports_missing_connection_and_bad_peer_names() {
    let mut s: WebServer<u32> = WebServer::new(b("127.0.0.1"), 4414, b("./www"));
    s.run(Event::StaticRequest { stream: 1, peer_name: b("10.0.0.1:1"), path: b("/a") });
    let o = s.run(Event::StaticRequest { stream: 2, peer_name: b("10.0.0.1:1"), path: b("/b") });
    assert!(matches!(o, Outcome::Queued { replaced: Some(1) }));
    assert!(matches!(s.run(Event::Notified), Outcome::Dispatch { stream: 2, .. }));
    assert!(matches!(s.run(Event::Notified), Outcome::MissingStream { .. }));
    let o = s.run(Event::StaticRequest { stream: 5, peer_name: b(""), path: b("/c") });
    assert!(matches!(o, Outcome::Unqueued { replaced: None }));
    assert!(matches!(s.run(Event::Notified), Outcome::NothingQueued));
}

#[test]
fn server_helpers() {
    assert_eq!(WebServer::<u32>::get_file_size(12345), 12345);
    assert_eq!(
        WebServer::<u32>::get_peer_name(&Some(PeerAddr::V4 { a: 1, b: 2, c: 3, d: 4, port: 5 })),
        b("1.2.3.4:5")
    );
    assert_eq!(
        WebServer::<u32>::respond_with_error_page(&b("/x")),
        b("HTTP/1.1 404 Not Found\r\n\r\nCannot open: /x")
    );
}

#[test]
fn ssi_directives_found_in_order() {
    let page = b("<p>a</p>\n<!--#exec cmd=\"date\" -->\nx <!--#exec cmd=\"echo hi\"--> y\n<!--#include file=\"f\"-->\n");
    let (cmds, complete) = ssi_commands(&page);
    assert!(complete);
    assert_eq!(cmds.len(), 2);
    assert_eq!(cmds[0].ssi, b("<!--#exec cmd=\"date\" -->"));
    assert_eq!(cmds[0].command, b("date"));
    assert_eq!(cmds[1].ssi, b("<!--#exec cmd=\"echo hi\"-->"));
    assert_eq!(cmds[1].command, b("echo hi"));
}

#[test]
fn ssi_broken_directives_stop_the_reading() {
    let page = b("<!--#exec cmd=\"a\"-->\n<!--#exec cmd=\"b\"\n<!--#exec cmd=\"c\"-->\n");
    let (cmds, complete) = ssi_commands(&page);
    assert!(!complete);
    assert_eq!(cmds.len(), 1);
    assert_eq!(cmds[0].command, b("a"));
    let (cmds, complete) = ssi_commands(&b("<!--#exec cmd=\"only one quote-->"));
    assert!(!complete);
    assert_eq!(cmds.len(), 0);
    let (cmds, complete) = ssi_commands(&b("--> then <!--#exec cmd=\"x\""));
    assert!(!complete);
    assert_eq!(cmds.len(), 0);
    let (cmds, complete) = ssi_commands(&b("--><!--#exec cmd=\"x\""));
    assert!(complete);
    assert_eq!(cmds.len(), 0);
}

#[test]
fn dynamic_page_replaces_directives() {
    let page = b("<b><!--#exec cmd=\"date\"--></b>\nagain <!--#exec cmd=\"date\"-->\n");
    let outputs = vec![b("MON"), b("TUE")];
    let r = respond_with_dynamic_page(&page, &outputs);
    let mut expected = b("HTTP/1.1 200 OK\r\nContent-Type: text/html; charset=UTF-8\r\n\r\n");
    expected.extend_from_slice(b"<b>MON</b>\nagain MON\n");
    assert_eq!(r, expected);
}

#[test]
fn page_without_directives_served_as_is() {
    let page = b("<html>plain</html>\n");
    let r = WebServer::<u32>::respond_with_dynamic_page(&page, &vec![]);
    let mut expected = b("HTTP/1.1 200 OK\r\nContent-Type: text/html; charset=UTF-8\r\n\r\n");
    expected.extend_from_slice(&page);
    assert_eq!(r, expected);
}

#[test]
fn static_files_go_in_blocks() {
    assert_eq!(BLOCK_SIZE, 10240);
    let content: Vec<u8> = (0..25000u32).map(|i| (i % 251) as u8).collect();
    let blocks = blocks_of(&content, BLOCK_SIZE);
    assert_eq!(blocks.iter().map(|x| x.len()).collect::<Vec<_>>(), vec![10240, 10240, 4520]);
    assert_eq!(blocks.concat(), content);
    assert_eq!(block_sizes_of(25000, BLOCK_SIZE), vec![10240, 10240, 4520]);
    assert_eq!(block_sizes_of(20480, BLOCK_SIZE), vec![10240, 10240]);
    assert_eq!(block_sizes_of(0, BLOCK_SIZE), vec![0]);
    assert_eq!(blocks_of(&vec![], BLOCK_SIZE), vec![Vec::<u8>::new()]);
    assert_eq!(blocks_of(&b("abcde"), 2), vec![b("ab"), b("cd"), b("e")]);
}

#[test]
fn static_response_is_head_then_file() {
    let content: Vec<u8> = (0..12000u32).map(|i| (i % 7) as u8).collect();
    let writes = static_response_writes(&content);
    assert_eq!(writes.len(), 3);
    assert_eq!(writes[0], b("HTTP/1.1 200 OK\r\nContent-Type: text/html; charset=UTF-8\r\n\r\n"));
    assert_eq!(writes[1].len(), 10240);
    let mut expected = writes[0].clone();
    expected.extend_from_slice(&content);
    assert_eq!(writes.concat(), expected);
    let mut cache = new_file_cache();
    assert!(cached_response(&mut cache, &b("/srv/www/hello.txt")).is_none());
    remember_file(&mut cache, b("/srv/www/hello.txt"), b("hi"));
    let hit = cached_response(&mut cache, &b("/srv/www/hello.txt")).unwrap();
    assert_eq!(hit.concat(), b("HTTP/1.1 200 OK\r\nContent-Type: text/html; charset=UTF-8\r\n\r\nhi"));
}

#[test]
fn responders_all_free_again() {
    let mut s: WebServer<u32> = WebServer::new(b("127.0.0.1"), 4414, b("./www"));
    for _ in 0..3 {
        s.run(Event::ResponderStarted);
    }
    for _ in 0..3 {
        s.run(Event::ResponderFinished);
    }
    for _ in 0..RESPONDERS {
        s.run(Event::ResponderStarted);
    }
    s.run(Event::StaticRequest { stream: 9, peer_name: b("10.0.0.1:1"), path: b("/a") });
    assert!(matches!(s.run(Event::Notified), Outcome::Declined { stream: 9, .. }));
}

#[test]
fn served_directory_kept_in_normal_form() {
    let s: WebServer<u32> = WebServer::new(b("127.0.0.1"), 4414, b("./a/../b//www/"));
    assert_eq!(s.www_dir_path(), &b("b/www"));
    let s: WebServer<u32> = WebServer::new(b("127.0.0.1"), 4414, b("/srv/./www/.."));
    assert_eq!(s.www_dir_path(), &b("/srv"));
}

#[test]
fn arrivals_each_count_once() {
    let mut s: WebServer<u32> = WebServer::new(b("127.0.0.1"), 4414, b("./www"));
    for _ in 0..7 {
        s.run(Event::Arrival);
    }
    let page = String::from_utf8(s.respond_with_counter_page()).unwrap();
    assert!(page.ends_with("<h2>Visitor count: 7</h2></body></html>\r\n"));
}

#[test]
fn same_file_served_twice() {
    let mut cache = new_file_cache();
    for i in 0..5u8 {
        remember_file(&mut cache, vec![b'/', b'a' + i], vec![i + 1]);
    }
    let path = b("/srv/www/hello.txt");
    assert!(cached_response(&mut cache, &path).is_none());
    remember_file(&mut cache, path.clone(), b("hi"));
    assert_eq!(cache.len(), 5);
    assert_eq!(cached_file(&mut cache, &b("/a")), None);
    let first = cached_response(&mut cache, &path).unwrap();
    let second = cached_response(&mut cache, &path).unwrap();
    assert_eq!(first, second);
    assert_eq!(first, static_response_writes(&b("hi")));
    assert_eq!(cache.len(), 5);
}
