use lib::time::{ctime_local, parse_zone_offset};
use lib::time::ctime_utc;
use lib::bytes::{find_bytes, replace_all_bytes, index_of_byte, last_index_of_byte, bytes_eq};
use lib::http::{counter_page_bytes, error_page_bytes, decimal_i64, digits_u64, http_ok_bytes, HTTP_OK, HTTP_BAD, COUNTER_STYLE};
use lib::path::{normalize_path, resolve_path, extension_of, display_path};
use lib::request::{parse_request, relative_path_of, route, Route, get_peer_name, PeerAddr, log_line_bytes, bind_address_bytes};

fn b(s: &str) -> Vec<u8> {
    s.as_bytes().to_vec()
}

#[test]
fn find_first_occurrence() {
    assert_eq!(find_bytes(&b("abcabc"), &b("bc"), 0), Some(1));
    assert_eq!(find_bytes(&b("abcabc"), &b("bc"), 2), Some(4));
    assert_eq!(find_bytes(&b("abcabc"), &b("x"), 0), None);
    assert_eq!(find_bytes(&b("ab"), &b(""), 1), Some(1));
    assert_eq!(index_of_byte(&b("a.b.c"), b'.', 2), Some(3));
    assert_eq!(last_index_of_byte(&b("a.b.c"), b'.'), Some(3));
    assert!(bytes_eq(&b("xy"), &b("xy")));
    assert!(!bytes_eq(&b("xy"), &b("xz")));
}

#[test]
fn replace_all_occurrences() {
    assert_eq!(replace_all_bytes(&b("a--b--c"), &b("--"), &b("+")), b("a+b+c"));
    assert_eq!(replace_all_bytes(&b("aaa"), &b("aa"), &b("b")), b("ba"));
    assert_eq!(replace_all_bytes(&b("xyz"), &b("q"), &b("r")), b("xyz"));
    assert_eq!(replace_all_bytes(&b("xyz"), &b(""), &b("r")), b("xyz"));
}

#[test]
fn replace_by_itself_keeps_text() {
    let s = b("one <!--#x--> two <!--#x-->");
    assert_eq!(replace_all_bytes(&s, &b("<!--#x-->"), &b("<!--#x-->")), s);
}

#[test]
fn decimal_rendering() {
    assert_eq!(decimal_i64(0), b("0"));
    assert_eq!(decimal_i64(7), b("7"));
    assert_eq!(decimal_i64(4414), b("4414"));
    assert_eq!(decimal_i64(-305), b("-305"));
    assert_eq!(decimal_i64(i64::MIN), b("-9223372036854775808"));
    assert_eq!(digits_u64(u64::MAX), b("18446744073709551615"));
}

#[test]
fn counter_page_text() {
    let page = counter_page_bytes(3);
    let expected = format!(
        "{}{}<h1>Greetings, Krusty!</h1>\n                     <h2>Visitor count: {}</h2></body></html>\r\n",
        HTTP_OK, COUNTER_STYLE, 3
    );
    assert_eq!(page, expected.into_bytes());
    assert!(String::from_utf8(page).unwrap().starts_with("HTTP/1.1 200 OK\r\n"));
}

#[test]
fn error_page_text() {
    assert_eq!(
        error_page_bytes(&b("/srv/www/missing.html")),
        b("HTTP/1.1 404 Not Found\r\n\r\nCannot open: /srv/www/missing.html")
    );
    assert_eq!(HTTP_BAD, "HTTP/1.1 404 Not Found\r\n\r\n");
    assert_eq!(http_ok_bytes(), b("HTTP/1.1 200 OK\r\nContent-Type: text/html; charset=UTF-8\r\n\r\n"));
}

#[test]
fn request_target_between_spaces() {
    assert_eq!(parse_request(&b("GET /index.html HTTP/1.1\r\nHost: x\r\n")), Some(b("/index.html")));
    assert_eq!(parse_request(&b("GET / HTTP/1.1")), Some(b("/")));
    assert_eq!(parse_request(&b("GET /x")), None);
    assert_eq!(parse_request(&b("")), None);
    let mut buf = b("GET /a b");
    buf.resize(500, 0);
    assert_eq!(parse_request(&buf), Some(b("/a")));
    assert_eq!(relative_path_of(&b("/index.html")), b("./index.html"));
}

#[test]
fn paths_resolve_inside_directory() {
    assert_eq!(resolve_path(&b("/srv/www"), &b("./index.html")), b("/srv/www/index.html"));
    assert_eq!(resolve_path(&b("/srv/www"), &b("./")), b("/srv/www"));
    assert_eq!(resolve_path(&b("/srv/www"), &b("./a/../b//c/./d")), b("/srv/www/b/c/d"));
    assert_eq!(resolve_path(&b("/srv/www"), &b("./../../../etc/passwd")), b("/etc/passwd"));
    assert_eq!(normalize_path(&b("/")), b("/"));
    assert_eq!(normalize_path(&b("/..")), b("/"));
    assert_eq!(normalize_path(&b("//a//")), b("/a"));
}

#[test]
fn resolved_paths_have_no_dot_components() {
    let r = resolve_path(&b("/srv/www"), &b("./x/./../.././y/.."));
    let text = String::from_utf8(r).unwrap();
    assert!(text.starts_with('/'));
    assert!(text.split('/').all(|c| c != "." && c != ".."));
}

#[test]
fn file_extensions() {
    assert_eq!(extension_of(&b("/srv/www/page.shtml")), Some(b("shtml")));
    assert_eq!(extension_of(&b("/srv/www/a.tar.gz")), Some(b("gz")));
    assert_eq!(extension_of(&b("/srv/www/.hidden")), None);
    assert_eq!(extension_of(&b("/srv/www/noext")), None);
    assert_eq!(extension_of(&b("/srv/www/trailing.")), Some(b("")));
    assert_eq!(extension_of(&b("/")), None);
    assert_eq!(extension_of(&b("/srv/..")), None);
}

#[test]
fn routing_decisions() {
    assert_eq!(route(&b("./"), &b("/srv/www"), true, true), Route::Counter);
    assert_eq!(route(&b("./"), &b("/srv/www"), false, false), Route::Counter);
    assert_eq!(route(&b("./nope.html"), &b("/srv/www/nope.html"), false, false), Route::NotFound);
    assert_eq!(route(&b("./dir"), &b("/srv/www/dir"), true, true), Route::NotFound);
    assert_eq!(route(&b("./page.shtml"), &b("/srv/www/page.shtml"), true, false), Route::Dynamic);
    assert_eq!(route(&b("./page.html"), &b("/srv/www/page.html"), true, false), Route::Static);
    assert_eq!(route(&b("./page.SHTML"), &b("/srv/www/page.SHTML"), true, false), Route::Static);
}

#[test]
fn peer_names() {
    let v4 = Some(PeerAddr::V4 { a: 128, b: 143, c: 0, d: 17, port: 51234 });
    assert_eq!(get_peer_name(&v4), b("128.143.0.17:51234"));
    assert_eq!(get_peer_name(&None), b(""));
    assert_eq!(get_peer_name(&Some(PeerAddr::Named(b("[::1]:80")))), b("[::1]:80"));
}

#[test]
fn log_lines_and_addresses() {
    assert_eq!(
        log_line_bytes(&b("Tue Mar  4 10:00:00 2014"), &b("127.0.0.1:5000"), &b("/index.html")),
        b("Tue Mar  4 10:00:00 2014      127.0.0.1:5000      /index.html\n")
    );
    assert_eq!(bind_address_bytes(&b("127.0.0.1"), 4414), b("127.0.0.1:4414"));
}

#[test]
fn log_times() {
    assert_eq!(ctime_utc(0), b("Thu Jan  1 00:00:00 1970"));
    assert_eq!(ctime_utc(1393927200), b("Tue Mar  4 10:00:00 2014"));
    assert_eq!(ctime_utc(951782400), b("Tue Feb 29 00:00:00 2000"));
    assert_eq!(ctime_utc(1704067199), b("Sun Dec 31 23:59:59 2023"));
}

#[test]
fn local_log_times() {
    assert_eq!(parse_zone_offset(&b("+0100\n")), Some(3600));
    assert_eq!(parse_zone_offset(&b("-0530")), Some(-19800));
    assert_eq!(parse_zone_offset(&b("UTC")), None);
    assert_eq!(parse_zone_offset(&b("+01:00")), None);
    assert_eq!(ctime_local(1393927200, -18000), b("Tue Mar  4 05:00:00 2014"));
    assert_eq!(ctime_local(1393927200, 3600), b("Tue Mar  4 11:00:00 2014"));
}

#[test]
fn relative_paths_in_normal_form() {
    assert_eq!(display_path(&b("./www")), b("www"));
    assert_eq!(display_path(&b("")), b("."));
    assert_eq!(display_path(&b("./")), b("."));
    assert_eq!(display_path(&b("../a/../../b")), b("../../b"));
    assert_eq!(display_path(&b("a/b/../c/")), b("a/c"));
    assert_eq!(display_path(&b("/x/../y")), b("/y"));
}
