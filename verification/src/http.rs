//! The fixed texts of the server's responses, decimal rendering of numbers,
//! and the pages built from them.

use vstd::prelude::*;
use crate::bytes::{append_bytes, concat};
use vstd::string::StringSliceAdditionalSpecFns;

verus! {

/// The status line and headers of a successful response.
pub const HTTP_OK: &'static str = "HTTP/1.1 200 OK\r\nContent-Type: text/html; charset=UTF-8\r\n\r\n";

/// The status line of a not-found response.
pub const HTTP_BAD: &'static str = "HTTP/1.1 404 Not Found\r\n\r\n";

/// The head and style of the visitor-counter page.
pub const COUNTER_STYLE: &'static str = "<doctype !html><html><head><title>Hello, Rust!</title>\n             <style>body { background-color: #884414; color: #FFEEAA}\n                    h1 { font-size:2cm; text-align: center; color: black; text-shadow: 0 0 4mm red }\n                    h2 { font-size:2cm; text-align: center; color: black; text-shadow: 0 0 4mm green }\n             </style></head>\n             <body>";

/// The text between the page head and the visitor count.
pub const COUNTER_GREETING: &'static str = "<h1>Greetings, Krusty!</h1>\n                     <h2>Visitor count: ";

/// The text after the visitor count.
pub const COUNTER_END: &'static str = "</h2></body></html>\r\n";

/// The text in front of the path on the not-found page.
pub const CANNOT_OPEN: &'static str = "Cannot open: ";

/// The bytes of a successful response's head.
pub open spec fn http_ok() -> Seq<u8> {
    HTTP_OK.spec_bytes()
}

/// The bytes of a not-found response's head.
pub open spec fn http_bad() -> Seq<u8> {
    HTTP_BAD.spec_bytes()
}

/// The bytes of the counter page's head and style.
pub open spec fn counter_style() -> Seq<u8> {
    COUNTER_STYLE.spec_bytes()
}

/// The bytes between the counter page's head and the count.
pub open spec fn counter_greeting() -> Seq<u8> {
    COUNTER_GREETING.spec_bytes()
}

/// The bytes after the count.
pub open spec fn counter_end() -> Seq<u8> {
    COUNTER_END.spec_bytes()
}

/// The bytes in front of the path on the not-found page.
pub open spec fn cannot_open() -> Seq<u8> {
    CANNOT_OPEN.spec_bytes()
}

/// The bytes of a text constant.
pub fn text_bytes(s: &str) -> (r: Vec<u8>)
    ensures
        r@ == s.spec_bytes(),
{
    vstd::slice::slice_to_vec(s.as_bytes())
}

/// The head of a successful response.
pub fn http_ok_bytes() -> (r: Vec<u8>)
    ensures
        r@ == http_ok(),
{
    text_bytes(HTTP_OK)
}

/// The head of a not-found response.
pub fn http_bad_bytes() -> (r: Vec<u8>)
    ensures
        r@ == http_bad(),
{
    text_bytes(HTTP_BAD)
}

/// The decimal digits of `n`, most significant first, without leading
/// zeros ("0" for zero).
pub open spec fn digits(n: nat) -> Seq<u8>
    decreases n,
{
    if n < 10 {
        seq![(48 + n) as u8]
    } else {
        digits(n / 10).push((48 + n % 10) as u8)
    }
}

/// The decimal rendering of `n`, with a leading '-' when negative.
pub open spec fn decimal(n: int) -> Seq<u8> {
    if n < 0 {
        seq![45u8] + digits((-n) as nat)
    } else {
        digits(n as nat)
    }
}

/// The number a string of decimal digits stands for.
pub open spec fn digits_value(s: Seq<u8>) -> int
    decreases s.len(),
{
    if s.len() == 0 {
        0
    } else {
        digits_value(s.drop_last()) * 10 + (s.last() - 48)
    }
}

/// Every byte is an ASCII digit.
pub open spec fn all_digits(s: Seq<u8>) -> bool {
    forall|i: int| 0 <= i < s.len() ==> 48 <= #[trigger] s[i] <= 57
}

/// The decimal digits of `n`.
pub fn digits_u64(n: u64) -> (r: Vec<u8>)
    ensures
        r@ == digits(n as nat),
    decreases n,
{
    if n < 10 {
        let d: u8 = (48 + n) as u8;
        let r: Vec<u8> = vec![d];
        assert(r@ =~= digits(n as nat));
        r
    } else {
        let mut r = digits_u64(n / 10);
        let d: u8 = (48 + n % 10) as u8;
        r.push(d);
        r
    }
}

/// The decimal rendering of `n`.
pub fn decimal_i64(n: i64) -> (r: Vec<u8>)
    ensures
        r@ == decimal(n as int),
{
    if n < 0 {
        let wide: i128 = n as i128;
        let m: u64 = (0i128 - wide) as u64;
        let d = digits_u64(m);
        let minus: Vec<u8> = vec![45u8];
        let r = concat(&minus, &d);
        assert(minus@ =~= seq![45u8]);
        r
    } else {
        digits_u64(n as u64)
    }
}

/// Rendering a number in decimal and reading the digits back gives the
/// number, and the rendering holds only digits.
pub proof fn law_digits_read_back(n: nat)
    ensures
        all_digits(digits(n)),
        digits_value(digits(n)) == n,
        digits(n).len() > 0,
    decreases n,
{
    let s = digits(n);
    if n >= 10 {
        law_digits_read_back(n / 10);
        assert(s.drop_last() == digits(n / 10));
        assert(n % 10 < 10);
        assert(s.last() == 48 + n % 10);
        assert(n == (n / 10) * 10 + n % 10) by (nonlinear_arith);
        assert(digits_value(s) == digits_value(s.drop_last()) * 10 + (s.last() - 48));
        assert(digits_value(s) == (n / 10) * 10 + n % 10);
    } else {
        assert(s.drop_last() =~= Seq::<u8>::empty());
        assert(s.last() == 48 + n);
        assert(digits_value(s) == digits_value(s.drop_last()) * 10 + (s.last() - 48));
    }
}

/// The visitor-counter page for `count` visitors, head included.
pub open spec fn counter_page(count: int) -> Seq<u8> {
    http_ok() + counter_style() + counter_greeting() + decimal(count) + counter_end()
}

/// The not-found page for `path`, head included.
pub open spec fn error_page(path: Seq<u8>) -> Seq<u8> {
    http_bad() + cannot_open() + path
}

/// The visitor-counter page for `count` visitors, head included.
pub fn counter_page_bytes(count: i64) -> (r: Vec<u8>)
    ensures
        r@ == counter_page(count as int),
{
    let mut r = http_ok_bytes();
    append_bytes(&mut r, &text_bytes(COUNTER_STYLE));
    append_bytes(&mut r, &text_bytes(COUNTER_GREETING));
    append_bytes(&mut r, &decimal_i64(count));
    append_bytes(&mut r, &text_bytes(COUNTER_END));
    r
}

/// The not-found page for `path`, head included.
pub fn error_page_bytes(path: &Vec<u8>) -> (r: Vec<u8>)
    requires
        vstd::utf8::valid_utf8(path@),
    ensures
        r@ == error_page(path@),
{
    let mut r = http_bad_bytes();
    append_bytes(&mut r, &text_bytes(CANNOT_OPEN));
    append_bytes(&mut r, path);
    r
}

proof fn lemma_digits_no_leading_zero(n: nat)
    ensures
        n > 0 ==> digits(n)[0] != 48u8,
        digits(n).len() > 0,
    decreases n,
{
    if n >= 10 {
        lemma_digits_no_leading_zero(n / 10);
        assert(digits(n)[0] == digits(n / 10)[0]);
    }
}

/// The counter page shows the count in full: it is the page's fixed head,
/// then the count written in decimal (digits that read back to the count,
/// without leading zeros, behind a '-' when it is negative), then the fixed
/// end.
pub proof fn law_counter_page_shows_count(count: int)
    ensures
        ({
            let p = counter_page(count);
            let head = http_ok() + counter_style() + counter_greeting();
            let shown = p.subrange(head.len() as int, p.len() - counter_end().len());
            let number = if count < 0 {
                shown.drop_first()
            } else {
                shown
            };
            &&& p.len() > head.len() + counter_end().len()
            &&& p.subrange(0, head.len() as int) == head
            &&& p.subrange(p.len() - counter_end().len(), p.len() as int) == counter_end()
            &&& (count < 0 ==> shown.len() > 1 && shown[0] == 45u8)
            &&& all_digits(number)
            &&& digits_value(number) == (if count < 0 { -count } else { count })
            &&& (number.len() == 1 || number[0] != 48u8)
        }),
{
    let p = counter_page(count);
    let head = http_ok() + counter_style() + counter_greeting();
    let mag: nat = (if count < 0 { -count } else { count }) as nat;
    law_digits_read_back(mag);
    lemma_digits_no_leading_zero(mag);
    assert(p == head + decimal(count) + counter_end());
    assert(p.subrange(0, head.len() as int) =~= head);
    assert(p.subrange(p.len() - counter_end().len(), p.len() as int) =~= counter_end());
    let shown = p.subrange(head.len() as int, p.len() - counter_end().len());
    assert(shown =~= decimal(count));
    if count < 0 {
        assert(shown.drop_first() =~= digits(mag));
    }
}

} // verus!
