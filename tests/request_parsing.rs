use mini_http::request::{HttpRequest, Method, ParseOutcome, Resource, Version};
use mini_http::request::{process_req_line, process_request_header};
use mini_http::text::parse_decimal;

fn complete(buf: &[u8]) -> (HttpRequest, usize) {
    match HttpRequest::parse(buf) {
        ParseOutcome::Complete(req, n) => (req, n),
        ParseOutcome::Incomplete => panic!("incomplete"),
        ParseOutcome::Malformed => panic!("malformed"),
    }
}

fn path_of(req: &HttpRequest) -> String {
    let Resource::Path(p) = &req.resource;
    p.clone()
}

#[test]
fn parses_request_line_and_headers() {
    let buf = b"GET /index.html HTTP/1.1\r\nHost: localhost:8888\r\nAccept:  */*  \r\n\r\n";
    let (req, n) = complete(buf);
    assert_eq!(n, buf.len());
    assert!(matches!(req.method, Method::GET));
    assert!(matches!(req.version, Version::HTTP1_1));
    assert_eq!(path_of(&req), "/index.html");
    assert_eq!(req.headers.get("Host"), Some("localhost:8888".to_string()));
    assert_eq!(req.headers.get("Accept"), Some("*/*".to_string()));
    assert_eq!(req.headers.len(), 2);
    assert!(req.msg_body.is_none());
}

#[test]
fn body_has_exactly_content_length_bytes() {
    let buf = b"POST /echo HTTP/1.1\r\nContent-Length: 5\r\n\r\nhelloEXTRA";
    let (req, n) = complete(buf);
    assert!(matches!(req.method, Method::POST));
    assert_eq!(req.msg_body, Some("hello".to_string()));
    assert_eq!(n, buf.len() - 5);
}

#[test]
fn body_split_across_reads_waits_then_completes() {
    let full = b"PUT /x HTTP/1.1\r\nContent-Length: 11\r\n\r\nhello world";
    for cut in 0..full.len() {
        assert!(matches!(HttpRequest::parse(&full[..cut]), ParseOutcome::Incomplete), "cut {}", cut);
    }
    let (req, n) = complete(full);
    assert_eq!(n, full.len());
    assert_eq!(req.msg_body, Some("hello world".to_string()));
    assert!(matches!(req.method, Method::PUT));
}

#[test]
fn zero_or_absent_content_length_gives_no_body() {
    let (req, _) = complete(b"POST /a HTTP/1.1\r\nContent-Length: 0\r\n\r\n");
    assert!(req.msg_body.is_none());
    let (req, _) = complete(b"POST /a HTTP/1.1\r\n\r\n");
    assert!(req.msg_body.is_none());
}

#[test]
fn bad_content_length_is_malformed() {
    assert!(matches!(
        HttpRequest::parse(b"POST /a HTTP/1.1\r\nContent-Length: five\r\n\r\n"),
        ParseOutcome::Malformed
    ));
    assert!(matches!(
        HttpRequest::parse(b"POST /a HTTP/1.1\r\nContent-Length: 99999999999999999999999\r\n\r\n"),
        ParseOutcome::Malformed
    ));
}

#[test]
fn lines_without_colon_are_ignored() {
    let (req, _) = complete(b"GET / HTTP/1.1\r\nnot a header\r\nX-A: 1\r\n\r\n");
    assert_eq!(req.headers.len(), 1);
    assert_eq!(req.headers.get("X-A"), Some("1".to_string()));
}

#[test]
fn later_header_of_same_name_wins() {
    let (req, _) = complete(b"GET / HTTP/1.1\r\nX-A: 1\r\nX-A: 2\r\n\r\n");
    assert_eq!(req.headers.get("X-A"), Some("2".to_string()));
    assert_eq!(req.headers.len(), 1);
}

#[test]
fn malformed_request_line_gives_defaults() {
    let (req, _) = complete(b"GARBAGE\r\n\r\n");
    assert!(matches!(req.method, Method::GET));
    assert!(matches!(req.version, Version::HTTP1_1));
    assert_eq!(path_of(&req), "/");
}

#[test]
fn methods_and_versions_ignore_case() {
    let (m, r, v) = process_req_line(b"delete /x http/2.0\r\n");
    assert!(matches!(m, Method::DELETE));
    assert!(matches!(v, Version::HTTP2_0));
    let Resource::Path(p) = r;
    assert_eq!(p, "/x");
    let (m, _, v) = process_req_line(b"PATCH /x HTTP/3\r\n");
    assert!(matches!(m, Method::UNKNOWN));
    assert!(matches!(v, Version::UNKNOWN));
}

#[test]
fn header_splits_on_first_colon() {
    let (k, v) = process_request_header(b"Host: example.com:80\r\n").unwrap();
    assert_eq!(k, b"Host".to_vec());
    assert_eq!(v, b" example.com:80\r\n".to_vec());
    assert!(process_request_header(b"no colon\r\n").is_none());
}

#[test]
fn empty_buffer_is_incomplete() {
    assert!(matches!(HttpRequest::parse(b""), ParseOutcome::Incomplete));
    assert!(matches!(HttpRequest::parse(b"GET / HTTP/1.1\r\nHost: a\r\n"), ParseOutcome::Incomplete));
}

#[test]
fn invalid_utf8_body_is_replaced() {
    let (req, _) = complete(b"POST / HTTP/1.1\r\nContent-Length: 2\r\n\r\n\xffA");
    assert_eq!(req.msg_body, Some("\u{fffd}A".to_string()));
}

#[test]
fn content_length_accepts_leading_plus() {
    let (req, _) = complete(b"POST / HTTP/1.1\r\nContent-Length: +3\r\n\r\nabc");
    assert_eq!(req.msg_body, Some("abc".to_string()));
    assert_eq!(parse_decimal(b"+42"), Some(42));
    assert_eq!(parse_decimal(b"+"), None);
    assert_eq!(parse_decimal(b"++1"), None);
    assert_eq!(parse_decimal(b"18446744073709551615"), Some(usize::MAX));
    assert_eq!(parse_decimal(b"18446744073709551616"), None);
}

#[test]
fn unicode_whitespace_separates_request_line_tokens() {
    let (m, r, v) = process_req_line("GET\u{3000}/x HTTP/1.1\r\n".as_bytes());
    assert!(matches!(m, Method::GET));
    assert!(matches!(v, Version::HTTP1_1));
    let Resource::Path(p) = r;
    assert_eq!(p, "/x");
    let (_, r, _) = process_req_line("POST /a\u{3000}b HTTP/1.1\r\n".as_bytes());
    let Resource::Path(p) = r;
    assert_eq!(p, "/");
    let (_, r, _) = process_req_line("GET\u{a0}/y\u{2009}HTTP/1.1\r\n".as_bytes());
    let Resource::Path(p) = r;
    assert_eq!(p, "/y");
    // U+2010 (a hyphen) shares its first two bytes with U+2000..U+200A.
    let (_, r, _) = process_req_line("GET /a\u{2010}b HTTP/1.1\r\n".as_bytes());
    let Resource::Path(p) = r;
    assert_eq!(p, "/a\u{2010}b");
}

#[test]
fn header_values_lose_unicode_whitespace() {
    let (req, _) = complete("GET / HTTP/1.1\r\nX: \u{3000}a b\u{3000}\u{85}\r\n\r\n".as_bytes());
    assert_eq!(req.headers.get("X"), Some("a b".to_string()));
}

#[test]
fn whitespace_only_request_line_gives_defaults() {
    let (req, n) = complete(b"\r\n\r\n");
    assert_eq!(n, 4);
    assert!(matches!(req.method, Method::GET));
    assert_eq!(path_of(&req), "/");
}
