use mini_http::config::{Status, StatusCatalog};
use mini_http::response::{parse_status_line, HeaderMap, HttpResponse};

fn wire(r: &HttpResponse) -> String {
    String::from_utf8(r.to_wire_bytes()).unwrap()
}

#[test]
fn default_response_wire() {
    let r = HttpResponse::default();
    assert_eq!(wire(&r), "HTTP/1.1 200 OK\r\nContent-Length: 0\r\n\r\n");
}

#[test]
fn set_body_hello_gives_content_length_five() {
    let mut r = HttpResponse::default();
    r.set_body("hello".to_string());
    assert_eq!(wire(&r), "HTTP/1.1 200 OK\r\nContent-Length: 5\r\n\r\nhello");
}

#[test]
fn headers_are_sorted_by_key() {
    let mut r = HttpResponse::default();
    r.add_header("b-header".to_string(), "2".to_string());
    r.add_header("A-Header".to_string(), "1".to_string());
    r.add_header("a-header".to_string(), "3".to_string());
    r.set_body("xyz".to_string());
    assert_eq!(
        wire(&r),
        "HTTP/1.1 200 OK\r\nA-Header: 1\r\na-header: 3\r\nb-header: 2\r\nContent-Length: 3\r\n\r\nxyz"
    );
}

#[test]
fn stale_content_length_header_is_not_sent() {
    let mut r = HttpResponse::default();
    r.add_header("Content-Length".to_string(), "99".to_string());
    r.set_body("abcd".to_string());
    assert_eq!(wire(&r), "HTTP/1.1 200 OK\r\nContent-Length: 4\r\n\r\nabcd");
}

#[test]
fn content_length_counts_bytes_not_chars() {
    let mut r = HttpResponse::default();
    r.set_body("\u{e9}t\u{e9}".to_string());
    assert!(wire(&r).contains("Content-Length: 5\r\n"));
}

#[test]
fn add_header_replaces_value() {
    let mut r = HttpResponse::default();
    r.add_header("X".to_string(), "1".to_string());
    r.add_header("X".to_string(), "2".to_string());
    assert_eq!(r.headers.len(), 1);
    assert_eq!(r.headers.get("X"), Some("2".to_string()));
}

#[test]
fn set_headers_and_set_status() {
    let mut r = HttpResponse::default();
    r.set_headers(HeaderMap::from_pairs(vec![
        ("Z".to_string(), "z".to_string()),
        ("M".to_string(), "m".to_string()),
        ("Z".to_string(), "last".to_string()),
    ]));
    r.set_status(Status("404".to_string(), "Not Found".to_string()));
    assert_eq!(wire(&r), "HTTP/1.1 404 Not Found\r\nM: m\r\nZ: last\r\nContent-Length: 0\r\n\r\n");
}

#[test]
fn new_resolves_reason_phrase() {
    let cat = StatusCatalog::from_pairs(vec![("404".to_string(), "Not Found".to_string())]);
    let r = HttpResponse::new("HTTP/1.1".to_string(), "404".to_string(), None, None, &cat);
    assert_eq!(r.status_text, "Not Found");
    let r = HttpResponse::new("HTTP/1.1".to_string(), "418".to_string(), None, Some("t".to_string()), &cat);
    assert_eq!(r.status_text, "Unknown Status");
    assert_eq!(r.status_code, "418");
    assert_eq!(r.resp_body, Some("t".to_string()));
    let r = HttpResponse::new("HTTP/2.0".to_string(), "200".to_string(), None, None, &cat);
    assert_eq!(r.status_text, "OK");
    assert_eq!(r.version, "HTTP/2.0");
}

#[test]
fn status_line_reads_back() {
    let mut r = HttpResponse::default();
    r.set_status(Status("503".to_string(), "Service Unavailable".to_string()));
    r.add_header("K".to_string(), "V".to_string());
    let (v, c, t) = parse_status_line(&r.to_wire_bytes()).unwrap();
    assert_eq!(v, b"HTTP/1.1".to_vec());
    assert_eq!(c, b"503".to_vec());
    assert_eq!(t, b"Service Unavailable".to_vec());
    assert!(parse_status_line(b"HTTP/1.1 200").is_none());
}

#[test]
fn serialized_parts() {
    let mut r = HttpResponse::default();
    assert_eq!(r.get_serialized_body(), "");
    r.set_body("12345678901".to_string());
    assert_eq!(r.get_serialized_body(), "12345678901");
    assert_eq!(r.get_serialized_headers(), b"Content-Length: 11\r\n".to_vec());
}

#[test]
fn header_insertion_order_does_not_change_wire() {
    let mut a = HttpResponse::default();
    a.add_header("X-B".to_string(), "2".to_string());
    a.add_header("X-A".to_string(), "1".to_string());
    let mut b = HttpResponse::default();
    b.add_header("X-A".to_string(), "0".to_string());
    b.add_header("X-B".to_string(), "2".to_string());
    b.add_header("X-A".to_string(), "1".to_string());
    assert_eq!(a.to_wire_bytes(), b.to_wire_bytes());
}
