use mini_http::config::{init, is_string_object, MimeCatalog, StatusCatalog, OCTET_STREAM};
use mini_http::request::{HttpRequest, ParseOutcome};
use mini_http::router::{extension, ApiHandler, HttpHandler, Route, Router, StaticResHandler};

fn req(buf: &[u8]) -> HttpRequest {
    match HttpRequest::parse(buf) {
        ParseOutcome::Complete(r, _) => r,
        _ => panic!("not complete"),
    }
}

fn catalogs() -> (StatusCatalog, MimeCatalog) {
    init(
        Some(r#"{"200": "OK", "404": "Not Found"}"#),
        Some(r#"{"application/javascript": "js mjs", "text/html": "html  htm", "text/plain": "txt js"}"#),
    )
}

#[test]
fn status_catalog_from_json() {
    let (st, _) = catalogs();
    let s = st.get("404").unwrap();
    assert_eq!(s.0, "404");
    assert_eq!(s.1, "Not Found");
    assert!(st.get("500").is_none());
    assert!(st.contains("200"));
}

#[test]
fn mime_catalog_inverts_and_last_wins() {
    let (_, mm) = catalogs();
    assert_eq!(mm.get(b"mjs"), Some("application/javascript".to_string()));
    assert_eq!(mm.get(b"htm"), Some("text/html".to_string()));
    // "text/plain" comes after "application/javascript" in key order.
    assert_eq!(mm.get(b"js"), Some("text/plain".to_string()));
    assert_eq!(mm.content_type_of(b"png"), OCTET_STREAM.to_string());
}

#[test]
fn bad_or_missing_sources_give_empty_catalogs() {
    let (st, mm) = init(Some("not json"), None);
    assert!(st.get("404").is_none());
    assert!(mm.get(b"js").is_none());
    let st = StatusCatalog::from_json(r#"{"404": 7}"#);
    assert!(!st.contains("404"));
}

#[test]
fn extension_of_paths() {
    assert_eq!(extension(b"/staticres/app.min.js"), Some(b"js".to_vec()));
    assert_eq!(extension(b"/staticres/v1.2/README"), None);
    assert_eq!(extension(b"/x/archive."), Some(b"".to_vec()));
}

#[test]
fn get_static_path_goes_to_static_handler() {
    let r = req(b"GET /staticres/app.js HTTP/1.1\r\n\r\n");
    match Router::route(&r) {
        Route::Static(rest) => assert_eq!(rest, "/app.js"),
        Route::Respond(_) => panic!("expected static"),
    }
}

#[test]
fn static_handler_sets_content_type() {
    let (st, mm) = catalogs();
    let resp = StaticResHandler::respond(
        "/staticres/app.mjs",
        Some("console.log(1)".to_string()),
        "missing".to_string(),
        &mm,
        &st,
    );
    assert_eq!(resp.status_code, "200");
    assert_eq!(resp.resp_body, Some("console.log(1)".to_string()));
    assert_eq!(resp.headers.get("Content-Type"), Some("application/javascript".to_string()));
    let resp = StaticResHandler::respond("/staticres/blob", Some("b".to_string()), String::new(), &mm, &st);
    assert_eq!(resp.headers.get("Content-Type"), Some(OCTET_STREAM.to_string()));
}

#[test]
fn static_handler_missing_file_is_404() {
    let (st, mm) = catalogs();
    let resp = StaticResHandler::respond("/staticres/missing.txt", None, "<h1>404</h1>".to_string(), &mm, &st);
    assert_eq!(resp.status_code, "404");
    assert_eq!(resp.status_text, "Not Found");
    assert_eq!(resp.resp_body, Some("<h1>404</h1>".to_string()));
    assert_eq!(resp.headers.get("Content-Type"), Some("text/html".to_string()));
}

#[test]
fn post_anything_gets_placeholder() {
    for buf in [&b"POST /anything HTTP/1.1\r\n\r\n"[..], &b"POST /staticres/app.js HTTP/1.1\r\n\r\n"[..]] {
        match Router::route(&req(buf)) {
            Route::Respond(resp) => assert_eq!(resp.resp_body, Some("hello world".to_string())),
            Route::Static(_) => panic!("non-GET must not reach the static handler"),
        }
    }
}

#[test]
fn get_other_path_gets_api_placeholder() {
    match Router::route(&req(b"GET /api/x HTTP/1.1\r\n\r\n")) {
        Route::Respond(resp) => {
            assert_eq!(resp.resp_body, Some("this is api response.".to_string()));
            assert_eq!(resp.status_code, "200");
        }
        Route::Static(_) => panic!("expected api"),
    }
    let h = ApiHandler {};
    let resp = h.handle(&req(b"DELETE /a HTTP/1.1\r\n\r\n"));
    assert_eq!(resp.resp_body, Some("hello world".to_string()));
}

#[test]
fn non_ascii_static_path_is_decoded() {
    let r = req("GET /staticres/caf\u{e9}.txt HTTP/1.1\r\n\r\n".as_bytes());
    match Router::route(&r) {
        Route::Static(rest) => assert_eq!(rest, "/caf\u{e9}.txt"),
        Route::Respond(_) => panic!("expected static"),
    }
}

#[test]
fn catalogs_from_pairs() {
    let st = StatusCatalog::from_pairs(vec![
        ("500".to_string(), "Oops".to_string()),
        ("500".to_string(), "Internal Server Error".to_string()),
    ]);
    assert_eq!(st.get("500").unwrap().1, "Internal Server Error");
    let mm = MimeCatalog::from_pairs(vec![
        ("text/css".to_string(), " css\tscss ".to_string()),
        ("text/x-scss".to_string(), "scss".to_string()),
    ]);
    assert_eq!(mm.get(b"css"), Some("text/css".to_string()));
    assert_eq!(mm.get(b"scss"), Some("text/x-scss".to_string()));
    assert_eq!(mm.get(b""), None);
}

#[test]
fn placeholder_responses_are_http11_ok() {
    for buf in [&b"POST /anything HTTP/1.1\r\n\r\n"[..], &b"GET /api/hello HTTP/1.1\r\n\r\n"[..]] {
        match Router::route(&req(buf)) {
            Route::Respond(resp) => {
                assert_eq!(resp.status_code, "200");
                assert_eq!(resp.status_text, "OK");
                assert_eq!(resp.version, "HTTP/1.1");
                assert_eq!(resp.headers.len(), 0);
            }
            Route::Static(_) => panic!("expected a placeholder"),
        }
    }
}

#[test]
fn unicode_whitespace_separates_extensions() {
    let mm = MimeCatalog::from_pairs(vec![("text/javascript".to_string(), "js\u{3000}mjs\u{2028}cjs".to_string())]);
    assert_eq!(mm.get(b"js"), Some("text/javascript".to_string()));
    assert_eq!(mm.get(b"mjs"), Some("text/javascript".to_string()));
    assert_eq!(mm.get(b"cjs"), Some("text/javascript".to_string()));
}

#[test]
fn string_object_check() {
    assert!(is_string_object(r#"{"a": "b"}"#));
    assert!(!is_string_object(r#"{"a": 1}"#));
    assert!(!is_string_object("[1, 2"));
}

#[test]
fn serve_dispatches_whole_request() {
    let (st, mm) = catalogs();
    let r = Router::serve(&req(b"GET /staticres/app.js HTTP/1.1\r\n\r\n"), Some("c".to_string()), String::new(), &mm, &st);
    assert_eq!(r.status_code, "200");
    assert_eq!(r.resp_body, Some("c".to_string()));
    assert_eq!(r.headers.get("Content-Type"), Some("text/plain".to_string()));
    let r = Router::serve(&req(b"GET /staticres/missing.txt HTTP/1.1\r\n\r\n"), None, "nf".to_string(), &mm, &st);
    assert_eq!(r.status_code, "404");
    assert_eq!(r.status_text, "Not Found");
    assert_eq!(r.resp_body, Some("nf".to_string()));
    assert_eq!(r.headers.get("Content-Type"), Some("text/html".to_string()));
    let r = Router::serve(&req(b"POST /anything HTTP/1.1\r\n\r\n"), Some("ignored".to_string()), String::new(), &mm, &st);
    assert_eq!(r.resp_body, Some("hello world".to_string()));
}
