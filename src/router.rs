//! Routing of requests to the static-resource handler and the API handler.
use vstd::prelude::*;
use crate::config::{lookup_in, utf8, MimeCatalog, StatusCatalog, OCTET_STREAM};
use crate::request::{HttpRequest, Method};
use crate::response::HttpResponse;
use crate::text::{copy_range, decode_lossy, lossy_utf8};
use vstd::utf8::{decode_utf8, valid_utf8};

verus! {

/// The path prefix of requests for static resources.
pub const STATIC_RES: &'static str = "/staticres";

/// The body that the API handler answers a `GET` with.
pub const API_GET_BODY: &'static str = "this is api response.";

/// The body that the API handler answers any other method with.
pub const API_OTHER_BODY: &'static str = "hello world";

/// The bytes of `/staticres`.
pub open spec fn static_prefix() -> Seq<u8> {
    seq![47u8, 115u8, 116u8, 97u8, 116u8, 105u8, 99u8, 114u8, 101u8, 115u8]
}

/// The last index of `x` in `s`, or -1.
pub open spec fn rfind(s: Seq<u8>, x: u8) -> int
    decreases s.len(),
{
    if s.len() == 0 {
        -1
    } else if s.last() == x {
        s.len() - 1
    } else {
        rfind(s.drop_last(), x)
    }
}

/// The extension of a resource path: what follows the last dot of its last
/// `/`-separated segment, if that segment has a dot.
pub open spec fn extension_of(path: Seq<u8>) -> Option<Seq<u8>> {
    let name = path.skip(rfind(path, 47u8) + 1);
    if rfind(name, 46u8) >= 0 { Some(name.skip(rfind(name, 46u8) + 1)) } else { None }
}

/// The content type of a resource path: its extension's catalog entry, or the
/// octet-stream type.
pub open spec fn content_type_for(mimes: Seq<(Seq<u8>, Seq<char>)>, path: Seq<u8>) -> Seq<char> {
    match extension_of(path) {
        Some(e) => match lookup_in(mimes, e) {
            Some(t) => t,
            None => OCTET_STREAM@,
        },
        None => OCTET_STREAM@,
    }
}

fn rfind_byte(s: &[u8], x: u8) -> (r: Option<usize>)
    ensures
        match r {
            Some(i) => i as int == rfind(s@, x) && i < s@.len(),
            None => rfind(s@, x) == -1,
        },
{
    let mut i: usize = s.len();
    assert(s@.take(i as int) =~= s@);
    while i > 0
        invariant
            i <= s@.len(),
            rfind(s@, x) == rfind(s@.take(i as int), x),
        decreases i,
    {
        assert(s@.take(i as int).drop_last() =~= s@.take(i - 1));
        if s[i - 1] == x {
            return Some(i - 1);
        }
        i = i - 1;
    }
    None
}

/// The extension of `path`, as `extension_of` describes it.
pub fn extension(path: &[u8]) -> (r: Option<Vec<u8>>)
    ensures
        match extension_of(path@) {
            Some(e) => r is Some && r->0@ == e,
            None => r is None,
        },
{
    let n = path.len();
    let start: usize = match rfind_byte(path, 47u8) {
        Some(i) => i + 1,
        None => 0,
    };
    let name = copy_range(path, start, n);
    assert(name@ =~= path@.skip(rfind(path@, 47u8) + 1));
    let m = name.len();
    match rfind_byte(name.as_slice(), 46u8) {
        Some(d) => {
            let e = copy_range(name.as_slice(), d + 1, m);
            assert(e@ =~= name@.skip(d + 1));
            Some(e)
        },
        None => None,
    }
}

/// Whether `path` starts with the static-resource prefix.
pub fn is_static_path(path: &[u8]) -> (r: bool)
    ensures
        r == (path@.len() >= 10 && path@.take(10) == static_prefix()),
{
    let p: Vec<u8> = vec![47u8, 115u8, 116u8, 97u8, 116u8, 105u8, 99u8, 114u8, 101u8, 115u8];
    if path.len() < 10 {
        return false;
    }
    let head = copy_range(path, 0, 10);
    assert(head@ =~= path@.take(10));
    assert(p@ =~= static_prefix());
    crate::text::compare_bytes(head.as_slice(), p.as_slice()) == 0
}

/// Produces a response for a request.
pub trait HttpHandler {
    fn handle(&self, request: &HttpRequest) -> HttpResponse;
}

/// Answers requests with the placeholder bodies of the API.
pub struct ApiHandler {}

impl ApiHandler {
    /// `200 OK` with one body for `GET` and another for every other method.
    pub fn respond(request: &HttpRequest) -> (r: HttpResponse)
        ensures
            r.wf(),
            r.version@ == "HTTP/1.1"@,
            r.status_code@ == "200"@,
            r.status_text@ == "OK"@,
            r.headers@.len() == 0,
            r.resp_body is Some,
            r.resp_body->0@ == if request.method == Method::GET { API_GET_BODY@ } else { API_OTHER_BODY@ },
    {
        let mut resp = HttpResponse::default();
        if request.method.is_get() {
            resp.set_body(API_GET_BODY.to_owned());
        } else {
            resp.set_body(API_OTHER_BODY.to_owned());
        }
        resp
    }
}

impl HttpHandler for ApiHandler {
    fn handle(&self, request: &HttpRequest) -> HttpResponse {
        ApiHandler::respond(request)
    }
}

/// Serves files under the static root, by the request path after the prefix.
pub struct StaticResHandler {}

impl StaticResHandler {
    /// The response for a static resource at `path`. With `content` (the
    /// resource was found) the body is that content and `Content-Type` comes
    /// from the extension; without it the body is `not_found_page`,
    /// `Content-Type` is `text/html` and the status is the catalog's 404.
    pub fn respond(
        path: &str,
        content: Option<String>,
        not_found_page: String,
        mimes: &MimeCatalog,
        statuses: &StatusCatalog,
    ) -> (r: HttpResponse)
        requires
            lookup_in(statuses@, utf8("404"@)) is Some,
        ensures
            r.wf(),
            r.version@ == "HTTP/1.1"@,
            r.headers@.len() == 1,
            match content {
                Some(c) => {
                    &&& r.status_code@ == "200"@
                    &&& r.status_text@ == "OK"@
                    &&& r.resp_body == Some(c)
                    &&& r.headers.value_of(utf8("Content-Type"@)) == Some(
                        utf8(content_type_for(mimes@, utf8(path@))),
                    )
                },
                None => {
                    &&& r.status_code@ == "404"@
                    &&& r.status_text@ == lookup_in(statuses@, utf8("404"@))->0
                    &&& r.resp_body == Some(not_found_page)
                    &&& r.headers.value_of(utf8("Content-Type"@)) == Some(utf8("text/html"@))
                },
            },
    {
        let mut resp = HttpResponse::default();
        match content {
            Some(c) => {
                resp.set_body(c);
                let ct = match extension(path.as_bytes()) {
                    Some(e) => mimes.content_type_of(e.as_slice()),
                    None => OCTET_STREAM.to_owned(),
                };
                resp.add_header("Content-Type".to_owned(), ct);
                resp
            },
            None => {
                resp.set_body(not_found_page);
                resp.add_header("Content-Type".to_owned(), "text/html".to_owned());
                match statuses.get("404") {
                    Some(st) => resp.set_status(st),
                    None => {},
                }
                resp
            },
        }
    }
}

/// Where a request goes.
pub enum Route {
    /// To the static-resource handler, with the path below the static root.
    Static(String),
    /// Answered at once.
    Respond(HttpResponse),
}

pub struct Router {}

impl Router {
    /// The response to `request`, given what the content provider returned
    /// for its static path (`content`, with `not_found_page` for a miss). A
    /// `GET` under the static prefix is answered by the static handler; any
    /// other request by the API handler, which ignores `content`.
    pub fn serve(
        request: &HttpRequest,
        content: Option<String>,
        not_found_page: String,
        mimes: &MimeCatalog,
        statuses: &StatusCatalog,
    ) -> (r: HttpResponse)
        requires
            lookup_in(statuses@, utf8("404"@)) is Some,
        ensures
            r.wf(),
            r.version@ == "HTTP/1.1"@,
            if request.method == Method::GET && utf8(request.resource->Path_0@).len() >= 10
                && utf8(request.resource->Path_0@).take(10) == static_prefix() {
                r.headers@.len() == 1 && match content {
                    Some(c) => {
                        &&& r.status_code@ == "200"@
                        &&& r.status_text@ == "OK"@
                        &&& r.resp_body == Some(c)
                        &&& r.headers.value_of(utf8("Content-Type"@)) == Some(
                            utf8(content_type_for(mimes@, utf8(request.resource->Path_0@))),
                        )
                    },
                    None => {
                        &&& r.status_code@ == "404"@
                        &&& r.status_text@ == lookup_in(statuses@, utf8("404"@))->0
                        &&& r.resp_body == Some(not_found_page)
                        &&& r.headers.value_of(utf8("Content-Type"@)) == Some(utf8("text/html"@))
                    },
                }
            } else {
                &&& r.status_code@ == "200"@
                &&& r.status_text@ == "OK"@
                &&& r.headers@.len() == 0
                &&& r.resp_body is Some
                &&& r.resp_body->0@ == if request.method == Method::GET {
                    API_GET_BODY@
                } else {
                    API_OTHER_BODY@
                }
            },
    {
        match Router::route(request) {
            Route::Respond(resp) => resp,
            Route::Static(_) => {
                let crate::request::Resource::Path(path) = &request.resource;
                StaticResHandler::respond(path.as_str(), content, not_found_page, mimes, statuses)
            },
        }
    }

    /// A `GET` whose path starts with the static prefix goes to the static
    /// handler with the rest of its path; any other request is answered by
    /// the API handler.
    pub fn route(request: &HttpRequest) -> (r: Route)
        ensures
            match r {
                Route::Static(rest) => {
                    &&& request.method == Method::GET
                    &&& utf8(request.resource->Path_0@).len() >= 10
                    &&& utf8(request.resource->Path_0@).take(10) == static_prefix()
                    &&& rest@ == lossy_utf8(utf8(request.resource->Path_0@).skip(10))
                    &&& valid_utf8(utf8(request.resource->Path_0@).skip(10))
                        ==> rest@ == decode_utf8(utf8(request.resource->Path_0@).skip(10))
                },
                Route::Respond(resp) => {
                    &&& !(request.method == Method::GET
                        && utf8(request.resource->Path_0@).len() >= 10
                        && utf8(request.resource->Path_0@).take(10) == static_prefix())
                    &&& resp.wf()
                    &&& resp.version@ == "HTTP/1.1"@
                    &&& resp.status_code@ == "200"@
                    &&& resp.status_text@ == "OK"@
                    &&& resp.headers@.len() == 0
                    &&& resp.resp_body is Some
                    &&& resp.resp_body->0@ == if request.method == Method::GET {
                        API_GET_BODY@
                    } else {
                        API_OTHER_BODY@
                    }
                },
            },
    {
        let crate::request::Resource::Path(path) = &request.resource;
        let bytes = path.as_str().as_bytes();
        if request.method.is_get() && is_static_path(bytes) {
            let n = bytes.len();
            let rest = copy_range(bytes, 10, n);
            assert(rest@ =~= bytes@.skip(10));
            Route::Static(decode_lossy(rest.as_slice()))
        } else {
            Route::Respond(ApiHandler::respond(request))
        }
    }
}

} // verus!
