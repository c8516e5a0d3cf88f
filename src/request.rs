//! Requests and the parser that reads them from the bytes of a connection.
use vstd::prelude::*;
use crate::response::{crlf, content_length_name, HeaderMap, pairs_value};
use crate::config::utf8;
use vstd::utf8::{decode_utf8, valid_utf8};
use crate::text::{
    decode_lossy, find_byte, find_from, is_usize_text, lossy_utf8, parse_decimal, usize_value,
    split_ws, copy_range, trim, trim_ws, ws_tokens, compare_bytes,
};

verus! {

pub enum Method {
    GET,
    POST,
    PUT,
    DELETE,
    UNKNOWN,
}

pub enum Version {
    HTTP1_1,
    HTTP2_0,
    UNKNOWN,
}

pub enum Resource {
    Path(String),
}

/// A parsed request.
pub struct HttpRequest {
    pub method: Method,
    pub version: Version,
    pub resource: Resource,
    pub headers: HeaderMap,
    pub msg_body: Option<String>,
}

pub open spec fn ascii_lower(b: u8) -> u8 {
    if 65u8 <= b <= 90u8 { (b + 32) as u8 } else { b }
}

/// Whether `a` equals the lower-case `lit` when ASCII letters are compared
/// without case.
pub open spec fn eq_ignore_case(a: Seq<u8>, lit: Seq<u8>) -> bool {
    a.len() == lit.len() && forall|i: int| 0 <= i < a.len() ==> ascii_lower(#[trigger] a[i]) == lit[i]
}

fn eq_ignore_case_exec(a: &[u8], lit: &[u8]) -> (r: bool)
    ensures
        r == eq_ignore_case(a@, lit@),
{
    if a.len() != lit.len() {
        return false;
    }
    let mut i: usize = 0;
    while i < a.len()
        invariant
            a@.len() == lit@.len(),
            i <= a@.len(),
            forall|j: int| 0 <= j < i ==> ascii_lower(#[trigger] a@[j]) == lit@[j],
        decreases a.len() - i,
    {
        let c = a[i];
        let l = if 65u8 <= c && c <= 90u8 { c + 32 } else { c };
        if l != lit[i] {
            return false;
        }
        i = i + 1;
    }
    true
}

pub open spec fn get_lit() -> Seq<u8> { seq![103u8, 101u8, 116u8] }
pub open spec fn post_lit() -> Seq<u8> { seq![112u8, 111u8, 115u8, 116u8] }
pub open spec fn put_lit() -> Seq<u8> { seq![112u8, 117u8, 116u8] }
pub open spec fn delete_lit() -> Seq<u8> { seq![100u8, 101u8, 108u8, 101u8, 116u8, 101u8] }
/// `http/1.1`
pub open spec fn http11_lit() -> Seq<u8> { seq![104u8, 116u8, 116u8, 112u8, 47u8, 49u8, 46u8, 49u8] }
/// `http/2.0`
pub open spec fn http20_lit() -> Seq<u8> { seq![104u8, 116u8, 116u8, 112u8, 47u8, 50u8, 46u8, 48u8] }

/// The method that a token names, without regard to case.
pub open spec fn method_of(t: Seq<u8>) -> Method {
    if eq_ignore_case(t, get_lit()) {
        Method::GET
    } else if eq_ignore_case(t, post_lit()) {
        Method::POST
    } else if eq_ignore_case(t, put_lit()) {
        Method::PUT
    } else if eq_ignore_case(t, delete_lit()) {
        Method::DELETE
    } else {
        Method::UNKNOWN
    }
}

/// The protocol version that a token names, without regard to case.
pub open spec fn version_of(t: Seq<u8>) -> Version {
    if eq_ignore_case(t, http11_lit()) {
        Version::HTTP1_1
    } else if eq_ignore_case(t, http20_lit()) {
        Version::HTTP2_0
    } else {
        Version::UNKNOWN
    }
}

impl Method {
    pub fn from_token(t: &[u8]) -> (r: Method)
        ensures
            r == method_of(t@),
    {
        let g: Vec<u8> = vec![103u8, 101u8, 116u8];
        let po: Vec<u8> = vec![112u8, 111u8, 115u8, 116u8];
        let pu: Vec<u8> = vec![112u8, 117u8, 116u8];
        let d: Vec<u8> = vec![100u8, 101u8, 108u8, 101u8, 116u8, 101u8];
        assert(g@ =~= get_lit());
        assert(po@ =~= post_lit());
        assert(pu@ =~= put_lit());
        assert(d@ =~= delete_lit());
        if eq_ignore_case_exec(t, g.as_slice()) {
            Method::GET
        } else if eq_ignore_case_exec(t, po.as_slice()) {
            Method::POST
        } else if eq_ignore_case_exec(t, pu.as_slice()) {
            Method::PUT
        } else if eq_ignore_case_exec(t, d.as_slice()) {
            Method::DELETE
        } else {
            Method::UNKNOWN
        }
    }

    pub fn is_get(&self) -> (r: bool)
        ensures
            r == (*self == Method::GET),
    {
        match self {
            Method::GET => true,
            _ => false,
        }
    }
}

impl Version {
    pub fn from_token(t: &[u8]) -> (r: Version)
        ensures
            r == version_of(t@),
    {
        let a: Vec<u8> = vec![104u8, 116u8, 116u8, 112u8, 47u8, 49u8, 46u8, 49u8];
        let b: Vec<u8> = vec![104u8, 116u8, 116u8, 112u8, 47u8, 50u8, 46u8, 48u8];
        assert(a@ =~= http11_lit());
        assert(b@ =~= http20_lit());
        if eq_ignore_case_exec(t, a.as_slice()) {
            Version::HTTP1_1
        } else if eq_ignore_case_exec(t, b.as_slice()) {
            Version::HTTP2_0
        } else {
            Version::UNKNOWN
        }
    }
}

/// The method of a request line: its first of exactly three tokens, `GET`
/// when the line does not have three.
pub open spec fn line_method(line: Seq<u8>) -> Method {
    if ws_tokens(line).len() == 3 { method_of(ws_tokens(line)[0]) } else { Method::GET }
}

/// The resource path of a request line: its second of exactly three tokens,
/// `/` when the line does not have three.
pub open spec fn line_path(line: Seq<u8>) -> Seq<char> {
    if ws_tokens(line).len() == 3 { lossy_utf8(ws_tokens(line)[1]) } else { seq!['/'] }
}

/// The version of a request line: its third of exactly three tokens,
/// HTTP/1.1 when the line does not have three.
pub open spec fn line_version(line: Seq<u8>) -> Version {
    if ws_tokens(line).len() == 3 { version_of(ws_tokens(line)[2]) } else { Version::HTTP1_1 }
}

/// Where the path token of a request line is valid UTF-8, `path` is the
/// text it encodes.
pub open spec fn path_decodes(line: Seq<u8>, path: Seq<char>) -> bool {
    ws_tokens(line).len() == 3 && valid_utf8(ws_tokens(line)[1]) ==> path == decode_utf8(ws_tokens(line)[1])
}

/// Reads the method, path and version of a request line.
pub fn process_req_line(line: &[u8]) -> (r: (Method, Resource, Version))
    ensures
        r.0 == line_method(line@),
        r.1->Path_0@ == line_path(line@),
        path_decodes(line@, r.1->Path_0@),
        r.2 == line_version(line@),
{
    let toks = split_ws(line);
    proof {
        assert(toks@.map_values(|t: Vec<u8>| t@).len() == toks@.len());
    }
    if toks.len() == 3 {
        assert(toks@[0]@ == ws_tokens(line@)[0]);
        assert(toks@[1]@ == ws_tokens(line@)[1]);
        assert(toks@[2]@ == ws_tokens(line@)[2]);
        (
            Method::from_token(toks[0].as_slice()),
            Resource::Path(decode_lossy(toks[1].as_slice())),
            Version::from_token(toks[2].as_slice()),
        )
    } else {
        let slash: String = "/".to_owned();
        proof {
            reveal_strlit("/");
        }
        assert(slash@ =~= seq!['/']);
        (Method::GET, Resource::Path(slash), Version::HTTP1_1)
    }
}

/// Whether a header line holds a colon.
pub open spec fn has_colon(line: Seq<u8>) -> bool {
    find_from(line, 58u8, 0) >= 0
}

/// The name of a header line: what precedes its first colon.
pub open spec fn header_name(line: Seq<u8>) -> Seq<u8> {
    line.take(find_from(line, 58u8, 0))
}

/// What follows the first colon of a header line, as it stands.
pub open spec fn header_rest(line: Seq<u8>) -> Seq<u8> {
    line.skip(find_from(line, 58u8, 0) + 1)
}

/// The value of a header line: what follows its first colon, trimmed.
pub open spec fn header_value(line: Seq<u8>) -> Seq<u8> {
    trim(header_rest(line))
}

/// Splits a header line on its first colon into the name and the rest of
/// the line, both as they stand.
pub fn process_request_header(line: &[u8]) -> (r: Option<(Vec<u8>, Vec<u8>)>)
    ensures
        r is Some <==> has_colon(line@),
        r is Some ==> (r->0).0@ == header_name(line@) && (r->0).1@ == header_rest(line@),
{
    match find_byte(line, 58u8, 0) {
        None => None,
        Some(c) => {
            proof {
                crate::text::lemma_find_from_bounds(line@, 58u8, 0);
            }
            let name = copy_range(line, 0, c);
            let n = line.len();
            let rest = copy_range(line, c + 1, n);
            assert(name@ =~= header_name(line@));
            assert(rest@ =~= line@.skip(c + 1));
            Some((name, rest))
        }
    }
}

/// How far the header section of `b` from `pos` on has been read.
pub enum HeadScan {
    /// The blank line that ends the headers is not there yet.
    Incomplete,
    /// A `Content-Length` value is not a number that fits a `usize`.
    Malformed,
    /// The headers end just before `end`; `content_length` is the body's length.
    Done { headers: Seq<(Seq<u8>, Seq<u8>)>, content_length: nat, end: int },
}

/// Reads header lines of `b` from `pos`, after the fields `hs` and with the
/// body length `clen` found so far. A line holding only CR LF ends the
/// headers; a line without a colon is skipped.
pub open spec fn scan_head(b: Seq<u8>, pos: int, hs: Seq<(Seq<u8>, Seq<u8>)>, clen: nat) -> HeadScan
    decreases b.len() - pos,
{
    let e = find_from(b, 10u8, pos);
    if pos < 0 || e < pos || e >= b.len() {
        HeadScan::Incomplete
    } else {
        let line = b.subrange(pos, e + 1);
        if line == crlf() {
            HeadScan::Done { headers: hs, content_length: clen, end: e + 1 }
        } else if has_colon(line) {
            let name = header_name(line);
            let value = header_value(line);
            if name == content_length_name() {
                if is_usize_text(value) {
                    scan_head(b, e + 1, hs.push((name, value)), usize_value(value))
                } else {
                    HeadScan::Malformed
                }
            } else {
                scan_head(b, e + 1, hs.push((name, value)), clen)
            }
        } else {
            scan_head(b, e + 1, hs, clen)
        }
    }
}

/// What a buffer holding the start of a connection's bytes reads as.
pub enum RequestScan {
    Incomplete,
    Malformed,
    Complete { line: Seq<u8>, headers: Seq<(Seq<u8>, Seq<u8>)>, body: Option<Seq<u8>>, consumed: int },
}

/// The request at the start of `b`: a request line, header lines up to a
/// blank line, then exactly `Content-Length` bytes of body; the body is
/// absent when that length is zero or not given.
pub open spec fn scan_request(b: Seq<u8>) -> RequestScan {
    let e1 = find_from(b, 10u8, 0);
    if e1 < 0 {
        RequestScan::Incomplete
    } else {
        match scan_head(b, e1 + 1, Seq::empty(), 0) {
            HeadScan::Incomplete => RequestScan::Incomplete,
            HeadScan::Malformed => RequestScan::Malformed,
            HeadScan::Done { headers, content_length, end } => {
                if end + content_length > b.len() {
                    RequestScan::Incomplete
                } else {
                    RequestScan::Complete {
                        line: b.take(e1 + 1),
                        headers,
                        body: if content_length > 0 {
                            Some(b.subrange(end, end + content_length))
                        } else {
                            None
                        },
                        consumed: end + content_length,
                    }
                }
            },
        }
    }
}

/// The outcome of reading a request from the start of a buffer.
pub enum ParseOutcome {
    /// More bytes are needed.
    Incomplete,
    /// The request cannot be read; the connection should be closed.
    Malformed,
    /// A request, and how many bytes of the buffer it took.
    Complete(HttpRequest, usize),
}

/// The header fields as the request holds them: names and values decoded.
pub open spec fn decoded_fields(hs: Seq<(Seq<u8>, Seq<u8>)>) -> Seq<(Seq<u8>, Seq<u8>)> {
    hs.map_values(|h: (Seq<u8>, Seq<u8>)| (utf8(lossy_utf8(h.0)), utf8(lossy_utf8(h.1))))
}

/// Whether `req` is the request that `line`, `headers` and `body` describe.
pub open spec fn request_matches(
    req: HttpRequest,
    line: Seq<u8>,
    headers: Seq<(Seq<u8>, Seq<u8>)>,
    body: Option<Seq<u8>>,
) -> bool {
    &&& req.method == line_method(line)
    &&& req.resource->Path_0@ == line_path(line)
    &&& path_decodes(line, req.resource->Path_0@)
    &&& req.version == line_version(line)
    &&& req.headers.wf()
    &&& forall|k: Seq<u8>| #[trigger] req.headers.value_of(k) == pairs_value(decoded_fields(headers), k)
    &&& match body {
        None => req.msg_body is None,
        Some(bb) => {
            &&& req.msg_body is Some
            &&& req.msg_body->0@ == lossy_utf8(bb)
            &&& valid_utf8(bb) ==> req.msg_body->0@ == decode_utf8(bb)
        },
    }
}

pub open spec fn outcome_matches(r: ParseOutcome, s: RequestScan) -> bool {
    match s {
        RequestScan::Incomplete => r is Incomplete,
        RequestScan::Malformed => r is Malformed,
        RequestScan::Complete { line, headers, body, consumed } => match r {
            ParseOutcome::Complete(req, n) => n == consumed && request_matches(req, line, headers, body),
            _ => false,
        },
    }
}

impl HttpRequest {
    /// `GET /` over HTTP/1.1 with no headers and no body.
    pub fn default() -> (r: HttpRequest)
        ensures
            r.method == Method::GET,
            r.version == Version::HTTP1_1,
            r.resource->Path_0@ == seq!['/'],
            r.headers.wf(),
            r.headers@.len() == 0,
            r.msg_body is None,
    {
        let slash: String = "/".to_owned();
        proof {
            reveal_strlit("/");
        }
        assert(slash@ =~= seq!['/']);
        HttpRequest {
            method: Method::GET,
            version: Version::HTTP1_1,
            resource: Resource::Path(slash),
            headers: HeaderMap::new(),
            msg_body: None,
        }
    }

    /// Reads one request from the start of `buf`, which holds the bytes
    /// received so far. Lines end with LF; the headers end with a line that
    /// is only CR LF. A request line without exactly three tokens gives the
    /// default method, path and version; the header lines and body that
    /// follow it are still read, so that the request's bytes are consumed
    /// whole and the connection stays in step.
    pub fn parse(buf: &[u8]) -> (r: ParseOutcome)
        ensures
            outcome_matches(r, scan_request(buf@)),
    {
        let e1 = match find_byte(buf, 10u8, 0) {
            None => return ParseOutcome::Incomplete,
            Some(e) => e,
        };
        proof {
            crate::text::lemma_find_from_bounds(buf@, 10u8, 0);
        }
        let line1 = copy_range(buf, 0, e1 + 1);
        let (method, resource, version) = process_req_line(line1.as_slice());
        let cl = crate::response::content_length_bytes();
        let mut pos: usize = e1 + 1;
        let mut fields: Vec<(String, String)> = Vec::new();
        let ghost mut hs: Seq<(Seq<u8>, Seq<u8>)> = Seq::empty();
        let mut clen: usize = 0;
        let ghost start = scan_head(buf@, e1 + 1, Seq::empty(), 0);
        assert(fields@.map_values(|f: (String, String)| (utf8(f.0@), utf8(f.1@))) =~= decoded_fields(hs));
        let mut end: usize = 0;
        loop
            invariant
                pos <= buf@.len(),
                e1 as int == find_from(buf@, 10u8, 0),
                e1 < buf@.len(),
                start == scan_head(buf@, e1 + 1, Seq::empty(), 0),
                line1@ == buf@.subrange(0, e1 + 1),
                method == line_method(line1@),
                resource->Path_0@ == line_path(line1@),
                path_decodes(line1@, resource->Path_0@),
                version == line_version(line1@),
                cl@ == content_length_name(),
                scan_head(buf@, pos as int, hs, clen as nat) == start,
                crate::response::pair_bytes(fields@) == decoded_fields(hs),
            ensures
                end <= buf@.len(),
                start == (HeadScan::Done { headers: hs, content_length: clen as nat, end: end as int }),
                crate::response::pair_bytes(fields@) == decoded_fields(hs),
            decreases buf.len() - pos,
        {
            let e = match find_byte(buf, 10u8, pos) {
                None => return ParseOutcome::Incomplete,
                Some(e) => e,
            };
            proof {
                crate::text::lemma_find_from_bounds(buf@, 10u8, pos as int);
            }
            let line = copy_range(buf, pos, e + 1);
            if line.len() == 2 && line[0] == 13u8 && line[1] == 10u8 {
                assert(line@ =~= crlf());
                end = e + 1;
                break;
            }
            assert(line@ != crlf());
            match process_request_header(line.as_slice()) {
                None => {},
                Some((name, rest)) => {
                    let value = trim_ws(rest.as_slice());
                    let ghost prev = fields@;
                    let is_cl = compare_bytes(name.as_slice(), cl.as_slice()) == 0;
                    if is_cl {
                        match parse_decimal(value.as_slice()) {
                            None => return ParseOutcome::Malformed,
                            Some(n) => {
                                clen = n;
                            },
                        }
                    }
                    let k = decode_lossy(name.as_slice());
                    let v = decode_lossy(value.as_slice());
                    fields.push((k, v));
                    proof {
                        assert(crate::response::pair_bytes(fields@) =~= crate::response::pair_bytes(prev).push((utf8(k@), utf8(v@))));
                        hs = hs.push((name@, value@));
                        assert(crate::response::pair_bytes(fields@) =~= decoded_fields(hs));
                    }
                },
            }
            pos = e + 1;
        }
        let headers = HeaderMap::from_pairs(fields);
        if clen > buf.len() - end {
            return ParseOutcome::Incomplete;
        }
        let msg_body = if clen > 0 {
            let body = copy_range(buf, end, end + clen);
            Some(decode_lossy(body.as_slice()))
        } else {
            None
        };
        let req = HttpRequest { method, version, resource, headers, msg_body };
        ParseOutcome::Complete(req, end + clen)
    }
}



/// The body length that the header fields `hs` announce: the value of the
/// last `Content-Length` field, zero when there is none.
pub open spec fn announced_length(hs: Seq<(Seq<u8>, Seq<u8>)>) -> nat {
    match pairs_value(hs, content_length_name()) {
        Some(v) => usize_value(v),
        None => 0,
    }
}

proof fn lemma_find_from_agree(b1: Seq<u8>, b2: Seq<u8>, x: u8, i: int)
    requires
        0 <= i,
        0 <= find_from(b1, x, i),
        find_from(b1, x, i) < b2.len(),
        b2.take(find_from(b1, x, i) + 1) == b1.take(find_from(b1, x, i) + 1),
    ensures
        find_from(b2, x, i) == find_from(b1, x, i),
    decreases b1.len() - i,
{
    let e = find_from(b1, x, i);
    crate::text::lemma_find_from_bounds(b1, x, i);
    assert(b2[i] == b2.take(e + 1)[i]);
    assert(b1[i] == b1.take(e + 1)[i]);
    if b1[i] != x {
        lemma_find_from_agree(b1, b2, x, i + 1);
    }
}

proof fn lemma_scan_head_facts(b: Seq<u8>, pos: int, hs: Seq<(Seq<u8>, Seq<u8>)>, clen: nat)
    requires
        clen == announced_length(hs),
    ensures
        scan_head(b, pos, hs, clen) matches HeadScan::Done { headers, content_length, end }
            ==> content_length == announced_length(headers) && pos < end <= b.len()
                && pos <= find_from(b, 10u8, pos) < end,
    decreases b.len() - pos,
{
    let e = find_from(b, 10u8, pos);
    if !(pos < 0 || e < pos || e >= b.len()) {
        let line = b.subrange(pos, e + 1);
        if line != crlf() && has_colon(line) {
            let name = header_name(line);
            let value = header_value(line);
            let hs2 = hs.push((name, value));
            assert(hs2.drop_last() =~= hs);
            if name == content_length_name() {
                if is_usize_text(value) {
                    lemma_scan_head_facts(b, e + 1, hs2, usize_value(value));
                }
            } else {
                assert(announced_length(hs2) == announced_length(hs));
                lemma_scan_head_facts(b, e + 1, hs2, clen);
            }
        } else if line != crlf() {
            lemma_scan_head_facts(b, e + 1, hs, clen);
        }
    }
}

proof fn lemma_scan_head_prefix(b1: Seq<u8>, b2: Seq<u8>, pos: int, hs: Seq<(Seq<u8>, Seq<u8>)>, clen: nat, n: int)
    requires
        clen == announced_length(hs),
        scan_head(b1, pos, hs, clen) matches HeadScan::Done { end, .. } && end <= n,
        n <= b1.len(),
        n <= b2.len(),
        b2.take(n) == b1.take(n),
    ensures
        scan_head(b2, pos, hs, clen) == scan_head(b1, pos, hs, clen),
    decreases b1.len() - pos,
{
    let e = find_from(b1, 10u8, pos);
    lemma_scan_head_facts(b1, pos, hs, clen);
    if !(pos < 0 || e < pos || e >= b1.len()) {
        assert(b2.take(e + 1) =~= b1.take(e + 1)) by {
            assert forall|j: int| 0 <= j < e + 1 implies #[trigger] b2.take(e + 1)[j] == b1.take(e + 1)[j] by {
                assert(b2.take(n)[j] == b1.take(n)[j]);
            }
        }
        lemma_find_from_agree(b1, b2, 10u8, pos);
        assert(b2.subrange(pos, e + 1) =~= b1.subrange(pos, e + 1)) by {
            assert forall|j: int| pos <= j < e + 1 implies b2[j] == b1[j] by {
                assert(b2.take(n)[j] == b2[j]);
                assert(b1.take(n)[j] == b1[j]);
                assert(b2.take(n)[j] == b1.take(n)[j]);
            }
        }
        let line = b1.subrange(pos, e + 1);
        if line != crlf() && has_colon(line) {
            let name = header_name(line);
            let value = header_value(line);
            let hs2 = hs.push((name, value));
            assert(hs2.drop_last() =~= hs);
            if name == content_length_name() {
                if is_usize_text(value) {
                    lemma_scan_head_prefix(b1, b2, e + 1, hs2, usize_value(value), n);
                }
            } else {
                assert(announced_length(hs2) == announced_length(hs));
                lemma_scan_head_prefix(b1, b2, e + 1, hs2, clen, n);
            }
        } else if line != crlf() {
            lemma_scan_head_prefix(b1, b2, e + 1, hs, clen, n);
        }
    }
}

/// A complete request carries a body exactly when its headers announce a
/// `Content-Length` above zero, and the body is then exactly that many bytes,
/// the last ones that the request takes.
pub proof fn lemma_body_matches_content_length(b: Seq<u8>)
    requires
        scan_request(b) is Complete,
    ensures
        scan_request(b) matches RequestScan::Complete { headers, body, consumed, .. } && {
            let n = announced_length(headers);
            &&& (body is None <==> n == 0)
            &&& body matches Some(bb) ==> bb.len() == n && bb == b.subrange(consumed - n, consumed)
        },
{
    let e1 = find_from(b, 10u8, 0);
    assert(announced_length(Seq::empty()) == 0);
    lemma_scan_head_facts(b, e1 + 1, Seq::empty(), 0);
}

proof fn lemma_find_from_in_prefix(b: Seq<u8>, x: u8, i: int, k: int)
    requires
        0 <= i,
        0 <= k <= b.len(),
    ensures
        find_from(b.take(k), x, i) == (if 0 <= find_from(b, x, i) < k { find_from(b, x, i) } else { -1 }),
    decreases b.len() - i,
{
    crate::text::lemma_find_from_bounds(b, x, i);
    if i < k && b[i] != x {
        lemma_find_from_in_prefix(b, x, i + 1, k);
    } else if i < k {
        assert(b.take(k)[i] == b[i]);
    }
}

proof fn lemma_scan_head_cut(b: Seq<u8>, pos: int, hs: Seq<(Seq<u8>, Seq<u8>)>, clen: nat, k: int)
    requires
        clen == announced_length(hs),
        0 <= pos,
        scan_head(b, pos, hs, clen) matches HeadScan::Done { end, .. } && k < end,
        0 <= k <= b.len(),
    ensures
        scan_head(b.take(k), pos, hs, clen) is Incomplete,
    decreases b.len() - pos,
{
    let e = find_from(b, 10u8, pos);
    lemma_scan_head_facts(b, pos, hs, clen);
    lemma_find_from_in_prefix(b, 10u8, pos, k);
    if e < k {
        let c = b.take(k);
        assert(c.subrange(pos, e + 1) =~= b.subrange(pos, e + 1));
        let line = b.subrange(pos, e + 1);
        if line != crlf() && has_colon(line) {
            let name = header_name(line);
            let value = header_value(line);
            let hs2 = hs.push((name, value));
            assert(hs2.drop_last() =~= hs);
            if name == content_length_name() {
                lemma_scan_head_cut(b, e + 1, hs2, usize_value(value), k);
            } else {
                assert(announced_length(hs2) == announced_length(hs));
                lemma_scan_head_cut(b, e + 1, hs2, clen, k);
            }
        } else {
            lemma_scan_head_cut(b, e + 1, hs, clen, k);
        }
    }
}

/// While fewer bytes than a request takes have arrived, the parser asks for
/// more: no cut of the bytes before its end reads as a request or as an error.
pub proof fn lemma_request_waits_for_its_bytes(b: Seq<u8>, k: int)
    requires
        scan_request(b) is Complete,
        0 <= k < scan_request(b)->consumed,
    ensures
        scan_request(b.take(k)) is Incomplete,
{
    let e1 = find_from(b, 10u8, 0);
    assert(announced_length(Seq::empty()) == 0);
    lemma_scan_head_facts(b, e1 + 1, Seq::empty(), 0);
    crate::text::lemma_find_from_bounds(b, 10u8, 0);
    lemma_find_from_in_prefix(b, 10u8, 0, k);
    let d = scan_head(b, e1 + 1, Seq::empty(), 0);
    if e1 < k {
        if k < d->end {
            lemma_scan_head_cut(b, e1 + 1, Seq::empty(), 0, k);
        } else {
            assert(b.take(k).take(d->end) =~= b.take(d->end));
            lemma_request_fixed_by_its_bytes_to(b, b.take(k), d->end);
        }
    }
}

proof fn lemma_request_fixed_by_its_bytes_to(b1: Seq<u8>, b2: Seq<u8>, n: int)
    requires
        scan_request(b1) is Complete,
        find_from(b1, 10u8, 0) >= 0,
        scan_head(b1, find_from(b1, 10u8, 0) + 1, Seq::empty(), 0)->end == n,
        scan_head(b1, find_from(b1, 10u8, 0) + 1, Seq::empty(), 0) is Done,
        n <= b2.len(),
        n <= b1.len(),
        b2.take(n) == b1.take(n),
    ensures
        find_from(b2, 10u8, 0) == find_from(b1, 10u8, 0),
        scan_head(b2, find_from(b1, 10u8, 0) + 1, Seq::empty(), 0)
            == scan_head(b1, find_from(b1, 10u8, 0) + 1, Seq::empty(), 0),
{
    let e1 = find_from(b1, 10u8, 0);
    assert(announced_length(Seq::empty()) == 0);
    lemma_scan_head_facts(b1, e1 + 1, Seq::empty(), 0);
    crate::text::lemma_find_from_bounds(b1, 10u8, 0);
    assert(b2.take(e1 + 1) =~= b1.take(e1 + 1)) by {
        assert forall|j: int| 0 <= j < e1 + 1 implies #[trigger] b2.take(e1 + 1)[j] == b1.take(e1 + 1)[j] by {
            assert(b2.take(n)[j] == b1.take(n)[j]);
        }
    }
    lemma_find_from_agree(b1, b2, 10u8, 0);
    lemma_scan_head_prefix(b1, b2, e1 + 1, Seq::empty(), 0, n);
}

/// Once the bytes received hold a complete request, what follows them does
/// not change it: any buffer that begins with the same `consumed` bytes reads
/// as the same request, however those bytes were split across reads.
pub proof fn lemma_request_fixed_by_its_bytes(b1: Seq<u8>, b2: Seq<u8>)
    requires
        scan_request(b1) is Complete,
        b2.len() >= scan_request(b1)->consumed,
        b2.take(scan_request(b1)->consumed) == b1.take(scan_request(b1)->consumed),
    ensures
        scan_request(b2) == scan_request(b1),
{
    let n = scan_request(b1)->consumed;
    let e1 = find_from(b1, 10u8, 0);
    assert(announced_length(Seq::empty()) == 0);
    lemma_scan_head_facts(b1, e1 + 1, Seq::empty(), 0);
    let d = scan_head(b1, e1 + 1, Seq::empty(), 0);
    assert(b2.take(d->end) =~= b1.take(d->end)) by {
        assert forall|j: int| 0 <= j < d->end implies #[trigger] b2.take(d->end)[j] == b1.take(d->end)[j] by {
            assert(b2.take(n)[j] == b1.take(n)[j]);
        }
    }
    lemma_request_fixed_by_its_bytes_to(b1, b2, d->end);
    crate::text::lemma_find_from_bounds(b1, 10u8, 0);
    assert(b2.take(e1 + 1) =~= b1.take(e1 + 1)) by {
        assert forall|j: int| 0 <= j < e1 + 1 implies #[trigger] b2.take(e1 + 1)[j] == b1.take(e1 + 1)[j] by {
            assert(b2.take(n)[j] == b1.take(n)[j]);
        }
    }
    let end = d->end;
    let cl = d->content_length;
    assert(b2.subrange(end, end + cl) =~= b1.subrange(end, end + cl)) by {
        assert forall|j: int| end <= j < end + cl implies b2[j] == b1[j] by {
            assert(b2.take(n)[j] == b2[j]);
            assert(b1.take(n)[j] == b1[j]);
            assert(b2.take(n)[j] == b1.take(n)[j]);
        }
    }
}

} // verus!
