//! Responses: a status line, a header map kept in key order, an optional
//! body, and their serialization to wire bytes.
use vstd::prelude::*;
use crate::config::{utf8, lookup_in, Status, StatusCatalog};
use crate::text::{copy_str, copy_range, find_byte, find_from, compare_bytes, lex_lt, lemma_lex_total, lemma_lex_transitive};

verus! {

pub open spec fn crlf() -> Seq<u8> {
    seq![13u8, 10u8]
}

pub open spec fn colon_space() -> Seq<u8> {
    seq![58u8, 32u8]
}

/// The bytes of `Content-Length`.
pub open spec fn content_length_name() -> Seq<u8> {
    seq![67u8, 111u8, 110u8, 116u8, 101u8, 110u8, 116u8, 45u8, 76u8, 101u8, 110u8, 103u8, 116u8, 104u8]
}

/// Whether the keys of `hs` strictly increase.
pub open spec fn keys_sorted(hs: Seq<(Seq<u8>, Seq<u8>)>) -> bool {
    forall|i: int, j: int| 0 <= i < j < hs.len() ==> lex_lt(#[trigger] hs[i].0, #[trigger] hs[j].0)
}

/// Header fields, unique by name and kept in lexicographic order of name.
pub struct HeaderMap {
    entries: Vec<(String, String)>,
}

impl View for HeaderMap {
    type V = Seq<(Seq<u8>, Seq<u8>)>;

    closed spec fn view(&self) -> Self::V {
        self.entries@.map_values(|e: (String, String)| (utf8(e.0@), utf8(e.1@)))
    }
}

impl HeaderMap {
    pub open spec fn wf(&self) -> bool {
        keys_sorted(self@)
    }

    pub fn new() -> (r: HeaderMap)
        ensures
            r.wf(),
            r@ == Seq::<(Seq<u8>, Seq<u8>)>::empty(),
    {
        let r = HeaderMap { entries: Vec::new() };
        assert(r@ =~= Seq::<(Seq<u8>, Seq<u8>)>::empty());
        r
    }

    pub fn len(&self) -> (r: usize)
        ensures
            r == self@.len(),
    {
        self.entries.len()
    }

    /// Sets the value of `key`: it replaces the value of an existing field of
    /// that name, or the field is inserted at its place in key order.
    pub fn insert(&mut self, key: String, value: String)
        requires
            old(self).wf(),
        ensures
            final(self).wf(),
            (exists|p: int| 0 <= p < old(self)@.len() && old(self)@[p].0 == utf8(key@)
                && final(self)@ == old(self)@.update(p, (utf8(key@), utf8(value@))))
            || ((forall|p: int| 0 <= p < old(self)@.len() ==> old(self)@[p].0 != utf8(key@))
                && exists|p: int| 0 <= p <= old(self)@.len()
                && final(self)@ == old(self)@.insert(p, (utf8(key@), utf8(value@)))),
    {
        let ghost old_v = self@;
        let ghost k = utf8(key@);
        let ghost kv = (utf8(key@), utf8(value@));
        let mut i: usize = 0;
        while i < self.entries.len()
            invariant
                self@ == old_v,
                old(self)@ == old_v,
                keys_sorted(old_v),
                k == utf8(key@),
                kv == (utf8(key@), utf8(value@)),
                i <= old_v.len(),
                forall|j: int| 0 <= j < i ==> lex_lt(#[trigger] old_v[j].0, k),
            decreases self.entries.len() - i,
        {
            let c = compare_bytes(key.as_str().as_bytes(), self.entries[i].0.as_str().as_bytes());
            assert(old_v[i as int].0 == utf8(self.entries@[i as int].0@));
            if c == 0 {
                self.entries.set(i, (key, value));
                assert(self@ =~= old_v.update(i as int, kv));
                assert(old_v == old(self)@);
                assert(0 <= i < old(self)@.len() && old(self)@[i as int].0 == utf8(key@) && self@ == old(self)@.update(i as int, (utf8(key@), utf8(value@))));
                assert forall|a: int, b: int| 0 <= a < b < self@.len() implies lex_lt(#[trigger] self@[a].0, #[trigger] self@[b].0) by {
                    assert(old_v[a].0 == self@[a].0);
                    assert(old_v[b].0 == self@[b].0);
                }
                return;
            } else if c < 0 {
                self.entries.insert(i, (key, value));
                assert(self@ =~= old_v.insert(i as int, kv));
                assert(old_v == old(self)@);
                assert(0 <= i <= old(self)@.len() && self@ == old(self)@.insert(i as int, (utf8(key@), utf8(value@))));
                assert forall|j: int| 0 <= j < old_v.len() implies old_v[j].0 != k by {
                    if j < i {
                        crate::text::lemma_lex_irreflexive(k);
                    } else {
                        if j > i {
                            assert(lex_lt(old_v[i as int].0, old_v[j].0));
                            lemma_lex_transitive(k, old_v[i as int].0, old_v[j].0);
                        }
                        crate::text::lemma_lex_irreflexive(k);
                    }
                }
                assert forall|a: int, b: int| 0 <= a < b < self@.len() implies lex_lt(#[trigger] self@[a].0, #[trigger] self@[b].0) by {
                    if b == i {
                        assert(self@[a] == old_v[a]);
                    } else if a == i {
                        assert(self@[b] == old_v[b - 1]);
                        if b - 1 > i {
                            assert(lex_lt(old_v[i as int].0, old_v[b - 1].0));
                            lemma_lex_transitive(k, old_v[i as int].0, old_v[b - 1].0);
                        }
                    } else if a < i && b > i {
                        assert(self@[a] == old_v[a]);
                        assert(self@[b] == old_v[b - 1]);
                        assert(lex_lt(old_v[a].0, k));
                        assert(lex_lt(k, old_v[b - 1].0)) by {
                            if b - 1 > i {
                                assert(lex_lt(old_v[i as int].0, old_v[b - 1].0));
                                lemma_lex_transitive(k, old_v[i as int].0, old_v[b - 1].0);
                            }
                        }
                        lemma_lex_transitive(old_v[a].0, k, old_v[b - 1].0);
                    } else if b < i {
                        assert(self@[a] == old_v[a]);
                        assert(self@[b] == old_v[b]);
                    } else {
                        assert(self@[a] == old_v[a - 1]);
                        assert(self@[b] == old_v[b - 1]);
                    }
                }
                return;
            }
            proof {
                lemma_lex_total(k, old_v[i as int].0);
            }
            i = i + 1;
        }
        self.entries.push((key, value));
        assert(self@ =~= old_v.insert(i as int, kv));
        assert forall|j: int| 0 <= j < old_v.len() implies old_v[j].0 != k by {
            crate::text::lemma_lex_irreflexive(k);
        }
        assert forall|a: int, b: int| 0 <= a < b < self@.len() implies lex_lt(#[trigger] self@[a].0, #[trigger] self@[b].0) by {
            assert(self@[a] == old_v[a]);
            if b < old_v.len() {
                assert(self@[b] == old_v[b]);
            }
        }
    }
}


impl HeaderMap {
    /// Builds a header map from fields in order; a later field of a name
    /// overrides an earlier one.
    pub fn from_pairs(pairs: Vec<(String, String)>) -> (r: HeaderMap)
        ensures
            r.wf(),
            forall|k: Seq<u8>| r.value_of(k) == pairs_value(pair_bytes(pairs@), k),
    {
        let mut m = HeaderMap::new();
        let mut i: usize = 0;
        while i < pairs.len()
            invariant
                i <= pairs@.len(),
                m.wf(),
                forall|k: Seq<u8>| seq_value(m@, k) == pairs_value(pair_bytes(pairs@).take(i as int), k),
            decreases pairs.len() - i,
        {
            let ghost before = m@;
            m.insert(pairs[i].0.clone(), pairs[i].1.clone());
            proof {
                let kv = pair_bytes(pairs@)[i as int];
                assert(kv == (utf8(pairs@[i as int].0@), utf8(pairs@[i as int].1@)));
                assert(pair_bytes(pairs@).take(i + 1).last() == kv);
                assert(pair_bytes(pairs@).take(i + 1).drop_last() =~= pair_bytes(pairs@).take(i as int));
                assert forall|k: Seq<u8>| seq_value(m@, k) == pairs_value(pair_bytes(pairs@).take(i + 1), k) by {
                    lemma_value_after_insert(before, m@, kv.0, kv.1, k);
                }
            }
            i = i + 1;
        }
        assert(pair_bytes(pairs@).take(i as int) =~= pair_bytes(pairs@));
        m
    }

    /// The value of the field named `k`, if there is one.
    pub open spec fn value_of(&self, k: Seq<u8>) -> Option<Seq<u8>> {
        seq_value(self@, k)
    }

    /// The value of the field named `key`, if there is one.
    pub fn get(&self, key: &str) -> (r: Option<String>)
        requires
            self.wf(),
        ensures
            r is Some <==> self.value_of(utf8(key@)) is Some,
            r is Some ==> utf8(r->0@) == self.value_of(utf8(key@))->0,
    {
        let kb = key.as_bytes();
        let mut i: usize = 0;
        while i < self.entries.len()
            invariant
                i <= self@.len(),
                kb@ == utf8(key@),
                self.wf(),
                forall|j: int| 0 <= j < i ==> self@[j].0 != kb@,
            decreases self.entries.len() - i,
        {
            assert(self@[i as int] == (utf8(self.entries@[i as int].0@), utf8(self.entries@[i as int].1@)));
            if compare_bytes(self.entries[i].0.as_str().as_bytes(), kb) == 0 {
                assert(self@[i as int].0 == kb@);
                proof {
                    lemma_value_unique(self@, i as int);
                }
                return Some(self.entries[i].1.clone());
            }
            i = i + 1;
        }
        None
    }
}

/// The value of the field named `k` among fields of distinct names.
pub open spec fn seq_value(hs: Seq<(Seq<u8>, Seq<u8>)>, k: Seq<u8>) -> Option<Seq<u8>> {
    if exists|i: int| 0 <= i < hs.len() && hs[i].0 == k {
        Some(hs[choose|i: int| 0 <= i < hs.len() && hs[i].0 == k].1)
    } else {
        None
    }
}

/// The value that the last field named `k` in `ps` gives.
pub open spec fn pairs_value(ps: Seq<(Seq<u8>, Seq<u8>)>, k: Seq<u8>) -> Option<Seq<u8>>
    decreases ps.len(),
{
    if ps.len() == 0 {
        None
    } else if ps.last().0 == k {
        Some(ps.last().1)
    } else {
        pairs_value(ps.drop_last(), k)
    }
}

pub open spec fn pair_bytes(ps: Seq<(String, String)>) -> Seq<(Seq<u8>, Seq<u8>)> {
    ps.map_values(|e: (String, String)| (utf8(e.0@), utf8(e.1@)))
}

proof fn lemma_value_unique(hs: Seq<(Seq<u8>, Seq<u8>)>, i: int)
    requires
        keys_sorted(hs),
        0 <= i < hs.len(),
    ensures
        seq_value(hs, hs[i].0) == Some(hs[i].1),
{
    let k = hs[i].0;
    assert(0 <= i < hs.len() && hs[i].0 == k);
    let j = choose|j: int| 0 <= j < hs.len() && hs[j].0 == k;
    crate::text::lemma_lex_irreflexive(k);
    if j < i {
        assert(lex_lt(hs[j].0, hs[i].0));
    } else if j > i {
        assert(lex_lt(hs[i].0, hs[j].0));
    }
    assert(j == i);
    assert(seq_value(hs, k) == Some(hs[j].1));
}

proof fn lemma_value_after_insert(
    before: Seq<(Seq<u8>, Seq<u8>)>,
    after: Seq<(Seq<u8>, Seq<u8>)>,
    key: Seq<u8>,
    value: Seq<u8>,
    k: Seq<u8>,
)
    requires
        keys_sorted(before),
        keys_sorted(after),
        (exists|p: int| 0 <= p < before.len() && before[p].0 == key && after == before.update(p, (key, value)))
        || ((forall|p: int| 0 <= p < before.len() ==> before[p].0 != key)
            && exists|p: int| 0 <= p <= before.len() && after == before.insert(p, (key, value))),
    ensures
        seq_value(after, k) == if k == key { Some(value) } else { seq_value(before, k) },
{
    if exists|p: int| 0 <= p < before.len() && before[p].0 == key && after == before.update(p, (key, value)) {
        let p = choose|p: int| 0 <= p < before.len() && before[p].0 == key && after == before.update(p, (key, value));
        lemma_value_unique(after, p);
        if k != key {
            if exists|i: int| 0 <= i < before.len() && before[i].0 == k {
                let i = choose|i: int| 0 <= i < before.len() && before[i].0 == k;
                lemma_value_unique(before, i);
                lemma_value_unique(after, i);
            } else {
                assert forall|i: int| 0 <= i < after.len() implies after[i].0 != k by {
                    if i != p {
                        assert(after[i] == before[i]);
                    }
                }
            }
        }
    } else {
        let p = choose|p: int| 0 <= p <= before.len() && after == before.insert(p, (key, value));
        lemma_value_unique(after, p);
        if k != key {
            if exists|i: int| 0 <= i < before.len() && before[i].0 == k {
                let i = choose|i: int| 0 <= i < before.len() && before[i].0 == k;
                lemma_value_unique(before, i);
                if i < p {
                    assert(after[i] == before[i]);
                    lemma_value_unique(after, i);
                } else {
                    assert(after[i + 1] == before[i]);
                    lemma_value_unique(after, i + 1);
                }
            } else {
                assert forall|i: int| 0 <= i < after.len() implies after[i].0 != k by {
                    if i < p {
                        assert(after[i] == before[i]);
                    } else if i > p {
                        assert(after[i] == before[i - 1]);
                    }
                }
            }
        }
    }
}


/// The decimal digits of `n`, most significant first.
pub open spec fn decimal(n: nat) -> Seq<u8>
    decreases n,
{
    if n < 10 {
        seq![(48 + n) as u8]
    } else {
        decimal(n / 10).push((48 + n % 10) as u8)
    }
}

/// Appends the decimal digits of `n` to `out`.
pub fn push_decimal(n: usize, out: &mut Vec<u8>)
    ensures
        final(out)@ == old(out)@ + decimal(n as nat),
    decreases n,
{
    if n >= 10 {
        push_decimal(n / 10, out);
    }
    out.push((48 + n % 10) as u8);
    assert(final(out)@ =~= old(out)@ + decimal(n as nat));
}

/// One header line; a field named `Content-Length` gives none, since that
/// line is always computed from the body.
pub open spec fn header_line(h: (Seq<u8>, Seq<u8>)) -> Seq<u8> {
    if h.0 == content_length_name() {
        Seq::empty()
    } else {
        h.0 + colon_space() + h.1 + crlf()
    }
}

/// The header lines of `hs`, in order.
pub open spec fn header_lines(hs: Seq<(Seq<u8>, Seq<u8>)>) -> Seq<u8>
    decreases hs.len(),
{
    if hs.len() == 0 {
        Seq::empty()
    } else {
        header_lines(hs.drop_last()) + header_line(hs.last())
    }
}

/// The body's bytes; an absent body has none.
pub open spec fn body_bytes(b: Option<String>) -> Seq<u8> {
    match b {
        Some(s) => utf8(s@),
        None => Seq::empty(),
    }
}

/// `<version> <code> <reason>` and a line terminator.
pub open spec fn status_line(version: Seq<char>, code: Seq<char>, reason: Seq<char>) -> Seq<u8> {
    utf8(version) + seq![32u8] + utf8(code) + seq![32u8] + utf8(reason) + crlf()
}

/// The `Content-Length` line for a body of `n` bytes.
pub open spec fn content_length_line(n: nat) -> Seq<u8> {
    content_length_name() + colon_space() + decimal(n) + crlf()
}

fn push_str_bytes(out: &mut Vec<u8>, s: &str)
    ensures
        final(out)@ == old(out)@ + utf8(s@),
{
    out.extend_from_slice(s.as_bytes());
    assert(final(out)@ =~= old(out)@ + utf8(s@));
}

fn push_crlf(out: &mut Vec<u8>)
    ensures
        final(out)@ == old(out)@ + crlf(),
{
    out.push(13u8);
    out.push(10u8);
    assert(final(out)@ =~= old(out)@ + crlf());
}

fn push_colon_space(out: &mut Vec<u8>)
    ensures
        final(out)@ == old(out)@ + colon_space(),
{
    out.push(58u8);
    out.push(32u8);
    assert(final(out)@ =~= old(out)@ + colon_space());
}

pub(crate) fn content_length_bytes() -> (r: Vec<u8>)
    ensures
        r@ == content_length_name(),
{
    let r: Vec<u8> = vec![67u8, 111u8, 110u8, 116u8, 101u8, 110u8, 116u8, 45u8, 76u8, 101u8, 110u8, 103u8, 116u8, 104u8];
    assert(r@ =~= content_length_name());
    r
}

/// A response: status line, headers and optional body.
pub struct HttpResponse {
    pub version: String,
    pub status_code: String,
    pub status_text: String,
    pub headers: HeaderMap,
    pub resp_body: Option<String>,
}

impl HttpResponse {
    pub open spec fn wf(&self) -> bool {
        self.headers.wf()
    }

    /// The bytes that this response is sent as.
    pub open spec fn wire(&self) -> Seq<u8> {
        status_line(self.version@, self.status_code@, self.status_text@)
            + header_lines(self.headers@)
            + content_length_line(body_bytes(self.resp_body).len())
            + crlf()
            + body_bytes(self.resp_body)
    }

    /// `HTTP/1.1 200 OK`, no headers, no body.
    pub fn default() -> (r: HttpResponse)
        ensures
            r.wf(),
            r.version@ == "HTTP/1.1"@,
            r.status_code@ == "200"@,
            r.status_text@ == "OK"@,
            r.headers@ == Seq::<(Seq<u8>, Seq<u8>)>::empty(),
            r.resp_body is None,
    {
        HttpResponse {
            version: copy_str("HTTP/1.1"),
            status_code: copy_str("200"),
            status_text: copy_str("OK"),
            headers: HeaderMap::new(),
            resp_body: None,
        }
    }

    /// Takes the code and reason phrase of `status`.
    pub fn set_status(&mut self, status: Status)
        ensures
            final(self).status_code == status.0,
            final(self).status_text == status.1,
            final(self).version == old(self).version,
            final(self).headers == old(self).headers,
            final(self).resp_body == old(self).resp_body,
    {
        let Status(code, text) = status;
        self.status_code = code;
        self.status_text = text;
    }

    /// Replaces all headers.
    pub fn set_headers(&mut self, headers: HeaderMap)
        ensures
            final(self).headers == headers,
            final(self).version == old(self).version,
            final(self).status_code == old(self).status_code,
            final(self).status_text == old(self).status_text,
            final(self).resp_body == old(self).resp_body,
    {
        self.headers = headers;
    }

    /// Sets the body.
    pub fn set_body(&mut self, body: String)
        ensures
            final(self).resp_body == Some(body),
            final(self).version == old(self).version,
            final(self).status_code == old(self).status_code,
            final(self).status_text == old(self).status_text,
            final(self).headers == old(self).headers,
    {
        self.resp_body = Some(body);
    }

    /// Sets one header field, replacing its value if it is present.
    pub fn add_header(&mut self, key: String, value: String)
        requires
            old(self).wf(),
        ensures
            final(self).wf(),
            forall|k: Seq<u8>| #[trigger] final(self).headers.value_of(k)
                == if k == utf8(key@) { Some(utf8(value@)) } else { old(self).headers.value_of(k) },
            final(self).headers@.len() <= old(self).headers@.len() + 1,
            final(self).version == old(self).version,
            final(self).status_code == old(self).status_code,
            final(self).status_text == old(self).status_text,
            final(self).resp_body == old(self).resp_body,
    {
        let ghost before = self.headers@;
        let ghost kb = utf8(key@);
        let ghost vb = utf8(value@);
        self.headers.insert(key, value);
        proof {
            assert forall|k: Seq<u8>| #[trigger] self.headers.value_of(k)
                == if k == kb { Some(vb) } else { seq_value(before, k) } by {
                lemma_value_after_insert(before, self.headers@, kb, vb, k);
            }
        }
    }

    /// A response of `version` and `status_code`, with the given headers and
    /// body where present. The reason phrase is `OK` for code 200; for another
    /// code it comes from `statuses`, or is `Unknown Status` where the catalog
    /// has none.
    pub fn new(
        version: String,
        status_code: String,
        headers: Option<HeaderMap>,
        resp_body: Option<String>,
        statuses: &StatusCatalog,
    ) -> (r: HttpResponse)
        requires
            headers matches Some(h) ==> h.wf(),
        ensures
            r.wf(),
            r.version == version,
            r.status_code@ == status_code@,
            r.status_text@ == if status_code@ == "200"@ {
                "OK"@
            } else {
                match lookup_in(statuses@, utf8(status_code@)) {
                    Some(t) => t,
                    None => "Unknown Status"@,
                }
            },
            r.headers@ == match headers {
                Some(h) => h@,
                None => Seq::empty(),
            },
            r.resp_body == resp_body,
    {
        let mut response = HttpResponse::default();
        response.version = version;
        let is_ok = compare_bytes(status_code.as_str().as_bytes(), "200".as_bytes()) == 0;
        proof {
            vstd::utf8::encode_utf8_decode_utf8(status_code@);
            vstd::utf8::encode_utf8_decode_utf8("200"@);
        }
        if !is_ok {
            response.status_text = match statuses.get(status_code.as_str()) {
                Some(st) => st.1,
                None => copy_str("Unknown Status"),
            };
            response.status_code = status_code;
        }
        match headers {
            Some(h) => {
                response.headers = h;
            },
            None => {},
        }
        response.resp_body = resp_body;
        response
    }

    /// The header block: each field in key order, then the `Content-Length`
    /// line computed from the body.
    pub fn get_serialized_headers(&self) -> (r: Vec<u8>)
        ensures
            r@ == header_lines(self.headers@) + content_length_line(body_bytes(self.resp_body).len()),
    {
        let mut out: Vec<u8> = Vec::new();
        self.headers.push_lines(&mut out);
        let cl = content_length_bytes();
        out.extend_from_slice(cl.as_slice());
        push_colon_space(&mut out);
        let n: usize = match &self.resp_body {
            Some(b) => b.as_str().as_bytes().len(),
            None => 0,
        };
        push_decimal(n, &mut out);
        push_crlf(&mut out);
        assert(out@ =~= header_lines(self.headers@) + content_length_line(body_bytes(self.resp_body).len()));
        out
    }

    /// The body, or the empty string when there is none.
    pub fn get_serialized_body(&self) -> (r: String)
        ensures
            utf8(r@) == body_bytes(self.resp_body),
    {
        match &self.resp_body {
            Some(b) => b.clone(),
            None => String::new(),
        }
    }

    /// The bytes that this response is sent as: status line, header block,
    /// blank line, body.
    pub fn to_wire_bytes(&self) -> (r: Vec<u8>)
        ensures
            r@ == self.wire(),
    {
        let mut out: Vec<u8> = Vec::new();
        push_str_bytes(&mut out, self.version.as_str());
        out.push(32u8);
        push_str_bytes(&mut out, self.status_code.as_str());
        out.push(32u8);
        push_str_bytes(&mut out, self.status_text.as_str());
        push_crlf(&mut out);
        let hs = self.get_serialized_headers();
        out.extend_from_slice(hs.as_slice());
        push_crlf(&mut out);
        let body = self.get_serialized_body();
        push_str_bytes(&mut out, body.as_str());
        assert(out@ =~= self.wire());
        out
    }
}

impl HeaderMap {
    /// Appends the header lines of this map to `out`.
    pub fn push_lines(&self, out: &mut Vec<u8>)
        ensures
            final(out)@ == old(out)@ + header_lines(self@),
    {
        let cl = content_length_bytes();
        let mut i: usize = 0;
        assert(self@.take(0) =~= Seq::<(Seq<u8>, Seq<u8>)>::empty());
        assert(old(out)@ =~= old(out)@ + header_lines(self@.take(0)));
        while i < self.entries.len()
            invariant
                i <= self@.len(),
                cl@ == content_length_name(),
                out@ == old(out)@ + header_lines(self@.take(i as int)),
            decreases self.entries.len() - i,
        {
            let k = self.entries[i].0.as_str();
            let v = self.entries[i].1.as_str();
            assert(self@[i as int] == (utf8(k@), utf8(v@)));
            assert(self@.take(i + 1).drop_last() =~= self@.take(i as int));
            assert(self@.take(i + 1).last() == self@[i as int]);
            if compare_bytes(k.as_bytes(), cl.as_slice()) != 0 {
                push_str_bytes(out, k);
                push_colon_space(out);
                push_str_bytes(out, v);
                push_crlf(out);
            }
            assert(out@ =~= old(out)@ + header_lines(self@.take(i + 1)));
            i = i + 1;
        }
        assert(self@.take(i as int) =~= self@);
    }
}



/// The version, code and reason of a status line at the start of `w`: the
/// bytes before the first space, between it and the next space, and from
/// there to the first carriage return.
pub open spec fn status_parts(w: Seq<u8>) -> Option<(Seq<u8>, Seq<u8>, Seq<u8>)> {
    let a = find_from(w, 32u8, 0);
    let b = find_from(w, 32u8, a + 1);
    let c = find_from(w, 13u8, b + 1);
    if a < 0 || b < 0 || c < 0 {
        None
    } else {
        Some((w.take(a), w.subrange(a + 1, b), w.subrange(b + 1, c)))
    }
}

/// Reads the version, code and reason of the status line at the start of `w`.
pub fn parse_status_line(w: &[u8]) -> (r: Option<(Vec<u8>, Vec<u8>, Vec<u8>)>)
    ensures
        match status_parts(w@) {
            Some(p) => r is Some && (r->0).0@ == p.0 && (r->0).1@ == p.1 && (r->0).2@ == p.2,
            None => r is None,
        },
{
    let a = match find_byte(w, 32u8, 0) {
        Some(a) => a,
        None => return None,
    };
    let b = match find_byte(w, 32u8, a + 1) {
        Some(b) => b,
        None => return None,
    };
    let c = match find_byte(w, 13u8, b + 1) {
        Some(c) => c,
        None => return None,
    };
    let version = copy_range(w, 0, a);
    let code = copy_range(w, a + 1, b);
    let reason = copy_range(w, b + 1, c);
    assert(version@ =~= w@.take(a as int));
    Some((version, code, reason))
}

proof fn lemma_find_at(s: Seq<u8>, x: u8, i: int, p: int)
    requires
        0 <= i <= p < s.len(),
        s[p] == x,
        forall|j: int| i <= j < p ==> s[j] != x,
    ensures
        find_from(s, x, i) == p,
    decreases p - i,
{
    if i < p {
        lemma_find_at(s, x, i + 1, p);
    }
}

/// Serializing is deterministic and self-describing: the header lines come
/// in strictly increasing key order followed by one `Content-Length` line
/// equal to the body's length, and reading back the status line of the bytes
/// gives the version, code and reason (where version and code hold no space
/// and the reason no carriage return).
pub proof fn lemma_wire_format(r: HttpResponse)
    requires
        r.wf(),
    ensures
        keys_sorted(r.headers@),
        r.wire() == status_line(r.version@, r.status_code@, r.status_text@) + header_lines(r.headers@)
            + content_length_line(body_bytes(r.resp_body).len()) + crlf() + body_bytes(r.resp_body),
        (!utf8(r.version@).contains(32u8) && !utf8(r.status_code@).contains(32u8)
            && !utf8(r.status_text@).contains(13u8)) ==> status_parts(r.wire())
            == Some((utf8(r.version@), utf8(r.status_code@), utf8(r.status_text@))),
{
    let v = utf8(r.version@);
    let c = utf8(r.status_code@);
    let t = utf8(r.status_text@);
    let w = r.wire();
    if !v.contains(32u8) && !c.contains(32u8) && !t.contains(13u8) {
        let rest = header_lines(r.headers@) + content_length_line(body_bytes(r.resp_body).len()) + crlf()
            + body_bytes(r.resp_body);
        assert(w =~= v + seq![32u8] + c + seq![32u8] + t + crlf() + rest);
        let a = v.len() as int;
        let b = a + 1 + c.len();
        let e = b + 1 + t.len();
        assert forall|j: int| 0 <= j < a implies w[j] != 32u8 by {
            assert(w[j] == v[j]);
        }
        lemma_find_at(w, 32u8, 0, a);
        assert forall|j: int| a + 1 <= j < b implies w[j] != 32u8 by {
            assert(w[j] == c[j - a - 1]);
        }
        lemma_find_at(w, 32u8, a + 1, b);
        assert forall|j: int| b + 1 <= j < e implies w[j] != 13u8 by {
            assert(w[j] == t[j - b - 1]);
        }
        lemma_find_at(w, 13u8, b + 1, e);
        assert(w.take(a) =~= v);
        assert(w.subrange(a + 1, b) =~= c);
        assert(w.subrange(b + 1, e) =~= t);
    }
}


proof fn lemma_sorted_tail(x: Seq<(Seq<u8>, Seq<u8>)>)
    requires
        keys_sorted(x),
        x.len() > 0,
    ensures
        keys_sorted(x.drop_first()),
{
    assert forall|i: int, j: int| 0 <= i < j < x.drop_first().len() implies lex_lt(
        #[trigger] x.drop_first()[i].0,
        #[trigger] x.drop_first()[j].0,
    ) by {
        assert(lex_lt(x[i + 1].0, x[j + 1].0));
    }
}

proof fn lemma_value_tail(x: Seq<(Seq<u8>, Seq<u8>)>, k: Seq<u8>)
    requires
        keys_sorted(x),
        x.len() > 0,
    ensures
        seq_value(x.drop_first(), k) == if k == x[0].0 { None } else { seq_value(x, k) },
{
    let t = x.drop_first();
    lemma_sorted_tail(x);
    crate::text::lemma_lex_irreflexive(x[0].0);
    if exists|i: int| 0 <= i < t.len() && t[i].0 == k {
        let i = choose|i: int| 0 <= i < t.len() && t[i].0 == k;
        assert(x[i + 1] == t[i]);
        assert(lex_lt(x[0].0, x[i + 1].0));
        lemma_value_unique(t, i);
        lemma_value_unique(x, i + 1);
    } else if k != x[0].0 {
        assert forall|i: int| 0 <= i < x.len() implies x[i].0 != k by {
            if i > 0 {
                assert(x[i] == t[i - 1]);
            }
        }
    }
}

proof fn lemma_same_values_same_fields(x: Seq<(Seq<u8>, Seq<u8>)>, y: Seq<(Seq<u8>, Seq<u8>)>)
    requires
        keys_sorted(x),
        keys_sorted(y),
        forall|k: Seq<u8>| seq_value(x, k) == seq_value(y, k),
    ensures
        x == y,
    decreases x.len() + y.len(),
{
    if x.len() == 0 && y.len() > 0 {
        lemma_value_unique(y, 0);
        assert(seq_value(x, y[0].0) is None);
    } else if x.len() > 0 && y.len() == 0 {
        lemma_value_unique(x, 0);
        assert(seq_value(y, x[0].0) is None);
    } else if x.len() > 0 {
        lemma_value_unique(x, 0);
        lemma_value_unique(y, 0);
        let kx = x[0].0;
        let ky = y[0].0;
        assert(seq_value(y, kx) is Some);
        assert(seq_value(x, ky) is Some);
        let j = choose|j: int| 0 <= j < y.len() && y[j].0 == kx;
        let i = choose|i: int| 0 <= i < x.len() && x[i].0 == ky;
        crate::text::lemma_lex_irreflexive(kx);
        crate::text::lemma_lex_irreflexive(ky);
        if j > 0 {
            assert(lex_lt(y[0].0, y[j].0));
            if i > 0 {
                assert(lex_lt(x[0].0, x[i].0));
                lemma_lex_total(kx, ky);
            }
        }
        assert(kx == ky);
        lemma_sorted_tail(x);
        lemma_sorted_tail(y);
        assert forall|k: Seq<u8>| seq_value(x.drop_first(), k) == seq_value(y.drop_first(), k) by {
            lemma_value_tail(x, k);
            lemma_value_tail(y, k);
        }
        lemma_same_values_same_fields(x.drop_first(), y.drop_first());
        assert(x =~= seq![x[0]] + x.drop_first());
        assert(y =~= seq![y[0]] + y.drop_first());
    } else {
        assert(x =~= y);
    }
}

/// Header maps that give every name the same value hold the same fields in
/// the same order, whatever order they were filled in; so responses that
/// differ only in how their headers were built are sent as the same bytes.
pub proof fn lemma_wire_depends_on_values_only(r1: HttpResponse, r2: HttpResponse)
    requires
        r1.wf(),
        r2.wf(),
        r1.version@ == r2.version@,
        r1.status_code@ == r2.status_code@,
        r1.status_text@ == r2.status_text@,
        body_bytes(r1.resp_body) == body_bytes(r2.resp_body),
        forall|k: Seq<u8>| r1.headers.value_of(k) == r2.headers.value_of(k),
    ensures
        r1.headers@ == r2.headers@,
        r1.wire() == r2.wire(),
{
    assert forall|k: Seq<u8>| seq_value(r1.headers@, k) == seq_value(r2.headers@, k) by {
        assert(r1.headers.value_of(k) == r2.headers.value_of(k));
    }
    lemma_same_values_same_fields(r1.headers@, r2.headers@);
}

} // verus!
