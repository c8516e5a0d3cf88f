//! The status catalog (code to reason phrase) and the content-type catalog
//! (file extension to content type), built once from JSON text and read-only
//! afterwards.
use vstd::prelude::*;
use vstd::utf8::encode_utf8;
use crate::text::{copy_str, split_ws, ws_tokens};

verus! {

/// The content type given to a resource whose extension has no catalog entry.
pub const OCTET_STREAM: &'static str = "application/octet-stream";

/// The UTF-8 encoding of a string.
pub open spec fn utf8(s: Seq<char>) -> Seq<u8> {
    encode_utf8(s)
}

/// A status code and its reason phrase.
pub struct Status(pub String, pub String);

/// A content type and one file extension that maps to it.
pub struct MimeType(pub String, pub String);

/// The value of the last entry of `entries` whose key is `k`.
pub open spec fn lookup_in(entries: Seq<(Seq<u8>, Seq<char>)>, k: Seq<u8>) -> Option<Seq<char>>
    decreases entries.len(),
{
    if entries.len() == 0 {
        None
    } else if entries.last().0 == k {
        Some(entries.last().1)
    } else {
        lookup_in(entries.drop_last(), k)
    }
}

/// The entries of a JSON object whose values are all strings, ordered by key;
/// `None` when the text is not such an object.
pub uninterp spec fn json_string_object(text: Seq<char>) -> Option<Seq<(Seq<char>, Seq<char>)>>;

pub open spec fn pair_views(v: Seq<(String, String)>) -> Seq<(Seq<char>, Seq<char>)> {
    v.map_values(|e: (String, String)| (e.0@, e.1@))
}

/// Relies on serde_json::from_str read into a BTreeMap<String, String>: an
/// object whose values are all strings, or an error for any other text.
#[verifier::external_body]
fn parse_string_object(text: &str) -> (r: Option<Vec<(String, String)>>)
    ensures
        r is Some <==> json_string_object(text@) is Some,
        r is Some ==> pair_views(r->0@) == json_string_object(text@)->0,
{
    let parsed = serde_json::from_str::<std::collections::BTreeMap<String, String>>(text);
    parsed.ok().map(|m| m.into_iter().collect())
}

/// Reason phrases keyed by status code; a later entry for a code overrides an
/// earlier one.
pub struct StatusCatalog {
    entries: Vec<Status>,
}

impl View for StatusCatalog {
    type V = Seq<(Seq<u8>, Seq<char>)>;

    closed spec fn view(&self) -> Self::V {
        self.entries@.map_values(|s: Status| (utf8(s.0@), s.1@))
    }
}

/// The status catalog that a JSON object from codes to phrases describes.
pub open spec fn status_entries(obj: Seq<(Seq<char>, Seq<char>)>) -> Seq<(Seq<u8>, Seq<char>)> {
    obj.map_values(|e: (Seq<char>, Seq<char>)| (utf8(e.0), e.1))
}


impl StatusCatalog {
    pub fn empty() -> (r: StatusCatalog)
        ensures
            r@ == Seq::<(Seq<u8>, Seq<char>)>::empty(),
    {
        let r = StatusCatalog { entries: Vec::new() };
        assert(r@ =~= Seq::<(Seq<u8>, Seq<char>)>::empty());
        r
    }

    /// Adds (or overrides) the phrase of one code.
    fn insert(&mut self, code: String, reason: String)
        ensures
            final(self)@ == old(self)@.push((utf8(code@), reason@)),
    {
        let ghost prev = self.entries@;
        self.entries.push(Status(code, reason));
        assert(self@ =~= prev.map_values(|s: Status| (utf8(s.0@), s.1@)).push((utf8(code@), reason@)));
    }

    /// Builds the catalog from (code, phrase) pairs in order.
    pub fn from_pairs(pairs: Vec<(String, String)>) -> (r: StatusCatalog)
        ensures
            r@ == status_entries(pair_views(pairs@)),
    {
        let mut cat = StatusCatalog::empty();
        let ghost obj = pair_views(pairs@);
        let mut i: usize = 0;
        while i < pairs.len()
            invariant
                i <= pairs@.len(),
                obj == pair_views(pairs@),
                cat@ =~= status_entries(obj.take(i as int)),
            decreases pairs.len() - i,
        {
            let code = pairs[i].0.clone();
            let reason = pairs[i].1.clone();
            cat.insert(code, reason);
            assert(obj.take(i + 1) =~= obj.take(i as int).push(obj[i as int]));
            i = i + 1;
        }
        assert(obj.take(i as int) =~= obj);
        cat
    }

    /// Builds the catalog from JSON text mapping codes to phrases; text that is
    /// not such an object gives the empty catalog.
    pub fn from_json(text: &str) -> (r: StatusCatalog)
        ensures
            r@ == match json_string_object(text@) {
                Some(obj) => status_entries(obj),
                None => Seq::empty(),
            },
    {
        match parse_string_object(text) {
            None => StatusCatalog::empty(),
            Some(pairs) => StatusCatalog::from_pairs(pairs),
        }
    }

    /// The phrase of `code`, if the catalog has one.
    pub fn get(&self, code: &str) -> (r: Option<Status>)
        ensures
            r is Some <==> lookup_in(self@, utf8(code@)) is Some,
            r is Some ==> (r->0).0@ == code@ && (r->0).1@ == lookup_in(self@, utf8(code@))->0,
    {
        let key = code.as_bytes();
        let mut i: usize = self.entries.len();
        assert(self@.take(i as int) =~= self@);
        while i > 0
            invariant
                i <= self.entries@.len(),
                key@ == utf8(code@),
                lookup_in(self@, key@) == lookup_in(self@.take(i as int), key@),
            decreases i,
        {
            let e = &self.entries[i - 1];
            assert(self@.take(i as int).drop_last() =~= self@.take(i - 1));
            assert(self@[i - 1] == (utf8(e.0@), e.1@));
            if crate::text::compare_bytes(e.0.as_str().as_bytes(), key) == 0 {
                proof {
                    vstd::utf8::encode_utf8_decode_utf8(e.0@);
                    vstd::utf8::encode_utf8_decode_utf8(code@);
                }
                return Some(Status(copy_str(code), e.1.clone()));
            }
            i = i - 1;
        }
        None
    }

    /// Whether the catalog has a phrase for `code`.
    pub fn contains(&self, code: &str) -> (r: bool)
        ensures
            r == lookup_in(self@, utf8(code@)) is Some,
    {
        self.get(code).is_some()
    }
}

/// Content types keyed by file extension; a later entry for an extension
/// overrides an earlier one.
pub struct MimeCatalog {
    entries: Vec<(Vec<u8>, String)>,
}

impl View for MimeCatalog {
    type V = Seq<(Seq<u8>, Seq<char>)>;

    closed spec fn view(&self) -> Self::V {
        self.entries@.map_values(|e: (Vec<u8>, String)| (e.0@, e.1@))
    }
}

/// One entry per extension listed for `content_type`.
pub open spec fn ext_entries(exts: Seq<Seq<u8>>, content_type: Seq<char>) -> Seq<(Seq<u8>, Seq<char>)> {
    exts.map_values(|t: Seq<u8>| (t, content_type))
}

/// The content-type catalog that a JSON object from content types to
/// space-separated extension lists describes: each listed extension maps to
/// its content type, in the order of the object.
pub open spec fn invert_mime(obj: Seq<(Seq<char>, Seq<char>)>) -> Seq<(Seq<u8>, Seq<char>)>
    decreases obj.len(),
{
    if obj.len() == 0 {
        Seq::empty()
    } else {
        invert_mime(obj.drop_last()) + ext_entries(ws_tokens(utf8(obj.last().1)), obj.last().0)
    }
}

impl MimeCatalog {
    pub fn empty() -> (r: MimeCatalog)
        ensures
            r@ == Seq::<(Seq<u8>, Seq<char>)>::empty(),
    {
        let r = MimeCatalog { entries: Vec::new() };
        assert(r@ =~= Seq::<(Seq<u8>, Seq<char>)>::empty());
        r
    }

    /// Maps `ext` to `content_type`, overriding an earlier entry.
    fn insert(&mut self, ext: Vec<u8>, content_type: String)
        ensures
            final(self)@ == old(self)@.push((ext@, content_type@)),
    {
        let ghost prev = self.entries@;
        let ghost e = (ext@, content_type@);
        self.entries.push((ext, content_type));
        assert(self@ =~= prev.map_values(|e: (Vec<u8>, String)| (e.0@, e.1@)).push(e));
    }

    /// Builds the catalog from (content type, space-separated extensions)
    /// pairs in order.
    pub fn from_pairs(pairs: Vec<(String, String)>) -> (r: MimeCatalog)
        ensures
            r@ == invert_mime(pair_views(pairs@)),
    {
        let mut cat = MimeCatalog::empty();
        let ghost obj = pair_views(pairs@);
        let mut i: usize = 0;
        assert(invert_mime(obj.take(0)) =~= Seq::<(Seq<u8>, Seq<char>)>::empty());
        while i < pairs.len()
            invariant
                i <= pairs@.len(),
                obj == pair_views(pairs@),
                cat@ == invert_mime(obj.take(i as int)),
            decreases pairs.len() - i,
        {
            let content_type = &pairs[i].0;
            let exts = split_ws(pairs[i].1.as_str().as_bytes());
            let ghost base = cat@;
            let ghost ct = content_type@;
            let mut j: usize = 0;
            while j < exts.len()
                invariant
                    j <= exts@.len(),
                    ct == content_type@,
                    cat@ =~= base + ext_entries(exts@.map_values(|t: Vec<u8>| t@).take(j as int), ct),
                decreases exts.len() - j,
            {
                cat.insert(exts[j].clone(), content_type.clone());
                assert(exts@.map_values(|t: Vec<u8>| t@).take(j + 1) =~= exts@.map_values(|t: Vec<u8>| t@).take(j as int).push(exts@[j as int]@));
                j = j + 1;
            }
            assert(obj.take(i + 1).drop_last() =~= obj.take(i as int));
            assert(exts@.map_values(|t: Vec<u8>| t@).take(j as int) =~= exts@.map_values(|t: Vec<u8>| t@));
            i = i + 1;
        }
        assert(obj.take(i as int) =~= obj);
        cat
    }

    /// Builds the catalog from JSON text mapping each content type to its
    /// space-separated extensions; text that is not such an object gives the
    /// empty catalog.
    pub fn from_json(text: &str) -> (r: MimeCatalog)
        ensures
            r@ == match json_string_object(text@) {
                Some(obj) => invert_mime(obj),
                None => Seq::empty(),
            },
    {
        match parse_string_object(text) {
            None => MimeCatalog::empty(),
            Some(pairs) => MimeCatalog::from_pairs(pairs),
        }
    }

    /// The content type of `ext`, if the catalog has one.
    pub fn get(&self, ext: &[u8]) -> (r: Option<String>)
        ensures
            r is Some <==> lookup_in(self@, ext@) is Some,
            r is Some ==> r->0@ == lookup_in(self@, ext@)->0,
    {
        let mut i: usize = self.entries.len();
        assert(self@.take(i as int) =~= self@);
        while i > 0
            invariant
                i <= self.entries@.len(),
                lookup_in(self@, ext@) == lookup_in(self@.take(i as int), ext@),
            decreases i,
        {
            let e = &self.entries[i - 1];
            assert(self@.take(i as int).drop_last() =~= self@.take(i - 1));
            assert(self@[i - 1] == (e.0@, e.1@));
            if crate::text::compare_bytes(e.0.as_slice(), ext) == 0 {
                return Some(e.1.clone());
            }
            i = i - 1;
        }
        None
    }

    /// The content type of `ext`, or the octet-stream type when the catalog
    /// has none.
    pub fn content_type_of(&self, ext: &[u8]) -> (r: String)
        ensures
            r@ == match lookup_in(self@, ext@) {
                Some(t) => t,
                None => OCTET_STREAM@,
            },
    {
        match self.get(ext) {
            Some(t) => t,
            None => copy_str(OCTET_STREAM),
        }
    }
}

/// Whether `text` is a JSON object whose values are all strings, the shape
/// that both catalog sources have.
pub fn is_string_object(text: &str) -> (r: bool)
    ensures
        r == json_string_object(text@) is Some,
{
    parse_string_object(text).is_some()
}

/// Builds both catalogs from their JSON sources; a missing source gives an
/// empty catalog.
pub fn init(status_json: Option<&str>, mime_json: Option<&str>) -> (r: (StatusCatalog, MimeCatalog))
    ensures
        r.0@ == match status_json {
            Some(t) => match json_string_object(t@) {
                Some(obj) => status_entries(obj),
                None => Seq::empty(),
            },
            None => Seq::empty(),
        },
        r.1@ == match mime_json {
            Some(t) => match json_string_object(t@) {
                Some(obj) => invert_mime(obj),
                None => Seq::empty(),
            },
            None => Seq::empty(),
        },
{
    let statuses = match status_json {
        Some(t) => StatusCatalog::from_json(t),
        None => StatusCatalog::empty(),
    };
    let mimes = match mime_json {
        Some(t) => MimeCatalog::from_json(t),
        None => MimeCatalog::empty(),
    };
    (statuses, mimes)
}

} // verus!
