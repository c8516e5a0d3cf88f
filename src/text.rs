//! Byte-level text helpers shared by the parser, the serializer and the catalogs.
use vstd::prelude::*;
use vstd::utf8::{decode_utf8, valid_utf8};

verus! {

/// ASCII whitespace: space, tab, line feed, vertical tab, form feed, carriage return.
pub open spec fn is_ws(b: u8) -> bool {
    b == 32u8 || b == 9u8 || b == 10u8 || b == 11u8 || b == 12u8 || b == 13u8
}

/// Whether `a b` is the UTF-8 encoding of U+0085 or U+00A0.
pub open spec fn is_ws2(a: u8, b: u8) -> bool {
    a == 0xC2u8 && (b == 0x85u8 || b == 0xA0u8)
}

/// Whether `a b c` is the UTF-8 encoding of U+1680, U+2000 to U+200A, U+2028,
/// U+2029, U+202F, U+205F or U+3000.
pub open spec fn is_ws3(a: u8, b: u8, c: u8) -> bool {
    (a == 0xE1u8 && b == 0x9Au8 && c == 0x80u8)
    || (a == 0xE2u8 && b == 0x80u8 && ((0x80u8 <= c && c <= 0x8Au8) || c == 0xA8u8 || c == 0xA9u8 || c == 0xAFu8))
    || (a == 0xE2u8 && b == 0x81u8 && c == 0x9Fu8)
    || (a == 0xE3u8 && b == 0x80u8 && c == 0x80u8)
}

/// The length of the encoding of a Unicode White_Space character at the
/// start of `s`, or 0 when `s` does not start with one.
pub open spec fn ws_len(s: Seq<u8>) -> nat {
    if s.len() >= 1 && is_ws(s[0]) {
        1
    } else if s.len() >= 2 && is_ws2(s[0], s[1]) {
        2
    } else if s.len() >= 3 && is_ws3(s[0], s[1], s[2]) {
        3
    } else {
        0
    }
}

/// The length of the encoding of a Unicode White_Space character at the end
/// of `s`, or 0 when `s` does not end with one.
pub open spec fn ws_len_end(s: Seq<u8>) -> nat {
    let n = s.len();
    if n >= 1 && is_ws(s[n - 1]) {
        1
    } else if n >= 2 && is_ws2(s[n - 2], s[n - 1]) {
        2
    } else if n >= 3 && is_ws3(s[n - 3], s[n - 2], s[n - 1]) {
        3
    } else {
        0
    }
}

/// The whitespace-separated tokens of `s`, scanning left to right with the
/// token being read (`cur`) and the tokens already complete (`acc`).
pub open spec fn tokens_from(s: Seq<u8>, cur: Seq<u8>, acc: Seq<Seq<u8>>) -> Seq<Seq<u8>>
    decreases s.len(),
{
    if s.len() == 0 {
        if cur.len() > 0 { acc.push(cur) } else { acc }
    } else if ws_len(s) > 0 {
        tokens_from(s.skip(ws_len(s) as int), Seq::empty(), if cur.len() > 0 { acc.push(cur) } else { acc })
    } else {
        tokens_from(s.drop_first(), cur.push(s[0]), acc)
    }
}

/// The non-empty tokens of `s` between Unicode whitespace, in order.
pub open spec fn ws_tokens(s: Seq<u8>) -> Seq<Seq<u8>> {
    tokens_from(s, Seq::empty(), Seq::empty())
}

fn byte_ws(b: u8) -> (r: bool)
    ensures
        r == is_ws(b),
{
    b == 32u8 || b == 9u8 || b == 10u8 || b == 11u8 || b == 12u8 || b == 13u8
}

fn bytes_ws3(a: u8, b: u8, c: u8) -> (r: bool)
    ensures
        r == is_ws3(a, b, c),
{
    (a == 0xE1u8 && b == 0x9Au8 && c == 0x80u8)
    || (a == 0xE2u8 && b == 0x80u8 && ((0x80u8 <= c && c <= 0x8Au8) || c == 0xA8u8 || c == 0xA9u8 || c == 0xAFu8))
    || (a == 0xE2u8 && b == 0x81u8 && c == 0x9Fu8)
    || (a == 0xE3u8 && b == 0x80u8 && c == 0x80u8)
}

/// The length of the whitespace character that starts at `s[i]`, or 0.
pub fn ws_len_at(s: &[u8], i: usize) -> (r: usize)
    requires
        i <= s@.len(),
    ensures
        r == ws_len(s@.skip(i as int)),
{
    let ghost t = s@.skip(i as int);
    let n = s.len() - i;
    if n >= 1 && byte_ws(s[i]) {
        assert(t[0] == s@[i as int]);
        1
    } else if n >= 2 && s[i] == 0xC2u8 && (s[i + 1] == 0x85u8 || s[i + 1] == 0xA0u8) {
        assert(t[0] == s@[i as int] && t[1] == s@[i + 1]);
        2
    } else if n >= 3 && bytes_ws3(s[i], s[i + 1], s[i + 2]) {
        assert(t[0] == s@[i as int] && t[1] == s@[i + 1] && t[2] == s@[i + 2]);
        3
    } else {
        assert(n >= 1 ==> t[0] == s@[i as int]);
        assert(n >= 2 ==> t[1] == s@[i + 1]);
        assert(n >= 3 ==> t[2] == s@[i + 2]);
        0
    }
}

/// The length of the whitespace character that ends `s[a..b]`, or 0.
pub fn ws_len_before(s: &[u8], a: usize, b: usize) -> (r: usize)
    requires
        a <= b <= s@.len(),
    ensures
        r == ws_len_end(s@.subrange(a as int, b as int)),
{
    let ghost t = s@.subrange(a as int, b as int);
    let n = b - a;
    if n >= 1 && byte_ws(s[b - 1]) {
        assert(t[n - 1] == s@[b - 1]);
        1
    } else if n >= 2 && s[b - 2] == 0xC2u8 && (s[b - 1] == 0x85u8 || s[b - 1] == 0xA0u8) {
        assert(t[n - 1] == s@[b - 1] && t[n - 2] == s@[b - 2]);
        2
    } else if n >= 3 && bytes_ws3(s[b - 3], s[b - 2], s[b - 1]) {
        assert(t[n - 1] == s@[b - 1] && t[n - 2] == s@[b - 2] && t[n - 3] == s@[b - 3]);
        3
    } else {
        assert(n >= 1 ==> t[n - 1] == s@[b - 1]);
        assert(n >= 2 ==> t[n - 2] == s@[b - 2]);
        assert(n >= 3 ==> t[n - 3] == s@[b - 3]);
        0
    }
}

/// Splits `s` into its non-empty runs between Unicode whitespace.
pub fn split_ws(s: &[u8]) -> (r: Vec<Vec<u8>>)
    ensures
        r@.map_values(|t: Vec<u8>| t@) == ws_tokens(s@),
{
    let mut acc: Vec<Vec<u8>> = Vec::new();
    let mut cur: Vec<u8> = Vec::new();
    let mut i: usize = 0;
    assert(s@.skip(0) =~= s@);
    assert(acc@.map_values(|t: Vec<u8>| t@) =~= Seq::<Seq<u8>>::empty());
    assert(cur@ =~= Seq::<u8>::empty());
    while i < s.len()
        invariant
            i <= s@.len(),
            tokens_from(s@.skip(i as int), cur@, acc@.map_values(|t: Vec<u8>| t@)) == ws_tokens(s@),
        decreases s.len() - i,
    {
        let w = ws_len_at(s, i);
        if w > 0 {
            assert(s@.skip(i as int).skip(w as int) =~= s@.skip(i + w));
            if cur.len() > 0 {
                let ghost prev = acc@;
                let ghost c = cur@;
                acc.push(cur);
                assert(acc@.map_values(|t: Vec<u8>| t@) =~= prev.map_values(|t: Vec<u8>| t@).push(c));
            }
            cur = Vec::new();
            i = i + w;
        } else {
            assert(s@.skip(i as int).drop_first() =~= s@.skip(i + 1));
            cur.push(s[i]);
            i = i + 1;
        }
    }
    if cur.len() > 0 {
        let ghost prev = acc@;
        let ghost c = cur@;
        acc.push(cur);
        assert(acc@.map_values(|t: Vec<u8>| t@) =~= prev.map_values(|t: Vec<u8>| t@).push(c));
    }
    assert(s@.skip(i as int) =~= Seq::<u8>::empty());
    acc
}

/// `s` without its leading whitespace.
pub open spec fn trim_start(s: Seq<u8>) -> Seq<u8>
    decreases s.len(),
{
    if s.len() > 0 && ws_len(s) > 0 { trim_start(s.skip(ws_len(s) as int)) } else { s }
}

/// `s` without its trailing whitespace.
pub open spec fn trim_end(s: Seq<u8>) -> Seq<u8>
    decreases s.len(),
{
    if s.len() > 0 && ws_len_end(s) > 0 { trim_end(s.take(s.len() - ws_len_end(s))) } else { s }
}

/// `s` without leading or trailing Unicode whitespace.
pub open spec fn trim(s: Seq<u8>) -> Seq<u8> {
    trim_end(trim_start(s))
}

/// Returns `s` without surrounding whitespace.
pub fn trim_ws(s: &[u8]) -> (r: Vec<u8>)
    ensures
        r@ == trim(s@),
{
    let mut a: usize = 0;
    assert(s@.skip(0) =~= s@);
    loop
        invariant
            a <= s@.len(),
            trim_start(s@) == trim_start(s@.skip(a as int)),
        ensures
            a <= s@.len(),
            trim_start(s@) == s@.skip(a as int),
        decreases s.len() - a,
    {
        if a >= s.len() {
            break;
        }
        let w = ws_len_at(s, a);
        if w == 0 {
            break;
        }
        assert(s@.skip(a as int).skip(w as int) =~= s@.skip(a + w));
        a = a + w;
    }
    let mut b: usize = s.len();
    assert(s@.skip(a as int) =~= s@.subrange(a as int, b as int));
    loop
        invariant
            a <= b <= s@.len(),
            trim(s@) == trim_end(s@.subrange(a as int, b as int)),
        ensures
            a <= b <= s@.len(),
            trim(s@) == s@.subrange(a as int, b as int),
        decreases b,
    {
        if b <= a {
            break;
        }
        let w = ws_len_before(s, a, b);
        if w == 0 {
            break;
        }
        assert(s@.subrange(a as int, b as int).take(b - a - w) =~= s@.subrange(a as int, b - w));
        b = b - w;
    }
    let mut r: Vec<u8> = Vec::new();
    let mut k: usize = a;
    while k < b
        invariant
            a <= k <= b <= s@.len(),
            r@ =~= s@.subrange(a as int, k as int),
        decreases b - k,
    {
        r.push(s[k]);
        k = k + 1;
    }
    r
}

/// Strict lexicographic order on byte strings; a proper prefix comes first.
pub open spec fn lex_lt(a: Seq<u8>, b: Seq<u8>) -> bool
    decreases a.len(),
{
    if b.len() == 0 {
        false
    } else if a.len() == 0 {
        true
    } else if a[0] != b[0] {
        a[0] < b[0]
    } else {
        lex_lt(a.drop_first(), b.drop_first())
    }
}

pub proof fn lemma_lex_irreflexive(a: Seq<u8>)
    ensures
        !lex_lt(a, a),
    decreases a.len(),
{
    if a.len() > 0 {
        lemma_lex_irreflexive(a.drop_first());
    }
}

pub proof fn lemma_lex_total(a: Seq<u8>, b: Seq<u8>)
    ensures
        a != b ==> lex_lt(a, b) || lex_lt(b, a),
        !(lex_lt(a, b) && lex_lt(b, a)),
    decreases a.len(),
{
    if a.len() > 0 && b.len() > 0 {
        lemma_lex_total(a.drop_first(), b.drop_first());
        if a[0] == b[0] && a.drop_first() == b.drop_first() {
            assert(a =~= seq![a[0]] + a.drop_first());
            assert(b =~= seq![b[0]] + b.drop_first());
        }
    } else if a.len() == 0 && b.len() == 0 {
        assert(a =~= b);
    }
}

pub proof fn lemma_lex_transitive(a: Seq<u8>, b: Seq<u8>, c: Seq<u8>)
    requires
        lex_lt(a, b),
        lex_lt(b, c),
    ensures
        lex_lt(a, c),
    decreases a.len(),
{
    if a.len() > 0 && a[0] == b[0] && b[0] == c[0] {
        lemma_lex_transitive(a.drop_first(), b.drop_first(), c.drop_first());
    }
}

proof fn lemma_lex_common_prefix(a: Seq<u8>, b: Seq<u8>, i: int)
    requires
        0 <= i <= a.len(),
        i <= b.len(),
        a.take(i) == b.take(i),
    ensures
        lex_lt(a, b) == lex_lt(a.skip(i), b.skip(i)),
        i == a.len() && i == b.len() ==> a == b,
    decreases i,
{
    if i > 0 {
        assert(a[0] == a.take(i)[0]);
        assert(b[0] == b.take(i)[0]);
        assert(a.drop_first().take(i - 1) =~= a.take(i).drop_first());
        assert(b.drop_first().take(i - 1) =~= b.take(i).drop_first());
        lemma_lex_common_prefix(a.drop_first(), b.drop_first(), i - 1);
        assert(a.drop_first().skip(i - 1) =~= a.skip(i));
        assert(b.drop_first().skip(i - 1) =~= b.skip(i));
    } else {
        assert(a.skip(0) =~= a);
        assert(b.skip(0) =~= b);
    }
    if i == a.len() && i == b.len() {
        assert(a =~= a.take(i));
        assert(b =~= b.take(i));
    }
}

/// Compares two byte strings: negative, zero or positive as `a` comes
/// before, equals or comes after `b`.
pub fn compare_bytes(a: &[u8], b: &[u8]) -> (r: i8)
    ensures
        r < 0 <==> lex_lt(a@, b@),
        r == 0 <==> a@ == b@,
        r > 0 <==> lex_lt(b@, a@),
{
    let mut i: usize = 0;
    while i < a.len() && i < b.len() && a[i] == b[i]
        invariant
            i <= a@.len(),
            i <= b@.len(),
            a@.take(i as int) =~= b@.take(i as int),
        decreases a.len() - i,
    {
        assert(a@.take(i + 1) =~= a@.take(i as int).push(a@[i as int]));
        assert(b@.take(i + 1) =~= b@.take(i as int).push(b@[i as int]));
        i = i + 1;
    }
    proof {
        lemma_lex_common_prefix(a@, b@, i as int);
        lemma_lex_common_prefix(b@, a@, i as int);
        lemma_lex_irreflexive(a@);
        lemma_lex_total(a@, b@);
    }
    if i == a.len() && i == b.len() {
        0
    } else if i == a.len() {
        -1
    } else if i == b.len() {
        1
    } else if a[i] < b[i] {
        -1
    } else {
        1
    }
}

/// Whether every byte of `s` is an ASCII decimal digit.
pub open spec fn all_digits(s: Seq<u8>) -> bool {
    forall|i: int| 0 <= i < s.len() ==> 48u8 <= #[trigger] s[i] <= 57u8
}

/// The number that the decimal digits `s` write.
pub open spec fn digits_value(s: Seq<u8>) -> nat
    decreases s.len(),
{
    if s.len() == 0 {
        0
    } else {
        digits_value(s.drop_last()) * 10 + (s.last() - 48u8) as nat
    }
}

proof fn lemma_digits_value_grows(s: Seq<u8>, i: int, j: int)
    requires
        0 <= i <= j <= s.len(),
        all_digits(s),
    ensures
        digits_value(s.take(i)) <= digits_value(s.take(j)),
    decreases j - i,
{
    if i < j {
        lemma_digits_value_grows(s, i, j - 1);
        assert(s.take(j).drop_last() =~= s.take(j - 1));
    }
}

/// Reads a non-empty run of decimal digits as a `usize`; `None` when `s` is
/// empty, holds a byte other than a digit, or writes a number above `usize::MAX`.
fn parse_digits(s: &[u8]) -> (r: Option<usize>)
    ensures
        r is Some <==> (s@.len() > 0 && all_digits(s@) && digits_value(s@) <= usize::MAX),
        r is Some ==> r->0 == digits_value(s@),
{
    if s.len() == 0 {
        return None;
    }
    let mut v: usize = 0;
    let mut i: usize = 0;
    assert(s@.take(0) =~= Seq::<u8>::empty());
    while i < s.len()
        invariant
            i <= s@.len(),
            all_digits(s@.take(i as int)),
            v == digits_value(s@.take(i as int)),
        decreases s.len() - i,
    {
        let d = s[i];
        if d < 48u8 || d > 57u8 {
            assert(!all_digits(s@));
            return None;
        }
        assert(s@.take(i + 1).drop_last() =~= s@.take(i as int));
        let dv: usize = (d - 48u8) as usize;
        if v > (usize::MAX - dv) / 10 {
            proof {
                assert(digits_value(s@.take(i + 1)) > usize::MAX) by (nonlinear_arith)
                    requires
                        v > (usize::MAX - dv) / 10,
                        digits_value(s@.take(i + 1)) == v * 10 + dv,
                        dv <= 9,
                ;
                if all_digits(s@) {
                    lemma_digits_value_grows(s@, i + 1, s@.len() as int);
                    assert(s@.take(s@.len() as int) =~= s@);
                }
            }
            return None;
        }
        assert(v * 10 + dv <= usize::MAX) by (nonlinear_arith)
            requires
                v <= (usize::MAX - dv) / 10,
                dv <= 9,
        ;
        v = v * 10 + dv;
        i = i + 1;
    }
    assert(s@.take(i as int) =~= s@);
    Some(v)
}


/// The first index at or after `i` where `s` holds `x`, or -1.
pub open spec fn find_from(s: Seq<u8>, x: u8, i: int) -> int
    decreases s.len() - i,
{
    if i < 0 || i >= s.len() {
        -1
    } else if s[i] == x {
        i
    } else {
        find_from(s, x, i + 1)
    }
}

pub proof fn lemma_find_from_bounds(s: Seq<u8>, x: u8, i: int)
    ensures
        find_from(s, x, i) == -1 || (i <= find_from(s, x, i) < s.len() && s[find_from(s, x, i)] == x),
        forall|j: int| 0 <= i <= j < s.len() && (find_from(s, x, i) == -1 || j < find_from(s, x, i)) ==> s[j] != x,
    decreases s.len() - i,
{
    if 0 <= i < s.len() && s[i] != x {
        lemma_find_from_bounds(s, x, i + 1);
    }
}

/// The first index at or after `from` where `s` holds `x`.
pub fn find_byte(s: &[u8], x: u8, from: usize) -> (r: Option<usize>)
    ensures
        match r {
            Some(i) => i as int == find_from(s@, x, from as int) && from <= i < s@.len(),
            None => find_from(s@, x, from as int) == -1,
        },
        s@.len() <= usize::MAX,
{
    let mut i: usize = from;
    let n = s.len();
    while i < n
        invariant
            n == s@.len(),
            from <= i,
            find_from(s@, x, from as int) == find_from(s@, x, i as int),
        decreases s.len() - i,
    {
        if s[i] == x {
            return Some(i);
        }
        i = i + 1;
    }
    None
}

/// A copy of `s[from..to]`.
pub fn copy_range(s: &[u8], from: usize, to: usize) -> (r: Vec<u8>)
    requires
        from <= to <= s@.len(),
    ensures
        r@ == s@.subrange(from as int, to as int),
{
    let mut r: Vec<u8> = Vec::new();
    let mut k: usize = from;
    while k < to
        invariant
            from <= k <= to <= s@.len(),
            r@ =~= s@.subrange(from as int, k as int),
        decreases to - k,
    {
        r.push(s[k]);
        k = k + 1;
    }
    r
}

/// What `String::from_utf8_lossy` makes of `b`.
pub uninterp spec fn lossy_utf8(b: Seq<u8>) -> Seq<char>;

/// Relies on String::from_utf8_lossy: the text that `b` encodes, with each
/// invalid sequence replaced; valid UTF-8 decodes unchanged.
#[verifier::external_body]
pub(crate) fn decode_lossy(b: &[u8]) -> (r: String)
    ensures
        r@ == lossy_utf8(b@),
        valid_utf8(b@) ==> r@ == decode_utf8(b@),
{
    String::from_utf8_lossy(b).into_owned()
}


/// The digits of an unsigned number's text: without its one optional
/// leading `+`.
pub open spec fn unsigned_digits(s: Seq<u8>) -> Seq<u8> {
    if s.len() > 0 && s[0] == 43u8 { s.skip(1) } else { s }
}

/// Whether `s` is the text of a `usize`: an optional `+`, then at least one
/// decimal digit, writing a number no larger than `usize::MAX`.
pub open spec fn is_usize_text(s: Seq<u8>) -> bool {
    let d = unsigned_digits(s);
    d.len() > 0 && all_digits(d) && digits_value(d) <= usize::MAX
}

/// The number that the text of a `usize` writes.
pub open spec fn usize_value(s: Seq<u8>) -> nat {
    digits_value(unsigned_digits(s))
}

/// Reads the text of a `usize`: an optional `+`, then decimal digits.
pub fn parse_decimal(s: &[u8]) -> (r: Option<usize>)
    ensures
        r is Some <==> is_usize_text(s@),
        r is Some ==> r->0 == usize_value(s@),
{
    if s.len() > 0 && s[0] == 43u8 {
        let n = s.len();
        let rest = copy_range(s, 1, n);
        assert(rest@ =~= s@.skip(1));
        parse_digits(rest.as_slice())
    } else {
        parse_digits(s)
    }
}

pub(crate) fn copy_str(s: &str) -> (r: String)
    ensures
        r@ == s@,
{
    s.to_owned()
}

} // verus!
