//! The request object: the body reader, form fields and header lookup.
use crate::error::Error;
use crate::head::{HeadModel, HeadSpec, Head, head_spec, parse_head, views};
use crate::scan::{
    eq_ignore_case, scan_for, rskip_ows, bytes_eq_ignore_case, find_byte, rskip_ows_to, copy_range,
    lemma_scan_for_bounds,
};
use crate::util::{utf8_lossy, percent_decoded, form_text, text_of, decode_form_bytes};
use vstd::prelude::*;
use vstd::string::StringSliceAdditionalSpecFns;

verus! {

/// Index of the first name from `i` on equal to `key` up to ASCII case, or `names.len()`.
pub open spec fn index_from(names: Seq<Seq<u8>>, key: Seq<u8>, i: int) -> int
    decreases names.len() - i,
{
    if i < 0 || i >= names.len() {
        names.len() as int
    } else if eq_ignore_case(names[i], key) {
        i
    } else {
        index_from(names, key, i + 1)
    }
}

/// Index of the first header named `key` (ASCII case ignored), or `names.len()`.
pub open spec fn header_index(names: Seq<Seq<u8>>, key: Seq<u8>) -> int {
    index_from(names, key, 0)
}

pub proof fn lemma_index_from_bounds(names: Seq<Seq<u8>>, key: Seq<u8>, i: int)
    requires
        0 <= i <= names.len(),
    ensures
        i <= index_from(names, key, i) <= names.len(),
        index_from(names, key, i) < names.len() ==> eq_ignore_case(names[index_from(names, key, i)], key),
    decreases names.len() - i,
{
    if i < names.len() && !eq_ignore_case(names[i], key) {
        lemma_index_from_bounds(names, key, i + 1);
    }
}

/// `content-length`
pub open spec fn content_length_name() -> Seq<u8> {
    seq![99u8, 111, 110, 116, 101, 110, 116, 45, 108, 101, 110, 103, 116, 104]
}

/// `transfer-encoding`
pub open spec fn transfer_encoding_name() -> Seq<u8> {
    seq![116u8, 114, 97, 110, 115, 102, 101, 114, 45, 101, 110, 99, 111, 100, 105, 110, 103]
}

/// `content-type`
pub open spec fn content_type_name() -> Seq<u8> {
    seq![99u8, 111, 110, 116, 101, 110, 116, 45, 116, 121, 112, 101]
}

/// `application/x-www-form-urlencoded`
pub open spec fn urlencoded_type() -> Seq<u8> {
    seq![97u8, 112, 112, 108, 105, 99, 97, 116, 105, 111, 110, 47, 120, 45, 119, 119, 119, 45, 102,
        111, 114, 109, 45, 117, 114, 108, 101, 110, 99, 111, 100, 101, 100]
}

fn content_length_key() -> (r: Vec<u8>)
    ensures
        r@ == content_length_name(),
{
    let r = vec![99u8, 111, 110, 116, 101, 110, 116, 45, 108, 101, 110, 103, 116, 104];
    assert(r@ =~= content_length_name());
    r
}

fn transfer_encoding_key() -> (r: Vec<u8>)
    ensures
        r@ == transfer_encoding_name(),
{
    let r = vec![116u8, 114, 97, 110, 115, 102, 101, 114, 45, 101, 110, 99, 111, 100, 105, 110, 103];
    assert(r@ =~= transfer_encoding_name());
    r
}

pub(crate) fn content_type_key() -> (r: Vec<u8>)
    ensures
        r@ == content_type_name(),
{
    let r = vec![99u8, 111, 110, 116, 101, 110, 116, 45, 116, 121, 112, 101];
    assert(r@ =~= content_type_name());
    r
}

fn urlencoded_key() -> (r: Vec<u8>)
    ensures
        r@ == urlencoded_type(),
{
    let r = vec![97u8, 112, 112, 108, 105, 99, 97, 116, 105, 111, 110, 47, 120, 45, 119, 119, 119,
        45, 102, 111, 114, 109, 45, 117, 114, 108, 101, 110, 99, 111, 100, 101, 100];
    assert(r@ =~= urlencoded_type());
    r
}

/// Index of the first header named `key`, ASCII case ignored, or `names.len()`.
pub fn find_header(names: &Vec<Vec<u8>>, key: &[u8]) -> (r: usize)
    ensures
        r == header_index(views(names@), key@),
{
    let ghost ns = views(names@);
    proof {
        lemma_index_from_bounds(ns, key@, 0);
    }
    let mut i: usize = 0;
    while i < names.len()
        invariant
            ns == views(names@),
            i <= names@.len(),
            index_from(ns, key@, i as int) == index_from(ns, key@, 0),
        decreases names@.len() - i,
    {
        if bytes_eq_ignore_case(names[i].as_slice(), key) {
            return i;
        }
        i = i + 1;
    }
    i
}

/// Every byte is a decimal digit.
pub open spec fn all_digits(s: Seq<u8>) -> bool {
    forall|i: int| 0 <= i < s.len() ==> 48 <= #[trigger] s[i] <= 57
}

/// The number that a string of decimal digits spells.
pub open spec fn decimal_value(s: Seq<u8>) -> nat
    decreases s.len(),
{
    if s.len() == 0 {
        0
    } else {
        decimal_value(s.drop_last()) * 10 + (s.last() - 48) as nat
    }
}

proof fn lemma_decimal_prefix(s: Seq<u8>, k: int)
    requires
        all_digits(s),
        0 <= k <= s.len(),
    ensures
        decimal_value(s.subrange(0, k)) <= decimal_value(s),
    decreases s.len() - k,
{
    if k < s.len() {
        let t = s.subrange(0, k + 1);
        assert(t.drop_last() =~= s.subrange(0, k));
        assert(48 <= s[k] <= 57);
        lemma_decimal_prefix(s, k + 1);
    } else {
        assert(s.subrange(0, k) =~= s);
    }
}

/// The value of a `Content-Length` field: non-empty decimal digits whose
/// number fits in `usize`.
pub open spec fn length_value(s: Seq<u8>) -> Option<usize> {
    if s.len() > 0 && all_digits(s) && decimal_value(s) <= usize::MAX {
        Some(decimal_value(s) as usize)
    } else {
        None
    }
}

fn parse_length(s: &[u8]) -> (r: Option<usize>)
    ensures
        r == length_value(s@),
{
    if s.len() == 0 {
        return None;
    }
    let mut n: usize = 0;
    let mut i: usize = 0;
    while i < s.len()
        invariant
            i <= s@.len(),
            all_digits(s@.subrange(0, i as int)),
            n == decimal_value(s@.subrange(0, i as int)),
        decreases s@.len() - i,
    {
        let b = s[i];
        assert(s@.subrange(0, i + 1).drop_last() =~= s@.subrange(0, i as int));
        if b < 48 || b > 57 {
            assert(!all_digits(s@));
            return None;
        }
        let next = match n.checked_mul(10) {
            Some(m) => m.checked_add((b - 48) as usize),
            None => None,
        };
        match next {
            Some(v) => {
                n = v;
            },
            None => {
                proof {
                    if all_digits(s@) {
                        lemma_decimal_prefix(s@, i + 1);
                    }
                }
                return None;
            },
        }
        i = i + 1;
    }
    assert(s@.subrange(0, s@.len() as int) =~= s@);
    Some(n)
}

/// The media type of a `Content-Type` value: the text before any `;`,
/// without trailing whitespace.
pub open spec fn media_type(v: Seq<u8>) -> Seq<u8> {
    v.subrange(0, rskip_ows(v, 0, scan_for(v, 59, 0, v.len() as int)))
}

pub(crate) fn media_type_end(v: &[u8]) -> (r: usize)
    ensures
        r <= v@.len(),
        v@.subrange(0, r as int) == media_type(v@),
{
    let semi = find_byte(v, 59, 0, v.len());
    rskip_ows_to(v, 0, semi)
}

#[via_fn]
proof fn pairs_from_decreases(b: Seq<u8>, p: int) {
    if 0 <= p <= b.len() {
        lemma_scan_for_bounds(b, 38, p, b.len() as int);
    }
}

/// The key and value of the `&`-separated segment `[p, a)`: split at its
/// first `=`, each side decoded; a segment without `=` has an empty value.
pub open spec fn form_pair(b: Seq<u8>, p: int, a: int) -> (Seq<char>, Seq<char>) {
    let eq = scan_for(b, 61, p, a);
    (form_text(b.subrange(p, eq)), if eq < a {
        form_text(b.subrange(eq + 1, a))
    } else {
        seq![]
    })
}

/// The decoded pairs of `b` from `p` on; empty segments are skipped.
pub open spec fn pairs_from(b: Seq<u8>, p: int) -> Seq<(Seq<char>, Seq<char>)>
    decreases b.len() - p,
    via pairs_from_decreases
{
    if p < 0 || p >= b.len() {
        seq![]
    } else {
        let a = scan_for(b, 38, p, b.len() as int);
        let rest = if a < b.len() {
            pairs_from(b, a + 1)
        } else {
            seq![]
        };
        if a == p {
            rest
        } else {
            seq![form_pair(b, p, a)] + rest
        }
    }
}

/// The key/value pairs of a URL-encoded body, in order.
pub open spec fn form_pairs(b: Seq<u8>) -> Seq<(Seq<char>, Seq<char>)> {
    pairs_from(b, 0)
}

/// The form fields of a request with this head and body: its pairs when the
/// content type is `application/x-www-form-urlencoded`, none otherwise.
pub open spec fn form_spec(h: HeadModel, body: Seq<u8>) -> Seq<(Seq<char>, Seq<char>)> {
    let i = header_index(h.names, content_type_name());
    if 0 <= i < h.names.len() && i < h.values.len() && eq_ignore_case(
        media_type(h.values[i]),
        urlencoded_type(),
    ) {
        form_pairs(body)
    } else {
        seq![]
    }
}

/// The characters that a vector of strings holds.
pub open spec fn texts(v: Seq<String>) -> Seq<Seq<char>> {
    v.map_values(|s: String| s@)
}

/// Whether `keys` and `values` hold exactly the pairs `p`.
pub open spec fn holds_pairs(keys: Seq<String>, values: Seq<String>, p: Seq<(Seq<char>, Seq<char>)>) -> bool {
    keys.len() == p.len() && values.len() == p.len() && forall|i: int|
        0 <= i < p.len() ==> (#[trigger] keys[i])@ == p[i].0 && values[i]@ == p[i].1
}

fn decode_pairs(b: &[u8]) -> (r: (Vec<String>, Vec<String>))
    ensures
        holds_pairs(r.0@, r.1@, form_pairs(b@)),
{
    let mut keys: Vec<String> = Vec::new();
    let mut values: Vec<String> = Vec::new();
    let mut p: usize = 0;
    let len = b.len();
    let ghost done: Seq<(Seq<char>, Seq<char>)> = seq![];
    while p < len
        invariant
            len == b@.len(),
            p <= len,
            done + pairs_from(b@, p as int) == form_pairs(b@),
            holds_pairs(keys@, values@, done),
        decreases len - p,
    {
        let a = find_byte(b, 38, p, len);
        if a > p {
            let eq = find_byte(b, 61, p, a);
            let k = decode_form_bytes(slice_sub(b, p, eq));
            let v = if eq < a {
                decode_form_bytes(slice_sub(b, eq + 1, a))
            } else {
                String::new()
            };
            let ghost pair = form_pair(b@, p as int, a as int);
            assert(k@ == pair.0);
            assert(v@ == pair.1);
            keys.push(k);
            values.push(v);
            assert(pairs_from(b@, p as int) == seq![pair] + pairs_from(b@, a + 1));
            assert(done.push(pair) + pairs_from(b@, a + 1) =~= done + pairs_from(b@, p as int));
            proof {
                done = done.push(pair);
            }
        } else {
            assert(pairs_from(b@, p as int) == pairs_from(b@, a + 1));
        }
        if a < len {
            p = a + 1;
        } else {
            assert(pairs_from(b@, a + 1) =~= pairs_from(b@, len as int));
            p = len;
        }
    }
    assert(pairs_from(b@, p as int) =~= seq![]);
    assert(done =~= form_pairs(b@));
    (keys, values)
}

fn slice_sub(b: &[u8], lo: usize, hi: usize) -> (r: &[u8])
    requires
        lo <= hi <= b@.len(),
    ensures
        r@ == b@.subrange(lo as int, hi as int),
{
    vstd::slice::slice_subrange(b, lo, hi)
}

/// A parsed request. Built only by `parse`, which fixes every field from the
/// bytes it was given.
#[derive(Debug)]
pub struct Request {
    pub method: String,
    pub path: String,
    pub version: String,
    pub header_names: Vec<Vec<u8>>,
    pub header_values: Vec<Vec<u8>>,
    pub header_texts: Vec<String>,
    pub body: Vec<u8>,
    pub form_keys: Vec<String>,
    pub form_values: Vec<String>,
}

/// The result of one parse attempt over a buffer.
#[derive(Debug)]
pub enum Status {
    /// The head and the declared body are all in the buffer.
    Complete(Request),
    /// More bytes are needed.
    Partial,
}

/// What a parse of `s` gives: a head and a body, a need for more bytes, or a failure.
pub ghost enum ParseSpec {
    Complete(HeadModel, Seq<u8>),
    Partial,
    Fail(Error),
}

/// Parsing a buffer: the head, then exactly `Content-Length` bytes of body
/// (none without that header). A `Transfer-Encoding` header is not supported.
pub open spec fn parse_spec(s: Seq<u8>) -> ParseSpec {
    match head_spec(s) {
        HeadSpec::Fail(e) => ParseSpec::Fail(e),
        HeadSpec::Incomplete => ParseSpec::Partial,
        HeadSpec::Done(h) => {
            let cl = header_index(h.names, content_length_name());
            if header_index(h.names, transfer_encoding_name()) < h.names.len() {
                ParseSpec::Fail(Error::UnsupportedEncoding)
            } else if cl >= h.names.len() {
                ParseSpec::Complete(h, seq![])
            } else {
                match length_value(h.values[cl]) {
                    None => ParseSpec::Fail(Error::ParseHeaderValue),
                    Some(n) => if h.body_start + n > s.len() {
                        ParseSpec::Partial
                    } else {
                        ParseSpec::Complete(h, s.subrange(h.body_start, h.body_start + n))
                    },
                }
            }
        },
    }
}

/// `r` is the request that a head `h` and a body `body` make: the method and
/// version as text, the target percent-decoded, the headers in order, the
/// body, and the form fields that `form_spec` gives.
pub open spec fn request_from(r: Request, h: HeadModel, body: Seq<u8>) -> bool {
    &&& r.wf()
    &&& r.method@ == utf8_lossy(h.method)
    &&& r.path@ == utf8_lossy(percent_decoded(h.target))
    &&& r.version@ == utf8_lossy(h.version)
    &&& views(r.header_names@) == h.names
    &&& views(r.header_values@) == h.values
    &&& r.header_texts@.len() == h.values.len()
    &&& forall|i: int| 0 <= i < h.values.len() ==> (#[trigger] r.header_texts@[i])@ == utf8_lossy(h.values[i])
    &&& r.body@ == body
    &&& holds_pairs(r.form_keys@, r.form_values@, form_spec(h, body))
}

/// What `parse` returned agrees with `parse_spec`.
pub open spec fn parse_agrees(r: Result<Status, Error>, p: ParseSpec) -> bool {
    match (r, p) {
        (Ok(Status::Complete(q)), ParseSpec::Complete(h, b)) => request_from(q, h, b),
        (Ok(Status::Partial), ParseSpec::Partial) => true,
        (Err(e), ParseSpec::Fail(f)) => e == f,
        _ => false,
    }
}

fn header_texts_of(values: &Vec<Vec<u8>>) -> (r: Vec<String>)
    ensures
        r@.len() == values@.len(),
        forall|i: int| 0 <= i < values@.len() ==> (#[trigger] r@[i])@ == utf8_lossy(values@[i]@),
{
    let mut r: Vec<String> = Vec::new();
    let mut i: usize = 0;
    while i < values.len()
        invariant
            i <= values@.len(),
            r@.len() == i,
            forall|k: int| 0 <= k < i ==> (#[trigger] r@[k])@ == utf8_lossy(values@[k]@),
        decreases values@.len() - i,
    {
        r.push(text_of(values[i].as_slice()));
        i = i + 1;
    }
    r
}

fn assemble(h: Head, body: Vec<u8>) -> (r: Request)
    requires
        h.names@.len() == h.values@.len(),
    ensures
        request_from(r, h.model(), body@),
{
    let ghost m = h.model();
    let ct = find_header(&h.names, content_type_key().as_slice());
    let mut keys: Vec<String> = Vec::new();
    let mut vals: Vec<String> = Vec::new();
    assert(views(h.names@).len() == h.names@.len());
    proof {
        lemma_index_from_bounds(m.names, content_type_name(), 0);
    }
    if ct < h.names.len() {
        let v = h.values[ct].as_slice();
        let end = media_type_end(v);
        let u = urlencoded_key();
        if bytes_eq_ignore_case(slice_sub(v, 0, end), u.as_slice()) {
            let (k, w) = decode_pairs(body.as_slice());
            keys = k;
            vals = w;
        }
    }
    let path_bytes = crate::util::percent_decode_bytes(h.target.as_slice());
    let texts = header_texts_of(&h.values);
    assert forall|i: int| 0 <= i < m.values.len() implies (#[trigger] texts@[i])@ == utf8_lossy(m.values[i]) by {
        assert(m.values[i] == h.values@[i]@);
    }
    Request {
        method: text_of(h.method.as_slice()),
        path: text_of(path_bytes.as_slice()),
        version: text_of(h.version.as_slice()),
        header_names: h.names,
        header_values: h.values,
        header_texts: texts,
        body,
        form_keys: keys,
        form_values: vals,
    }
}

/// Parses a buffer that holds a request, or the start of one: `Partial`
/// while the head or the declared body is not all there.
pub fn parse(buf: Vec<u8>) -> (r: Result<Status, Error>)
    ensures
        parse_agrees(r, parse_spec(buf@)),
{
    let h = match parse_head(buf.as_slice()) {
        Err(e) => {
            return Err(e);
        },
        Ok(None) => {
            return Ok(Status::Partial);
        },
        Ok(Some(h)) => h,
    };
    let ghost m = h.model();
    assert(head_spec(buf@) == HeadSpec::Done(m));
    proof {
        lemma_index_from_bounds(m.names, content_length_name(), 0);
    }
    if find_header(&h.names, transfer_encoding_key().as_slice()) < h.names.len() {
        return Err(Error::UnsupportedEncoding);
    }
    let cl = find_header(&h.names, content_length_key().as_slice());
    if cl >= h.names.len() {
        let empty: Vec<u8> = Vec::new();
        assert(empty@ =~= seq![]);
        let r = assemble(h, empty);
        return Ok(Status::Complete(r));
    }
    assert(m.values[cl as int] == h.values@[cl as int]@);
    match parse_length(h.values[cl].as_slice()) {
        None => Err(Error::ParseHeaderValue),
        Some(n) => {
            if n > buf.len() - h.body_start {
                Ok(Status::Partial)
            } else {
                let body = copy_range(buf.as_slice(), h.body_start, h.body_start + n);
                Ok(Status::Complete(assemble(h, body)))
            }
        },
    }
}

/// Index of the first of `v` from `i` on that equals `key`, or `v.len()`.
pub open spec fn text_index_from(v: Seq<Seq<char>>, key: Seq<char>, i: int) -> int
    decreases v.len() - i,
{
    if i < 0 || i >= v.len() {
        v.len() as int
    } else if v[i] == key {
        i
    } else {
        text_index_from(v, key, i + 1)
    }
}

/// `r` is what `form(key)` owes for `q`: the value of the first field
/// called `key`, or nothing.
pub open spec fn form_agrees(q: &Request, key: Seq<char>, r: Option<&str>) -> bool {
    let i = q.form_at(key);
    if 0 <= i < q.form_values@.len() {
        r matches Some(t) && t@ == q.form_values@[i]@
    } else {
        r is None
    }
}

impl Request {
    /// Index of the header that `header(name)` reads.
    pub open spec fn header_at(&self, name: Seq<u8>) -> int {
        header_index(views(self.header_names@), name)
    }

    /// Index of the form field that `form(key)` reads.
    pub open spec fn form_at(&self, key: Seq<char>) -> int {
        text_index_from(texts(self.form_keys@), key, 0)
    }

    /// Well-formed: the header vectors run in parallel, as do the form vectors.
    pub open spec fn wf(&self) -> bool {
        &&& self.header_names@.len() == self.header_values@.len()
        &&& self.header_texts@.len() == self.header_values@.len()
        &&& self.form_keys@.len() == self.form_values@.len()
    }

    pub fn method(&self) -> (r: &str)
        ensures
            r@ == self.method@,
    {
        self.method.as_str()
    }

    pub fn path(&self) -> (r: &str)
        ensures
            r@ == self.path@,
    {
        self.path.as_str()
    }

    pub fn body(&self) -> (r: &[u8])
        ensures
            r@ == self.body@,
    {
        self.body.as_slice()
    }

    /// The value of the first header called `name`, ASCII case ignored.
    pub fn header(&self, name: &str) -> (r: Option<&str>)
        requires
            self.wf(),
        ensures
            ({
                let i = self.header_at(name.spec_bytes());
                if 0 <= i < self.header_texts@.len() {
                    r matches Some(t) && t@ == self.header_texts@[i]@
                } else {
                    r is None
                }
            }),
    {
        proof {
            lemma_index_from_bounds(views(self.header_names@), name.spec_bytes(), 0);
        }
        let i = find_header(&self.header_names, name.as_bytes());
        if i < self.header_texts.len() {
            Some(self.header_texts[i].as_str())
        } else {
            None
        }
    }

    /// The value of the first form field called `key`, if any.
    pub fn form(&self, key: &str) -> (r: Option<&str>)
        requires
            self.wf(),
        ensures
            form_agrees(self, key@, r),
    {
        let k = key.to_string();
        let ghost ks = texts(self.form_keys@);
        let mut i: usize = 0;
        while i < self.form_keys.len()
            invariant
                self.wf(),
                k@ == key@,
                ks == texts(self.form_keys@),
                i <= ks.len(),
                text_index_from(ks, key@, i as int) == text_index_from(ks, key@, 0),
            decreases ks.len() - i,
        {
            if self.form_keys[i] == k {
                return Some(self.form_values[i].as_str());
            }
            i = i + 1;
        }
        None
    }

    /// Reads a request from a buffer that holds all of it: a head or body
    /// that is cut short is a closed connection.
    pub fn from_bytes(buf: Vec<u8>) -> (r: Result<Request, Error>)
        ensures
            match (r, parse_spec(buf@)) {
                (Ok(q), ParseSpec::Complete(h, b)) => request_from(q, h, b) && q.wf(),
                (Err(e), ParseSpec::Partial) => e == Error::ConnectionClosed,
                (Err(e), ParseSpec::Fail(f)) => e == f,
                _ => false,
            },
    {
        match parse(buf) {
            Ok(Status::Complete(q)) => Ok(q),
            Ok(Status::Partial) => Err(Error::ConnectionClosed),
            Err(e) => Err(e),
        }
    }
}

} // verus!
