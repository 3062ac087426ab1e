//! Multipart form data: parts as spans into the request body.
use crate::error::Error;
use crate::head::{content_end, views};
use crate::request::{Request, content_type_name, content_type_key, find_header, media_type, media_type_end, lemma_index_from_bounds};
use crate::scan::{
    CR, LF, COLON, scan_for, skip_ows, rskip_ows, all_token, eq_ignore_case, lemma_scan_for_bounds,
    find_byte, skip_ows_from, rskip_ows_to, all_token_bytes, bytes_eq_ignore_case, copy_range,
};
use crate::util::{utf8_lossy, text_of};
use vstd::prelude::*;
use vstd::slice::slice_subrange;

verus! {

/// `pat` occurs in `b` at `k`.
pub open spec fn matches_at(b: Seq<u8>, pat: Seq<u8>, k: int) -> bool {
    0 <= k && k + pat.len() <= b.len() && b.subrange(k, k + pat.len()) == pat
}

/// First index from `i` on where `pat` occurs in `b`, or `b.len()`.
pub open spec fn find_from(b: Seq<u8>, pat: Seq<u8>, i: int) -> int
    decreases b.len() + 1 - i,
{
    if i < 0 || i + pat.len() > b.len() {
        b.len() as int
    } else if matches_at(b, pat, i) {
        i
    } else {
        find_from(b, pat, i + 1)
    }
}

pub proof fn lemma_find_from(b: Seq<u8>, pat: Seq<u8>, i: int)
    requires
        0 <= i,
    ensures
        find_from(b, pat, i) < b.len() ==> i <= find_from(b, pat, i) && matches_at(b, pat, find_from(b, pat, i)),
        find_from(b, pat, i) <= b.len(),
    decreases b.len() + 1 - i,
{
    if i + pat.len() <= b.len() && !matches_at(b, pat, i) {
        lemma_find_from(b, pat, i + 1);
    }
}

/// A quoted string loses its quotes.
pub open spec fn unquote(x: Seq<u8>) -> Seq<u8> {
    if x.len() >= 2 && x[0] == 34 && x.last() == 34 {
        x.subrange(1, x.len() - 1)
    } else {
        x
    }
}

#[via_fn]
proof fn param_from_decreases(v: Seq<u8>, key: Seq<u8>, p: int) {
    if 0 <= p <= v.len() {
        lemma_scan_for_bounds(v, 59, p, v.len() as int);
    }
}

/// The value of parameter `key` among the `;`-separated parameters of `v`
/// from `p` on: the first one whose name matches, unquoted.
pub open spec fn param_from(v: Seq<u8>, key: Seq<u8>, p: int) -> Option<Seq<u8>>
    decreases v.len() - p,
    via param_from_decreases
{
    if p < 0 || p >= v.len() {
        None
    } else {
        let a = scan_for(v, 59, p, v.len() as int);
        let s = skip_ows(v, p, a);
        let eq = scan_for(v, 61, s, a);
        let vs = skip_ows(v, eq + 1, a);
        if eq < a && eq_ignore_case(v.subrange(s, rskip_ows(v, s, eq)), key) {
            Some(unquote(v.subrange(vs, rskip_ows(v, vs, a))))
        } else if a < v.len() {
            param_from(v, key, a + 1)
        } else {
            None
        }
    }
}

/// The parameter `key` of a header value `type; k=v; ...`.
pub open spec fn param(v: Seq<u8>, key: Seq<u8>) -> Option<Seq<u8>> {
    let a = scan_for(v, 59, 0, v.len() as int);
    if a < v.len() {
        param_from(v, key, a + 1)
    } else {
        None
    }
}

fn unquote_range(v: &[u8], lo: usize, hi: usize) -> (r: Vec<u8>)
    requires
        lo <= hi <= v@.len(),
    ensures
        r@ == unquote(v@.subrange(lo as int, hi as int)),
{
    if hi - lo >= 2 && v[lo] == 34 && v[hi - 1] == 34 {
        let r = copy_range(v, lo + 1, hi - 1);
        assert(r@ =~= unquote(v@.subrange(lo as int, hi as int)));
        r
    } else {
        copy_range(v, lo, hi)
    }
}

/// The value of parameter `key` in the header value `v`.
pub fn find_param(v: &[u8], key: &[u8]) -> (r: Option<Vec<u8>>)
    ensures
        match (r, param(v@, key@)) {
            (Some(x), Some(y)) => x@ == y,
            (None, None) => true,
            _ => false,
        },
{
    let len = v.len();
    let first = find_byte(v, 59, 0, len);
    if first >= len {
        return None;
    }
    let mut p = first + 1;
    while p < len
        invariant
            len == v@.len(),
            0 < p <= len,
            param_from(v@, key@, p as int) == param(v@, key@),
        decreases len - p,
    {
        let a = find_byte(v, 59, p, len);
        let s = skip_ows_from(v, p, a);
        let eq = find_byte(v, 61, s, a);
        if eq < a {
            let ne = rskip_ows_to(v, s, eq);
            if bytes_eq_ignore_case(slice_subrange(v, s, ne), key) {
                let vs = skip_ows_from(v, eq + 1, a);
                let ve = rskip_ows_to(v, vs, a);
                return Some(unquote_range(v, vs, ve));
            }
        }
        if a >= len {
            return None;
        }
        p = a + 1;
    }
    None
}

/// One part: its `name` and `filename` parameters and the span of its content.
pub ghost struct PartModel {
    pub name: Seq<u8>,
    pub file: Seq<u8>,
    pub start: int,
    pub end: int,
}

/// `content-disposition`
pub open spec fn disposition_name() -> Seq<u8> {
    seq![99u8, 111, 110, 116, 101, 110, 116, 45, 100, 105, 115, 112, 111, 115, 105, 116, 105, 111, 110]
}

/// `form-data`
pub open spec fn form_data_name() -> Seq<u8> {
    seq![102u8, 111, 114, 109, 45, 100, 97, 116, 97]
}

/// `name`
pub open spec fn name_key() -> Seq<u8> {
    seq![110u8, 97, 109, 101]
}

/// `filename`
pub open spec fn filename_key() -> Seq<u8> {
    seq![102u8, 105, 108, 101, 110, 97, 109, 101]
}

/// `multipart/form-data`
pub open spec fn multipart_type() -> Seq<u8> {
    seq![109u8, 117, 108, 116, 105, 112, 97, 114, 116, 47, 102, 111, 114, 109, 45, 100, 97, 116, 97]
}

/// `boundary`
pub open spec fn boundary_key() -> Seq<u8> {
    seq![98u8, 111, 117, 110, 100, 97, 114, 121]
}

#[via_fn]
proof fn section_from_decreases(b: Seq<u8>, p: int, q: int, disp: Option<Seq<u8>>) {
    if 0 <= p <= q {
        lemma_scan_for_bounds(b, LF, p, q);
    }
}

/// Reads the header lines of a part from `p` up to `q`: the value of its
/// first `Content-Disposition` header, and where its content starts. Lines
/// follow the rules of the request head, without folding or bounds.
pub open spec fn section_from(b: Seq<u8>, p: int, q: int, disp: Option<Seq<u8>>) -> Option<(Option<Seq<u8>>, int)>
    decreases q - p,
    via section_from_decreases
{
    if p < 0 || p > q || q > b.len() {
        None
    } else {
        let e = scan_for(b, LF, p, q);
        if e >= q {
            None
        } else {
            let ce = content_end(b, p, e);
            if ce == p {
                Some((disp, e + 1))
            } else {
                let c = scan_for(b, COLON, p, ce);
                if c >= ce || c == p || !all_token(b, p, c) {
                    None
                } else {
                    let vs = skip_ows(b, c + 1, ce);
                    let d = if disp is None && eq_ignore_case(b.subrange(p, c), disposition_name()) {
                        Some(b.subrange(vs, rskip_ows(b, vs, ce)))
                    } else {
                        disp
                    };
                    section_from(b, e + 1, q, d)
                }
            }
        }
    }
}

/// The part whose raw section is `b[s..q)`, when its headers hold a
/// `Content-Disposition: form-data` with a `name`.
pub open spec fn part_spec(b: Seq<u8>, s: int, q: int) -> Option<PartModel> {
    match section_from(b, s, q, None) {
        Some((Some(d), c)) => if eq_ignore_case(media_type(d), form_data_name()) && param(d, name_key()) is Some {
            Some(PartModel {
                name: param(d, name_key())->Some_0,
                file: match param(d, filename_key()) {
                    Some(f) => f,
                    None => seq![],
                },
                start: c,
                end: q,
            })
        } else {
            None
        },
        _ => None,
    }
}

/// `\r\n`
pub open spec fn crlf() -> Seq<u8> {
    seq![CR, LF]
}

/// `--`
pub open spec fn dashes() -> Seq<u8> {
    seq![45u8, 45]
}

#[via_fn]
proof fn parts_from_decreases(b: Seq<u8>, delim: Seq<u8>, p: int) {
    if 0 <= p <= b.len() {
        lemma_find_from(b, crlf() + delim, p + 2);
    }
}

/// The parts that follow a delimiter ending at `p`: `--` closes the body;
/// otherwise a line break opens a section that runs to the next
/// `\r\n` + delimiter.
pub open spec fn parts_from(b: Seq<u8>, delim: Seq<u8>, p: int) -> Option<Seq<PartModel>>
    decreases b.len() - p,
    via parts_from_decreases
{
    if p < 0 || p > b.len() {
        None
    } else if matches_at(b, dashes(), p) {
        Some(seq![])
    } else if !matches_at(b, crlf(), p) {
        None
    } else {
        let q = find_from(b, crlf() + delim, p + 2);
        if q >= b.len() {
            None
        } else {
            match part_spec(b, p + 2, q) {
                None => None,
                Some(m) => match parts_from(b, delim, q + 2 + delim.len()) {
                    None => None,
                    Some(rest) => Some(seq![m] + rest),
                },
            }
        }
    }
}

/// The parts of a multipart body whose boundary is `boundary`; `None` when
/// the body does not have that structure.
pub open spec fn multipart_spec(b: Seq<u8>, boundary: Seq<u8>) -> Option<Seq<PartModel>> {
    let delim = dashes() + boundary;
    let k = find_from(b, delim, 0);
    if k >= b.len() {
        None
    } else {
        parts_from(b, delim, k + delim.len())
    }
}

fn matches_here(b: &[u8], pat: &[u8], k: usize) -> (r: bool)
    requires
        k + pat@.len() <= b@.len(),
    ensures
        r == matches_at(b@, pat@, k as int),
{
    let blen = b.len();
    let mut i: usize = 0;
    while i < pat.len()
        invariant
            k + pat@.len() <= b@.len(),
            blen == b@.len(),
            i <= pat@.len(),
            forall|j: int| 0 <= j < i ==> b@[k + j] == pat@[j],
        decreases pat@.len() - i,
    {
        if b[k + i] != pat[i] {
            assert(b@.subrange(k as int, k + pat@.len())[i as int] != pat@[i as int]);
            return false;
        }
        i = i + 1;
    }
    assert(b@.subrange(k as int, k + pat@.len()) =~= pat@);
    true
}

/// First index from `i` on where `pat` occurs in `b`, or `b.len()`.
pub fn find_seq(b: &[u8], pat: &[u8], i: usize) -> (r: usize)
    ensures
        r == find_from(b@, pat@, i as int),
{
    let len = b.len();
    let mut k = i;
    while k <= len && pat.len() <= len - k
        invariant
            len == b@.len(),
            i <= k,
            find_from(b@, pat@, k as int) == find_from(b@, pat@, i as int),
        decreases len + 1 - k,
    {
        if matches_here(b, pat, k) {
            return k;
        }
        if k == len {
            assert(b@.subrange(k as int, k + pat@.len()) =~= pat@);
            return len;
        }
        k = k + 1;
    }
    len
}

/// `d` marks in `b` the bytes that `sd` holds.
pub open spec fn range_holds(b: Seq<u8>, d: Option<(usize, usize)>, sd: Option<Seq<u8>>) -> bool {
    match (d, sd) {
        (Some((lo, hi)), Some(x)) => lo <= hi <= b.len() && b.subrange(lo as int, hi as int) == x,
        (None, None) => true,
        _ => false,
    }
}

fn disposition_key() -> (r: Vec<u8>)
    ensures
        r@ == disposition_name(),
{
    let r = vec![99u8, 111, 110, 116, 101, 110, 116, 45, 100, 105, 115, 112, 111, 115, 105, 116, 105, 111, 110];
    assert(r@ =~= disposition_name());
    r
}

fn section(b: &[u8], s: usize, q: usize) -> (r: Option<(Option<(usize, usize)>, usize)>)
    requires
        s <= q <= b@.len(),
    ensures
        match (r, section_from(b@, s as int, q as int, None)) {
            (Some((d, c)), Some((sd, sc))) => c == sc && c <= q && range_holds(b@, d, sd),
            (None, None) => true,
            _ => false,
        },
{
    let key = disposition_key();
    let mut p = s;
    let mut d: Option<(usize, usize)> = None;
    let ghost sd: Option<Seq<u8>> = None;
    loop
        invariant
            s <= p <= q <= b@.len(),
            key@ == disposition_name(),
            range_holds(b@, d, sd),
            section_from(b@, p as int, q as int, sd) == section_from(b@, s as int, q as int, None),
        decreases q - p,
    {
        let e = find_byte(b, LF, p, q);
        if e >= q {
            return None;
        }
        let ce = if e > p && b[e - 1] == CR {
            e - 1
        } else {
            e
        };
        if ce == p {
            return Some((d, e + 1));
        }
        let c = find_byte(b, COLON, p, ce);
        if c >= ce || c == p || !all_token_bytes(b, p, c) {
            return None;
        }
        let vs = skip_ows_from(b, c + 1, ce);
        let ve = rskip_ows_to(b, vs, ce);
        if d.is_none() && bytes_eq_ignore_case(slice_subrange(b, p, c), key.as_slice()) {
            d = Some((vs, ve));
            proof {
                sd = Some(b@.subrange(vs as int, ve as int));
            }
        }
        p = e + 1;
    }
}

/// A span `[start, end)` of a request body.
#[derive(Clone, Copy, Debug, PartialEq, Eq, Structural)]
pub struct Span {
    pub start: usize,
    pub end: usize,
}

/// One part of a multipart body: the field it fills, its file name (empty
/// when it is no file), and where its content lies in the request body.
#[derive(Debug)]
pub struct Part {
    pub field_name: String,
    pub file_name: String,
    pub span: Span,
}

/// The exec part `p` is the part `m`, its names read as text.
pub open spec fn part_matches(p: Part, m: PartModel) -> bool {
    &&& p.field_name@ == utf8_lossy(m.name)
    &&& p.file_name@ == utf8_lossy(m.file)
    &&& p.span.start == m.start
    &&& p.span.end == m.end
}

fn key_bytes(which: u8) -> (r: Vec<u8>)
    ensures
        which == 0 ==> r@ == form_data_name(),
        which == 1 ==> r@ == name_key(),
        which == 2 ==> r@ == filename_key(),
        which == 3 ==> r@ == multipart_type(),
        which == 4 ==> r@ == boundary_key(),
{
    if which == 0 {
        let r = vec![102u8, 111, 114, 109, 45, 100, 97, 116, 97];
        assert(r@ =~= form_data_name());
        r
    } else if which == 1 {
        let r = vec![110u8, 97, 109, 101];
        assert(r@ =~= name_key());
        r
    } else if which == 2 {
        let r = vec![102u8, 105, 108, 101, 110, 97, 109, 101];
        assert(r@ =~= filename_key());
        r
    } else if which == 3 {
        let r = vec![109u8, 117, 108, 116, 105, 112, 97, 114, 116, 47, 102, 111, 114, 109, 45, 100, 97, 116, 97];
        assert(r@ =~= multipart_type());
        r
    } else {
        let r = vec![98u8, 111, 117, 110, 100, 97, 114, 121];
        assert(r@ =~= boundary_key());
        r
    }
}

fn part_at(b: &[u8], s: usize, q: usize) -> (r: Option<Part>)
    requires
        s <= q <= b@.len(),
    ensures
        match (r, part_spec(b@, s as int, q as int)) {
            (Some(p), Some(m)) => part_matches(p, m),
            (None, None) => true,
            _ => false,
        },
{
    let (d, c) = match section(b, s, q) {
        Some(x) => x,
        None => {
            return None;
        },
    };
    let (lo, hi) = match d {
        Some(x) => x,
        None => {
            return None;
        },
    };
    let dv = slice_subrange(b, lo, hi);
    let end = media_type_end(dv);
    if !bytes_eq_ignore_case(slice_subrange(dv, 0, end), key_bytes(0).as_slice()) {
        return None;
    }
    let name = match find_param(dv, key_bytes(1).as_slice()) {
        Some(n) => n,
        None => {
            return None;
        },
    };
    let file = match find_param(dv, key_bytes(2).as_slice()) {
        Some(f) => f,
        None => {
            let e: Vec<u8> = Vec::new();
            assert(e@ =~= seq![]);
            e
        },
    };
    Some(Part {
        field_name: text_of(name.as_slice()),
        file_name: text_of(file.as_slice()),
        span: Span { start: c, end: q },
    })
}

/// `d` prefixed to what `o` holds, if it holds anything.
pub open spec fn prefixed(d: Seq<PartModel>, o: Option<Seq<PartModel>>) -> Option<Seq<PartModel>> {
    match o {
        Some(rest) => Some(d + rest),
        None => None,
    }
}

/// The exec parts `v` are the parts `ms`, in order.
pub open spec fn parts_match(v: Seq<Part>, ms: Seq<PartModel>) -> bool {
    v.len() == ms.len() && forall|i: int| 0 <= i < v.len() ==> part_matches(#[trigger] v[i], ms[i])
}

/// Splits a multipart body at `--boundary` delimiters into parts.
pub fn split_parts(b: &[u8], boundary: &[u8]) -> (r: Option<Vec<Part>>)
    ensures
        match (r, multipart_spec(b@, boundary@)) {
            (Some(v), Some(ms)) => parts_match(v@, ms),
            (None, None) => true,
            _ => false,
        },
{
    let len = b.len();
    let mut delim: Vec<u8> = vec![45u8, 45];
    crate::scan::append_range(&mut delim, boundary, 0, boundary.len());
    assert(boundary@.subrange(0, boundary@.len() as int) =~= boundary@);
    assert(delim@ =~= dashes() + boundary@);
    let k = find_seq(b, delim.as_slice(), 0);
    if k >= len {
        return None;
    }
    proof {
        lemma_find_from(b@, delim@, 0);
    }
    let mut cd: Vec<u8> = vec![CR, LF];
    crate::scan::append_range(&mut cd, delim.as_slice(), 0, delim.len());
    assert(delim@.subrange(0, delim@.len() as int) =~= delim@);
    assert(cd@ =~= crlf() + delim@);
    let mut p = k + delim.len();
    let mut parts: Vec<Part> = Vec::new();
    let ghost done: Seq<PartModel> = seq![];
    loop
        invariant
            len == b@.len(),
            p <= len,
            delim@ == dashes() + boundary@,
            cd@ == crlf() + delim@,
            parts_match(parts@, done),
            prefixed(done, parts_from(b@, delim@, p as int)) == multipart_spec(b@, boundary@),
        decreases len - p,
    {
        let dd: Vec<u8> = vec![45u8, 45];
        assert(dd@ =~= dashes());
        if len - p >= 2 && matches_here(b, dd.as_slice(), p) {
            assert(done + seq![] =~= done);
            return Some(parts);
        }
        let nl: Vec<u8> = vec![CR, LF];
        assert(nl@ =~= crlf());
        if len - p < 2 || !matches_here(b, nl.as_slice(), p) {
            return None;
        }
        let q = find_seq(b, cd.as_slice(), p + 2);
        if q >= len {
            return None;
        }
        proof {
            lemma_find_from(b@, cd@, p + 2);
        }
        let part = match part_at(b, p + 2, q) {
            Some(x) => x,
            None => {
                return None;
            },
        };
        let ghost m = part_spec(b@, p + 2, q as int)->Some_0;
        let np = q + 2 + delim.len();
        proof {
            let rest = parts_from(b@, delim@, np as int);
            match rest {
                Some(r) => {
                    assert(done + (seq![m] + r) =~= done.push(m) + r);
                },
                None => {},
            }
            done = done.push(m);
        }
        parts.push(part);
        p = np;
    }
}

/// `r` is what `parse_multipart` owes for `q`: the parts of its body at its
/// boundary, or `Decode` when there is no boundary or the body does not parse.
pub open spec fn multipart_agrees(q: &Request, r: Result<Vec<Part>, Error>) -> bool {
    match q.boundary_spec() {
        None => r == Err::<Vec<Part>, Error>(Error::Decode),
        Some(bd) => match multipart_spec(q.body@, bd) {
            Some(ms) => r matches Ok(v) && parts_match(v@, ms),
            None => r == Err::<Vec<Part>, Error>(Error::Decode),
        },
    }
}

impl Request {
    /// The boundary of a `multipart/form-data` body: the `boundary`
    /// parameter of the first `Content-Type` header, when it is a non-empty token.
    pub open spec fn boundary_spec(&self) -> Option<Seq<u8>> {
        let i = self.header_at(content_type_name());
        if 0 <= i < self.header_values@.len() && eq_ignore_case(
            media_type(self.header_values@[i]@),
            multipart_type(),
        ) {
            match param(self.header_values@[i]@, boundary_key()) {
                Some(x) => if x.len() > 0 && all_token(x, 0, x.len() as int) {
                    Some(x)
                } else {
                    None
                },
                None => None,
            }
        } else {
            None
        }
    }

    fn boundary_bytes(&self) -> (r: Option<Vec<u8>>)
        requires
            self.wf(),
        ensures
            match (r, self.boundary_spec()) {
                (Some(x), Some(y)) => x@ == y,
                (None, None) => true,
                _ => false,
            },
    {
        proof {
            lemma_index_from_bounds(views(self.header_names@), content_type_name(), 0);
        }
        let i = find_header(&self.header_names, content_type_key().as_slice());
        if i >= self.header_values.len() {
            return None;
        }
        let v = self.header_values[i].as_slice();
        let end = media_type_end(v);
        if !bytes_eq_ignore_case(slice_subrange(v, 0, end), key_bytes(3).as_slice()) {
            return None;
        }
        match find_param(v, key_bytes(4).as_slice()) {
            Some(x) => {
                if x.len() > 0 && all_token_bytes(x.as_slice(), 0, x.len()) {
                    Some(x)
                } else {
                    None
                }
            },
            None => None,
        }
    }

    /// The boundary of a multipart body, as text.
    pub fn boundary(&self) -> (r: Option<String>)
        requires
            self.wf(),
        ensures
            match (r, self.boundary_spec()) {
                (Some(x), Some(y)) => x@ == utf8_lossy(y),
                (None, None) => true,
                _ => false,
            },
    {
        match self.boundary_bytes() {
            Some(x) => Some(text_of(x.as_slice())),
            None => None,
        }
    }

    /// The parts of a `multipart/form-data` body, in order; `Decode` when
    /// the request carries no boundary or the body is not made of parts.
    pub fn parse_multipart(&self) -> (r: Result<Vec<Part>, Error>)
        requires
            self.wf(),
        ensures
            multipart_agrees(self, r),
    {
        let bd = match self.boundary_bytes() {
            Some(x) => x,
            None => {
                return Err(Error::Decode);
            },
        };
        match split_parts(self.body.as_slice(), bd.as_slice()) {
            Some(v) => Ok(v),
            None => Err(Error::Decode),
        }
    }

    /// The content of a part: the bytes of the body that `span` covers.
    pub fn body_part(&self, span: &Span) -> (r: &[u8])
        requires
            span.start <= span.end <= self.body@.len(),
        ensures
            r@ == self.body@.subrange(span.start as int, span.end as int),
    {
        slice_subrange(self.body.as_slice(), span.start, span.end)
    }
}

} // verus!
