//! Properties that hold across calls: determinism, case-insensitive lookup,
//! line folding, the form-encoding round trip, and the layout of parts.
use crate::error::Error;
use crate::head::{HeadSpec, head_spec, headers_from, line_end, content_end, views, MAX_HEADER_VALUE_LEN, MAX_HEADER_BLOCK_LEN};
use crate::multipart::{
    Part, PartModel, multipart_agrees, multipart_spec, parts_from, part_spec,
    section_from, find_from, lemma_find_from, crlf, dashes, matches_at,
};
use crate::request::{
    Request, Status, parse_spec, parse_agrees, index_from, form_agrees, texts,
};
use crate::scan::{SP, all_token, eq_ignore_case, lower, is_ows, skip_ows, rskip_ows, scan_for, lemma_scan_for_bounds};
use crate::util::{percent_decoded, plus_to_space, strip_cr, hex_value, form_text, utf8_lossy};
use vstd::prelude::*;

verus! {

/// Two requests hold the same method, path, version, headers, body and form fields.
pub open spec fn same_request(a: Request, b: Request) -> bool {
    &&& a.method@ == b.method@
    &&& a.path@ == b.path@
    &&& a.version@ == b.version@
    &&& views(a.header_names@) == views(b.header_names@)
    &&& views(a.header_values@) == views(b.header_values@)
    &&& texts(a.header_texts@) == texts(b.header_texts@)
    &&& a.body@ == b.body@
    &&& texts(a.form_keys@) == texts(b.form_keys@)
    &&& texts(a.form_values@) == texts(b.form_values@)
}

/// Parsing is deterministic: two parses of the same bytes end the same way,
/// and when both complete, their requests agree field for field.
pub proof fn parse_is_deterministic(buf: Seq<u8>, r1: Result<Status, Error>, r2: Result<Status, Error>)
    requires
        parse_agrees(r1, parse_spec(buf)),
        parse_agrees(r2, parse_spec(buf)),
    ensures
        match (r1, r2) {
            (Ok(Status::Complete(a)), Ok(Status::Complete(b))) => same_request(a, b),
            (Ok(Status::Partial), Ok(Status::Partial)) => true,
            (Err(e1), Err(e2)) => e1 == e2,
            _ => false,
        },
{
    match (r1, r2) {
        (Ok(Status::Complete(a)), Ok(Status::Complete(b))) => {
            assert(texts(a.header_texts@) =~= texts(b.header_texts@));
            assert(texts(a.form_keys@) =~= texts(b.form_keys@));
            assert forall|i: int| 0 <= i < a.form_values@.len() implies texts(a.form_values@)[i]
                == texts(b.form_values@)[i] by {
                assert(a.form_keys@[i]@ == b.form_keys@[i]@);
            }
            assert(texts(a.form_values@) =~= texts(b.form_values@));
        },
        _ => {},
    }
}

proof fn lemma_index_from_case(names: Seq<Seq<u8>>, a: Seq<u8>, b: Seq<u8>, i: int)
    requires
        eq_ignore_case(a, b),
    ensures
        index_from(names, a, i) == index_from(names, b, i),
    decreases names.len() - i,
{
    if 0 <= i < names.len() {
        let n = names[i];
        assert(eq_ignore_case(n, a) == eq_ignore_case(n, b)) by {
            if eq_ignore_case(n, a) {
                assert forall|k: int| 0 <= k < n.len() implies lower(#[trigger] n[k]) == lower(b[k]) by {
                    assert(lower(n[k]) == lower(a[k]));
                    assert(lower(a[k]) == lower(b[k]));
                }
            }
            if eq_ignore_case(n, b) {
                assert forall|k: int| 0 <= k < n.len() implies lower(#[trigger] n[k]) == lower(a[k]) by {
                    assert(lower(n[k]) == lower(b[k]));
                    assert(lower(a[k]) == lower(b[k]));
                }
            }
        }
        lemma_index_from_case(names, a, b, i + 1);
    }
}

/// Header lookup ignores case: names that differ only in ASCII case
/// (`host`, `HOST`, `Host`) find the same header.
pub proof fn header_lookup_ignores_case(q: &Request, a: Seq<u8>, b: Seq<u8>)
    requires
        eq_ignore_case(a, b),
    ensures
        q.header_at(a) == q.header_at(b),
{
    lemma_index_from_case(views(q.header_names@), a, b, 0);
}

/// A continuation line (one that starts with whitespace) adds its trimmed
/// text to the value of the header before it, after a single space, and the
/// header block reads on from the next line.
pub proof fn folded_line_joins_with_space(
    s: Seq<u8>,
    p: int,
    names: Seq<Seq<u8>>,
    values: Seq<Seq<u8>>,
    total: int,
)
    requires
        0 <= p < s.len(),
        line_end(s, p) < s.len(),
        content_end(s, p, line_end(s, p)) > p,
        is_ows(s[p]),
        names.len() > 0,
        ({
            let ce = content_end(s, p, line_end(s, p));
            let vs = skip_ows(s, p, ce);
            let piece = s.subrange(vs, rskip_ows(s, vs, ce));
            values.last().len() + 1 + piece.len() <= MAX_HEADER_VALUE_LEN && total + 1 + piece.len()
                <= MAX_HEADER_BLOCK_LEN
        }),
    ensures
        ({
            let e = line_end(s, p);
            let ce = content_end(s, p, e);
            let vs = skip_ows(s, p, ce);
            let piece = s.subrange(vs, rskip_ows(s, vs, ce));
            headers_from(s, p, names, values, total) == headers_from(
                s,
                e + 1,
                names,
                values.update(values.len() - 1, values.last() + seq![SP] + piece),
                total + 1 + piece.len(),
            )
        }),
{
}

/// A hexadecimal digit for `n < 16`, upper case.
pub open spec fn hex_digit(n: int) -> u8 {
    if n < 10 {
        (48 + n) as u8
    } else {
        (55 + n) as u8
    }
}

/// Bytes that form encoding leaves as they are: letters, digits, `-._~`.
pub open spec fn unreserved(x: u8) -> bool {
    (48 <= x <= 57) || (65 <= x <= 90) || (97 <= x <= 122) || x == 45 || x == 46 || x == 95 || x == 126
}

/// Form encoding of one byte: a space is `+`, an unreserved byte stands
/// for itself, any other byte is `%` and two hex digits.
pub open spec fn encode_byte(x: u8) -> Seq<u8> {
    if x == 32 {
        seq![43u8]
    } else if unreserved(x) {
        seq![x]
    } else {
        seq![37u8, hex_digit(x as int / 16), hex_digit(x as int % 16)]
    }
}

/// Standard percent-encoding with `+` for a space.
pub open spec fn form_encoded(b: Seq<u8>) -> Seq<u8>
    decreases b.len(),
{
    if b.len() == 0 {
        seq![]
    } else {
        encode_byte(b[0]) + form_encoded(b.subrange(1, b.len() as int))
    }
}

/// Encoding bytes with percent escapes and `+` for spaces, then reading
/// them back as a form value does, gives the bytes back.
pub proof fn form_decoding_inverts_encoding(b: Seq<u8>)
    ensures
        percent_decoded(plus_to_space(form_encoded(b))) == b,
    decreases b.len(),
{
    if b.len() == 0 {
        assert(plus_to_space(form_encoded(b)) =~= seq![]);
    } else {
        let x = b[0];
        let rest = b.subrange(1, b.len() as int);
        form_decoding_inverts_encoding(rest);
        let c = encode_byte(x);
        let e = form_encoded(rest);
        assert(plus_to_space(c + e) =~= plus_to_space(c) + plus_to_space(e));
        let t = plus_to_space(c) + plus_to_space(e);
        if x == 32 {
            assert(plus_to_space(c) =~= seq![32u8]);
            assert(t.subrange(1, t.len() as int) =~= plus_to_space(e));
            assert(percent_decoded(t) == seq![x] + percent_decoded(plus_to_space(e)));
        } else if unreserved(x) {
            assert(plus_to_space(c) =~= seq![x]);
            assert(t.subrange(1, t.len() as int) =~= plus_to_space(e));
            assert(percent_decoded(t) == seq![x] + percent_decoded(plus_to_space(e)));
        } else {
            let hi = x as int / 16;
            let lo = x as int % 16;
            assert(hex_value(hex_digit(hi)) == hi);
            assert(hex_value(hex_digit(lo)) == lo);
            assert(plus_to_space(c) =~= c);
            assert(t.subrange(3, t.len() as int) =~= plus_to_space(e));
            assert((hi * 16 + lo) as u8 == x);
            assert(percent_decoded(t) == seq![x] + percent_decoded(plus_to_space(e)));
        }
        assert(seq![x] + rest =~= b);
    }
}

/// Decoding the form encoding of a byte string gives the text of those
/// bytes, less any carriage return.
pub proof fn form_text_of_encoded(b: Seq<u8>)
    ensures
        form_text(form_encoded(b)) == strip_cr(utf8_lossy(b)),
{
    form_decoding_inverts_encoding(b);
}

/// No carriage return survives decoding.
pub proof fn decoded_text_has_no_cr(c: Seq<char>)
    ensures
        forall|i: int| 0 <= i < strip_cr(c).len() ==> strip_cr(c)[i] != '\r',
    decreases c.len(),
{
    if c.len() > 0 {
        decoded_text_has_no_cr(c.drop_last());
        let r = strip_cr(c.drop_last());
        if c.last() != '\r' {
            assert forall|i: int| 0 <= i < r.push(c.last()).len() implies r.push(c.last())[i] != '\r' by {
                if i < r.len() {
                    assert(r.push(c.last())[i] == r[i]);
                }
            }
        }
    }
}

/// Text without carriage returns comes through decoding unchanged.
pub proof fn text_without_cr_is_kept(c: Seq<char>)
    requires
        forall|i: int| 0 <= i < c.len() ==> c[i] != '\r',
    ensures
        strip_cr(c) == c,
    decreases c.len(),
{
    if c.len() > 0 {
        text_without_cr_is_kept(c.drop_last());
        assert(c.drop_last().push(c.last()) =~= c);
    }
}

/// Two vectors of parts hold the same names, file names and spans.
pub open spec fn same_parts(a: Seq<Part>, b: Seq<Part>) -> bool {
    a.len() == b.len() && forall|i: int|
        0 <= i < a.len() ==> (#[trigger] a[i]).field_name@ == b[i].field_name@ && a[i].file_name@
            == b[i].file_name@ && a[i].span == b[i].span
}

/// Decoding the parts of one request twice gives the same result both times.
pub proof fn multipart_decoding_is_stable(q: &Request, r1: Result<Vec<Part>, Error>, r2: Result<Vec<Part>, Error>)
    requires
        multipart_agrees(q, r1),
        multipart_agrees(q, r2),
    ensures
        match (r1, r2) {
            (Ok(v1), Ok(v2)) => same_parts(v1@, v2@),
            (Err(e1), Err(e2)) => e1 == e2,
            _ => false,
        },
{
}

/// Looking up a form field of one request twice gives the same value both times.
pub proof fn form_lookup_is_stable(q: &Request, key: Seq<char>, r1: Option<&str>, r2: Option<&str>)
    requires
        form_agrees(q, key, r1),
        form_agrees(q, key, r2),
    ensures
        match (r1, r2) {
            (Some(a), Some(b)) => a@ == b@,
            (None, None) => true,
            _ => false,
        },
{
}

proof fn lemma_section_bounds(b: Seq<u8>, p: int, q: int, d: Option<Seq<u8>>)
    ensures
        section_from(b, p, q, d) matches Some((_, c)) ==> p < c <= q,
    decreases q - p,
{
    if 0 <= p <= q <= b.len() {
        lemma_scan_for_bounds(b, crate::scan::LF, p, q);
        let e = scan_for(b, crate::scan::LF, p, q);
        if e < q {
            let ce = content_end(b, p, e);
            let c = scan_for(b, crate::scan::COLON, p, ce);
            let vs = skip_ows(b, c + 1, ce);
            let nd = if d is None && eq_ignore_case(b.subrange(p, c), crate::multipart::disposition_name()) {
                Some(b.subrange(vs, rskip_ows(b, vs, ce)))
            } else {
                d
            };
            lemma_section_bounds(b, e + 1, q, nd);
        }
    }
}

/// Parts lie in `[lo, len]`, each span well formed, in order and apart.
pub open spec fn parts_laid_out(ms: Seq<PartModel>, lo: int, len: int) -> bool {
    &&& forall|i: int| 0 <= i < ms.len() ==> lo <= (#[trigger] ms[i]).start <= ms[i].end <= len
    &&& forall|i: int, j: int| 0 <= i < j < ms.len() ==> (#[trigger] ms[i]).end < (#[trigger] ms[j]).start
}

/// The bytes that the parts' contents take together.
pub open spec fn total_length(ms: Seq<PartModel>) -> int
    decreases ms.len(),
{
    if ms.len() == 0 {
        0
    } else {
        (ms[0].end - ms[0].start) + total_length(ms.subrange(1, ms.len() as int))
    }
}

proof fn lemma_parts_from_layout(b: Seq<u8>, delim: Seq<u8>, p: int)
    ensures
        parts_from(b, delim, p) matches Some(ms) ==> parts_laid_out(ms, p, b.len() as int),
    decreases b.len() - p,
{
    if 0 <= p <= b.len() && !matches_at(b, dashes(), p) && matches_at(b, crlf(), p) {
        let q = find_from(b, crlf() + delim, p + 2);
        lemma_find_from(b, crlf() + delim, p + 2);
        if q < b.len() {
            lemma_section_bounds(b, p + 2, q, None);
            let np = q + 2 + delim.len();
            lemma_parts_from_layout(b, delim, np);
            match (part_spec(b, p + 2, q), parts_from(b, delim, np)) {
                (Some(m), Some(rest)) => {
                    let ms = seq![m] + rest;
                    assert forall|i: int| 0 <= i < ms.len() implies p <= (#[trigger] ms[i]).start
                        <= ms[i].end <= b.len() by {
                        if i > 0 {
                            assert(ms[i] == rest[i - 1]);
                        }
                    }
                    assert forall|i: int, j: int| 0 <= i < j < ms.len() implies (#[trigger] ms[i]).end
                        < (#[trigger] ms[j]).start by {
                        assert(ms[j] == rest[j - 1]);
                        if i > 0 {
                            assert(ms[i] == rest[i - 1]);
                        }
                    }
                },
                _ => {},
            }
        }
    }
}

proof fn lemma_total_length(ms: Seq<PartModel>, lo: int, len: int)
    requires
        parts_laid_out(ms, lo, len),
    ensures
        ms.len() > 0 ==> total_length(ms) <= len - ms[0].start,
        total_length(ms) <= if len >= lo { len - lo } else { 0 },
        0 <= total_length(ms),
    decreases ms.len(),
{
    if ms.len() > 0 {
        let rest = ms.subrange(1, ms.len() as int);
        assert forall|i: int| 0 <= i < rest.len() implies ms[0].end <= (#[trigger] rest[i]).start
            <= rest[i].end <= len by {
            assert(rest[i] == ms[i + 1]);
            assert(ms[0].end < ms[i + 1].start);
        }
        assert forall|i: int, j: int| 0 <= i < j < rest.len() implies (#[trigger] rest[i]).end
            < (#[trigger] rest[j]).start by {
            assert(rest[i] == ms[i + 1]);
            assert(rest[j] == ms[j + 1]);
        }
        lemma_total_length(rest, ms[0].end, len);
    }
}

/// The parts of a multipart body lie inside it, in document order and apart
/// from one another, so that their contents, with the delimiters and part
/// headers between them, make up no more than the body.
pub proof fn parts_lie_in_order(b: Seq<u8>, boundary: Seq<u8>)
    ensures
        multipart_spec(b, boundary) matches Some(ms) ==> parts_laid_out(ms, 0, b.len() as int) && total_length(ms)
            <= b.len(),
{
    let delim = dashes() + boundary;
    let k = find_from(b, delim, 0);
    lemma_find_from(b, delim, 0);
    if k < b.len() {
        lemma_parts_from_layout(b, delim, k + delim.len());
        if let Some(ms) = parts_from(b, delim, k + delim.len()) {
            lemma_total_length(ms, k + delim.len(), b.len() as int);
        }
    }
}

/// Each part that `parse_multipart` returns has a span inside the body, so
/// `body_part` hands back exactly `end - start` bytes for it.
pub proof fn part_spans_fit_body(q: &Request, r: Result<Vec<Part>, Error>)
    requires
        multipart_agrees(q, r),
    ensures
        r matches Ok(v) ==> forall|i: int|
            0 <= i < v@.len() ==> (#[trigger] v@[i]).span.start <= v@[i].span.end <= q.body@.len(),
{
    if let Some(bd) = q.boundary_spec() {
        parts_lie_in_order(q.body@, bd);
        if let Some(ms) = multipart_spec(q.body@, bd) {
            if let Ok(v) = r {
                assert forall|i: int| 0 <= i < v@.len() implies (#[trigger] v@[i]).span.start
                    <= v@[i].span.end <= q.body@.len() by {
                    assert(crate::multipart::part_matches(v@[i], ms[i]));
                }
            }
        }
    }
}

/// Every name is a non-empty string of token bytes.
pub open spec fn token_names(names: Seq<Seq<u8>>) -> bool {
    forall|i: int| 0 <= i < names.len() ==> (#[trigger] names[i]).len() > 0 && all_token(names[i], 0, names[i].len() as int)
}

proof fn lemma_headers_from_names(s: Seq<u8>, p: int, names: Seq<Seq<u8>>, values: Seq<Seq<u8>>, total: int)
    requires
        token_names(names),
    ensures
        headers_from(s, p, names, values, total) matches HeadSpec::Done(h) ==> token_names(h.names),
    decreases s.len() - p,
{
    if 0 <= p <= s.len() {
        lemma_scan_for_bounds(s, crate::scan::LF, p, s.len() as int);
        let e = line_end(s, p);
        if e < s.len() {
            let ce = content_end(s, p, e);
            if ce != p {
                if is_ows(s[p]) {
                    if names.len() > 0 {
                        let vs = skip_ows(s, p, ce);
                        let piece = s.subrange(vs, rskip_ows(s, vs, ce));
                        let joined = values.last() + seq![SP] + piece;
                        lemma_headers_from_names(
                            s,
                            e + 1,
                            names,
                            values.update(values.len() - 1, joined),
                            total + 1 + piece.len(),
                        );
                    }
                } else {
                    let c = scan_for(s, crate::scan::COLON, p, ce);
                    lemma_scan_for_bounds(s, crate::scan::COLON, p, ce);
                    if c < ce && c != p && all_token(s, p, c) {
                        let n = s.subrange(p, c);
                        let vs = skip_ows(s, c + 1, ce);
                        let value = s.subrange(vs, rskip_ows(s, vs, ce));
                        assert forall|k: int| 0 <= k < n.len() implies crate::scan::is_token_byte(#[trigger] n[k]) by {
                            assert(n[k] == s[p + k]);
                        }
                        assert forall|i: int| 0 <= i < names.push(n).len() implies (#[trigger] names.push(n)[i]).len() > 0
                            && all_token(names.push(n)[i], 0, names.push(n)[i].len() as int) by {
                            if i < names.len() {
                                assert(names.push(n)[i] == names[i]);
                            }
                        }
                        lemma_headers_from_names(
                            s,
                            e + 1,
                            names.push(n),
                            values.push(value),
                            total + (c - p) + value.len(),
                        );
                    }
                }
            }
        }
    }
}

/// A parsed head never holds a header name that is empty or has a byte
/// outside the token grammar.
pub proof fn parsed_header_names_are_tokens(s: Seq<u8>)
    ensures
        head_spec(s) matches HeadSpec::Done(h) ==> token_names(h.names),
{
    lemma_headers_from_names(s, line_end(s, 0) + 1, seq![], seq![], 0);
}

} // verus!
