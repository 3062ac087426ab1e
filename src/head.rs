//! The request line and the header block.
use crate::error::Error;
use crate::scan::{
    CR, LF, SP, COLON, is_ows, scan_for, skip_ows, rskip_ows, all_token, all_upper,
    lemma_scan_for_bounds, find_byte,
    skip_ows_from, rskip_ows_to, all_token_bytes, all_upper_bytes, is_ows_byte, copy_range,
    append_range,
};
use vstd::prelude::*;

verus! {

/// Largest accepted value of a single header, in bytes (after folding).
pub const MAX_HEADER_VALUE_LEN: usize = 4096;

/// Largest accepted header block: the bytes of all names and values together.
pub const MAX_HEADER_BLOCK_LEN: usize = 8192;

/// What the head of a request holds, as byte strings.
pub ghost struct HeadModel {
    pub method: Seq<u8>,
    pub target: Seq<u8>,
    pub version: Seq<u8>,
    pub names: Seq<Seq<u8>>,
    pub values: Seq<Seq<u8>>,
    pub body_start: int,
}

/// The outcome of reading a head: complete, in need of more bytes, or failed.
pub ghost enum HeadSpec {
    Done(HeadModel),
    Incomplete,
    Fail(Error),
}

/// Index of the `LF` that ends the line starting at `p`, or `s.len()`.
pub open spec fn line_end(s: Seq<u8>, p: int) -> int {
    scan_for(s, LF, p, s.len() as int)
}

/// End of the line's content: the `LF` at `e`, or the `CR` right before it.
pub open spec fn content_end(s: Seq<u8>, p: int, e: int) -> int {
    if e > p && s[e - 1] == CR {
        e - 1
    } else {
        e
    }
}

#[via_fn]
proof fn headers_from_decreases(
    s: Seq<u8>,
    p: int,
    names: Seq<Seq<u8>>,
    values: Seq<Seq<u8>>,
    total: int,
) {
    if 0 <= p <= s.len() {
        lemma_scan_for_bounds(s, LF, p, s.len() as int);
    }
}

/// Reads header lines from `p` on, given the headers read so far and the
/// bytes they count against the block bound. The result's `Done` carries
/// empty request-line fields.
pub open spec fn headers_from(
    s: Seq<u8>,
    p: int,
    names: Seq<Seq<u8>>,
    values: Seq<Seq<u8>>,
    total: int,
) -> HeadSpec
    decreases s.len() - p,
    via headers_from_decreases
{
    if p < 0 || p > s.len() {
        HeadSpec::Incomplete
    } else {
        let e = line_end(s, p);
        if e >= s.len() {
            if s.len() - p + total > MAX_HEADER_BLOCK_LEN {
                HeadSpec::Fail(Error::ParseHeaderValue)
            } else {
                HeadSpec::Incomplete
            }
        } else {
            let ce = content_end(s, p, e);
            if ce == p {
                HeadSpec::Done(
                    HeadModel {
                        method: seq![],
                        target: seq![],
                        version: seq![],
                        names,
                        values,
                        body_start: e + 1,
                    },
                )
            } else if is_ows(s[p]) {
                if names.len() == 0 {
                    HeadSpec::Fail(Error::ParseHeaderName)
                } else {
                    let vs = skip_ows(s, p, ce);
                    let piece = s.subrange(vs, rskip_ows(s, vs, ce));
                    let joined = values.last() + seq![SP] + piece;
                    if joined.len() > MAX_HEADER_VALUE_LEN || total + 1 + piece.len()
                        > MAX_HEADER_BLOCK_LEN {
                        HeadSpec::Fail(Error::ParseHeaderValue)
                    } else {
                        headers_from(
                            s,
                            e + 1,
                            names,
                            values.update(values.len() - 1, joined),
                            total + 1 + piece.len(),
                        )
                    }
                }
            } else {
                let c = scan_for(s, COLON, p, ce);
                if c >= ce || c == p || !all_token(s, p, c) {
                    HeadSpec::Fail(Error::ParseHeaderName)
                } else {
                    let vs = skip_ows(s, c + 1, ce);
                    let value = s.subrange(vs, rskip_ows(s, vs, ce));
                    if value.len() > MAX_HEADER_VALUE_LEN || total + (c - p) + value.len()
                        > MAX_HEADER_BLOCK_LEN {
                        HeadSpec::Fail(Error::ParseHeaderValue)
                    } else {
                        headers_from(
                            s,
                            e + 1,
                            names.push(s.subrange(p, c)),
                            values.push(value),
                            total + (c - p) + value.len(),
                        )
                    }
                }
            }
        }
    }
}

/// The head of `s`: a request line `METHOD SP target SP version`, with an
/// upper-case method and exactly three non-empty parts, then the header block.
pub open spec fn head_spec(s: Seq<u8>) -> HeadSpec {
    let e = line_end(s, 0);
    if e >= s.len() {
        if s.len() > MAX_HEADER_BLOCK_LEN {
            HeadSpec::Fail(Error::ParseHeaderValue)
        } else {
            HeadSpec::Incomplete
        }
    } else {
        let ce = content_end(s, 0, e);
        let s1 = scan_for(s, SP, 0, ce);
        let s2 = scan_for(s, SP, s1 + 1, ce);
        if s1 >= ce || s2 >= ce || s1 == 0 || s2 == s1 + 1 || s2 + 1 == ce || scan_for(
            s,
            SP,
            s2 + 1,
            ce,
        ) < ce || !all_upper(s, 0, s1) {
            HeadSpec::Fail(Error::ParseHeaderName)
        } else {
            match headers_from(s, e + 1, seq![], seq![], 0) {
                HeadSpec::Done(h) => HeadSpec::Done(
                    HeadModel {
                        method: s.subrange(0, s1),
                        target: s.subrange(s1 + 1, s2),
                        version: s.subrange(s2 + 1, ce),
                        ..h
                    },
                ),
                other => other,
            }
        }
    }
}

/// The head of a request as read from its bytes.
pub struct Head {
    pub method: Vec<u8>,
    pub target: Vec<u8>,
    pub version: Vec<u8>,
    pub names: Vec<Vec<u8>>,
    pub values: Vec<Vec<u8>>,
    pub body_start: usize,
}

impl Head {
    pub open spec fn model(&self) -> HeadModel {
        HeadModel {
            method: self.method@,
            target: self.target@,
            version: self.version@,
            names: views(self.names@),
            values: views(self.values@),
            body_start: self.body_start as int,
        }
    }
}

/// The byte strings that a vector of byte vectors holds.
pub open spec fn views(v: Seq<Vec<u8>>) -> Seq<Seq<u8>> {
    v.map_values(|b: Vec<u8>| b@)
}

/// What a read of the head returned, seen as a `HeadSpec`.
pub open spec fn outcome_spec(r: Result<Option<Head>, Error>) -> HeadSpec {
    match r {
        Ok(Some(h)) => HeadSpec::Done(h.model()),
        Ok(None) => HeadSpec::Incomplete,
        Err(e) => HeadSpec::Fail(e),
    }
}

fn read_headers(s: &[u8], start: usize) -> (r: Result<Option<Head>, Error>)
    requires
        start <= s@.len(),
    ensures
        outcome_spec(r) == headers_from(s@, start as int, seq![], seq![], 0),
        r matches Ok(Some(h)) ==> h.names@.len() == h.values@.len() && h.body_start <= s@.len(),
{
    let len = s.len();
    let mut p = start;
    let mut names: Vec<Vec<u8>> = Vec::new();
    let mut values: Vec<Vec<u8>> = Vec::new();
    let mut total: usize = 0;
    assert(views(names@) =~= Seq::<Seq<u8>>::empty());
    assert(views(values@) =~= Seq::<Seq<u8>>::empty());
    loop
        invariant
            p <= len == s@.len(),
            total <= MAX_HEADER_BLOCK_LEN,
            names@.len() == values@.len(),
            forall|i: int| 0 <= i < values@.len() ==> #[trigger] values@[i]@.len() <= MAX_HEADER_VALUE_LEN,
            headers_from(s@, p as int, views(names@), views(values@), total as int)
                == headers_from(s@, start as int, seq![], seq![], 0),
        decreases len - p,
    {
        let ghost dn = views(names@);
        let ghost dv = views(values@);
        let e = find_byte(s, LF, p, len);
        if e >= len {
            if len - p > MAX_HEADER_BLOCK_LEN - total {
                return Err(Error::ParseHeaderValue);
            }
            return Ok(None);
        }
        let ce = if e > p && s[e - 1] == CR {
            e - 1
        } else {
            e
        };
        if ce == p {
            let h = Head {
                method: Vec::new(),
                target: Vec::new(),
                version: Vec::new(),
                names,
                values,
                body_start: e + 1,
            };
            assert(h.model().method =~= seq![]);
            assert(h.model().target =~= seq![]);
            assert(h.model().version =~= seq![]);
            return Ok(Some(h));
        }
        if is_ows_byte(s[p]) {
            if names.len() == 0 {
                return Err(Error::ParseHeaderName);
            }
            let vs = skip_ows_from(s, p, ce);
            let ve = rskip_ows_to(s, vs, ce);
            let piece_len = ve - vs;
            let mut last = match values.pop() {
                Some(v) => v,
                None => {
                    return Err(Error::ParseHeaderName);
                },
            };
            assert(last@ == dv.last());
            assert(views(values@) =~= dv.drop_last());
            if last.len() >= MAX_HEADER_VALUE_LEN || piece_len > MAX_HEADER_VALUE_LEN - 1
                - last.len() || piece_len + 1 > MAX_HEADER_BLOCK_LEN - total {
                return Err(Error::ParseHeaderValue);
            }
            last.push(SP);
            append_range(&mut last, s, vs, ve);
            let ghost joined = last@;
            assert(joined =~= dv.last() + seq![SP] + s@.subrange(vs as int, ve as int));
            values.push(last);
            assert(views(values@) =~= dv.drop_last().push(joined));
            total = total + 1 + piece_len;
            assert(views(values@) =~= dv.update(
                dv.len() - 1,
                dv.last() + seq![SP] + s@.subrange(vs as int, ve as int),
            ));
            p = e + 1;
        } else {
            let c = find_byte(s, COLON, p, ce);
            if c >= ce || c == p || !all_token_bytes(s, p, c) {
                return Err(Error::ParseHeaderName);
            }
            let vs = skip_ows_from(s, c + 1, ce);
            let ve = rskip_ows_to(s, vs, ce);
            if ve - vs > MAX_HEADER_VALUE_LEN || (c - p) + (ve - vs) > MAX_HEADER_BLOCK_LEN
                - total {
                return Err(Error::ParseHeaderValue);
            }
            let name = copy_range(s, p, c);
            let value = copy_range(s, vs, ve);
            names.push(name);
            values.push(value);
            total = total + (c - p) + (ve - vs);
            assert(views(names@) =~= dn.push(s@.subrange(p as int, c as int)));
            assert(views(values@) =~= dv.push(s@.subrange(vs as int, ve as int)));
            p = e + 1;
        }
    }
}

/// Reads the head of a request from `s`: `Ok(Some(_))` once the blank line
/// that ends the header block is in `s`, `Ok(None)` while more bytes are
/// needed, or the error that the bytes read so far already decide.
pub fn parse_head(s: &[u8]) -> (r: Result<Option<Head>, Error>)
    ensures
        outcome_spec(r) == head_spec(s@),
        r matches Ok(Some(h)) ==> h.names@.len() == h.values@.len() && h.body_start <= s@.len(),
{
    let len = s.len();
    let e = find_byte(s, LF, 0, len);
    if e >= len {
        if len > MAX_HEADER_BLOCK_LEN {
            return Err(Error::ParseHeaderValue);
        }
        return Ok(None);
    }
    let ce = if e > 0 && s[e - 1] == CR {
        e - 1
    } else {
        e
    };
    let s1 = find_byte(s, SP, 0, ce);
    if s1 >= ce {
        return Err(Error::ParseHeaderName);
    }
    let s2 = find_byte(s, SP, s1 + 1, ce);
    if s2 >= ce || s1 == 0 || s2 == s1 + 1 || s2 + 1 == ce {
        return Err(Error::ParseHeaderName);
    }
    let s3 = find_byte(s, SP, s2 + 1, ce);
    if s3 < ce || !all_upper_bytes(s, 0, s1) {
        return Err(Error::ParseHeaderName);
    }
    match read_headers(s, e + 1) {
        Ok(Some(h)) => {
            let head = Head {
                method: copy_range(s, 0, s1),
                target: copy_range(s, s1 + 1, s2),
                version: copy_range(s, s2 + 1, ce),
                names: h.names,
                values: h.values,
                body_start: h.body_start,
            };
            Ok(Some(head))
        },
        Ok(None) => Ok(None),
        Err(err) => Err(err),
    }
}

} // verus!
