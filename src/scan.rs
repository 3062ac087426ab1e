//! Byte-level primitives shared by the head parser and the decoders.
use vstd::prelude::*;
use vstd::slice::{slice_subrange, slice_to_vec};

verus! {

pub const LF: u8 = 10;

pub const CR: u8 = 13;

pub const SP: u8 = 32;

pub const HT: u8 = 9;

pub const COLON: u8 = 58;

/// Optional whitespace: a space or a horizontal tab.
pub open spec fn is_ows(b: u8) -> bool {
    b == SP || b == HT
}

/// The `tchar` set of the HTTP token grammar: letters, digits and
/// ``!#$%&'*+-.^_`|~``.
pub open spec fn is_token_byte(b: u8) -> bool {
    (48 <= b <= 57) || (65 <= b <= 90) || (97 <= b <= 122) || b == 33 || b == 35 || b == 36
        || b == 37 || b == 38 || b == 39 || b == 42 || b == 43 || b == 45 || b == 46 || b == 94
        || b == 95 || b == 96 || b == 124 || b == 126
}

/// Every byte of `s[lo..hi)` is a token byte.
pub open spec fn all_token(s: Seq<u8>, lo: int, hi: int) -> bool {
    forall|i: int| lo <= i < hi ==> is_token_byte(#[trigger] s[i])
}

/// First index in `[i, end)` holding `b`, or `end` when there is none.
pub open spec fn scan_for(s: Seq<u8>, b: u8, i: int, end: int) -> int
    decreases end - i,
{
    if i >= end {
        end
    } else if s[i] == b {
        i
    } else {
        scan_for(s, b, i + 1, end)
    }
}

/// First index in `[i, end)` that is not optional whitespace, or `end`.
pub open spec fn skip_ows(s: Seq<u8>, i: int, end: int) -> int
    decreases end - i,
{
    if i >= end {
        end
    } else if is_ows(s[i]) {
        skip_ows(s, i + 1, end)
    } else {
        i
    }
}

/// Smallest `j` in `[start, end]` such that `s[j..end)` is all optional whitespace.
pub open spec fn rskip_ows(s: Seq<u8>, start: int, end: int) -> int
    decreases end - start,
{
    if end <= start {
        start
    } else if is_ows(s[end - 1]) {
        rskip_ows(s, start, end - 1)
    } else {
        end
    }
}

/// ASCII lower-casing of one byte.
pub open spec fn lower(b: u8) -> u8 {
    if 65 <= b <= 90 {
        (b + 32) as u8
    } else {
        b
    }
}

/// Equality of two byte strings up to ASCII case.
pub open spec fn eq_ignore_case(a: Seq<u8>, b: Seq<u8>) -> bool {
    a.len() == b.len() && forall|i: int| 0 <= i < a.len() ==> lower(#[trigger] a[i]) == lower(b[i])
}

pub proof fn lemma_scan_for_bounds(s: Seq<u8>, b: u8, i: int, end: int)
    requires
        i <= end,
    ensures
        i <= scan_for(s, b, i, end) <= end,
        scan_for(s, b, i, end) < end ==> s[scan_for(s, b, i, end)] == b,
        forall|k: int| i <= k < scan_for(s, b, i, end) ==> s[k] != b,
    decreases end - i,
{
    if i < end && s[i] != b {
        lemma_scan_for_bounds(s, b, i + 1, end);
    }
}

pub proof fn lemma_skip_ows_bounds(s: Seq<u8>, i: int, end: int)
    requires
        i <= end,
    ensures
        i <= skip_ows(s, i, end) <= end,
    decreases end - i,
{
    if i < end && is_ows(s[i]) {
        lemma_skip_ows_bounds(s, i + 1, end);
    }
}

pub proof fn lemma_rskip_ows_bounds(s: Seq<u8>, start: int, end: int)
    requires
        start <= end,
    ensures
        start <= rskip_ows(s, start, end) <= end,
    decreases end - start,
{
    if end > start && is_ows(s[end - 1]) {
        lemma_rskip_ows_bounds(s, start, end - 1);
    }
}

pub fn is_ows_byte(b: u8) -> (r: bool)
    ensures
        r == is_ows(b),
{
    b == SP || b == HT
}

pub fn is_token(b: u8) -> (r: bool)
    ensures
        r == is_token_byte(b),
{
    (48 <= b && b <= 57) || (65 <= b && b <= 90) || (97 <= b && b <= 122) || b == 33 || b == 35
        || b == 36 || b == 37 || b == 38 || b == 39 || b == 42 || b == 43 || b == 45 || b == 46
        || b == 94 || b == 95 || b == 96 || b == 124 || b == 126
}

pub fn lower_byte(b: u8) -> (r: u8)
    ensures
        r == lower(b),
{
    if 65 <= b && b <= 90 {
        b + 32
    } else {
        b
    }
}

/// Index of the first `b` in `s[from..end)`, or `end`.
pub fn find_byte(s: &[u8], b: u8, from: usize, end: usize) -> (r: usize)
    requires
        from <= end <= s@.len(),
    ensures
        r == scan_for(s@, b, from as int, end as int),
        from <= r <= end,
{
    proof {
        lemma_scan_for_bounds(s@, b, from as int, end as int);
    }
    let mut i = from;
    while i < end
        invariant
            from <= i <= end <= s@.len(),
            scan_for(s@, b, i as int, end as int) == scan_for(s@, b, from as int, end as int),
        decreases end - i,
    {
        if s[i] == b {
            return i;
        }
        i = i + 1;
    }
    i
}

/// Index of the first byte of `s[from..end)` that is not optional whitespace, or `end`.
pub fn skip_ows_from(s: &[u8], from: usize, end: usize) -> (r: usize)
    requires
        from <= end <= s@.len(),
    ensures
        r == skip_ows(s@, from as int, end as int),
        from <= r <= end,
{
    proof {
        lemma_skip_ows_bounds(s@, from as int, end as int);
    }
    let mut i = from;
    while i < end
        invariant
            from <= i <= end <= s@.len(),
            skip_ows(s@, i as int, end as int) == skip_ows(s@, from as int, end as int),
        decreases end - i,
    {
        if !is_ows_byte(s[i]) {
            return i;
        }
        i = i + 1;
    }
    i
}

/// End of `s[start..end)` once trailing optional whitespace is dropped.
pub fn rskip_ows_to(s: &[u8], start: usize, end: usize) -> (r: usize)
    requires
        start <= end <= s@.len(),
    ensures
        r == rskip_ows(s@, start as int, end as int),
        start <= r <= end,
{
    proof {
        lemma_rskip_ows_bounds(s@, start as int, end as int);
    }
    let mut j = end;
    while j > start
        invariant
            start <= j <= end <= s@.len(),
            rskip_ows(s@, start as int, j as int) == rskip_ows(s@, start as int, end as int),
        decreases j - start,
    {
        if !is_ows_byte(s[j - 1]) {
            return j;
        }
        j = j - 1;
    }
    j
}

/// Whether every byte of `s[lo..hi)` is a token byte.
pub fn all_token_bytes(s: &[u8], lo: usize, hi: usize) -> (r: bool)
    requires
        lo <= hi <= s@.len(),
    ensures
        r == all_token(s@, lo as int, hi as int),
{
    let mut i = lo;
    while i < hi
        invariant
            lo <= i <= hi <= s@.len(),
            all_token(s@, lo as int, i as int),
        decreases hi - i,
    {
        if !is_token(s[i]) {
            return false;
        }
        i = i + 1;
    }
    true
}

/// Whether `a` and `b` are equal up to ASCII case.
pub fn bytes_eq_ignore_case(a: &[u8], b: &[u8]) -> (r: bool)
    ensures
        r == eq_ignore_case(a@, b@),
{
    if a.len() != b.len() {
        return false;
    }
    let mut i: usize = 0;
    while i < a.len()
        invariant
            a@.len() == b@.len(),
            i <= a@.len(),
            forall|k: int| 0 <= k < i ==> lower(#[trigger] a@[k]) == lower(b@[k]),
        decreases a@.len() - i,
    {
        if lower_byte(a[i]) != lower_byte(b[i]) {
            return false;
        }
        i = i + 1;
    }
    true
}

/// A copy of `s[lo..hi)`.
pub fn copy_range(s: &[u8], lo: usize, hi: usize) -> (r: Vec<u8>)
    requires
        lo <= hi <= s@.len(),
    ensures
        r@ == s@.subrange(lo as int, hi as int),
{
    slice_to_vec(slice_subrange(s, lo, hi))
}

/// Appends `s[lo..hi)` to `v`.
pub fn append_range(v: &mut Vec<u8>, s: &[u8], lo: usize, hi: usize)
    requires
        lo <= hi <= s@.len(),
    ensures
        final(v)@ == old(v)@ + s@.subrange(lo as int, hi as int),
{
    let ghost v0 = v@;
    let mut i = lo;
    while i < hi
        invariant
            lo <= i <= hi <= s@.len(),
            v@ == v0 + s@.subrange(lo as int, i as int),
        decreases hi - i,
    {
        v.push(s[i]);
        i = i + 1;
        assert(v@ =~= v0 + s@.subrange(lo as int, i as int));
    }
}

/// Every byte of `s[lo..hi)` is an upper-case ASCII letter.
pub open spec fn all_upper(s: Seq<u8>, lo: int, hi: int) -> bool {
    forall|i: int| lo <= i < hi ==> 65 <= #[trigger] s[i] <= 90
}

/// Whether every byte of `s[lo..hi)` is an upper-case ASCII letter.
pub fn all_upper_bytes(s: &[u8], lo: usize, hi: usize) -> (r: bool)
    requires
        lo <= hi <= s@.len(),
    ensures
        r == all_upper(s@, lo as int, hi as int),
{
    let mut i = lo;
    while i < hi
        invariant
            lo <= i <= hi <= s@.len(),
            all_upper(s@, lo as int, i as int),
        decreases hi - i,
    {
        if !(65 <= s[i] && s[i] <= 90) {
            return false;
        }
        i = i + 1;
    }
    true
}

} // verus!
