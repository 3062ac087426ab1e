//! Content types by file extension, and the decoding of URL-encoded text.
use vstd::prelude::*;
use vstd::utf8::{valid_utf8, decode_utf8};
use vstd::string::StringSliceAdditionalSpecFns;

verus! {

/// Start of the extension of `s`: one past its last `.`, or 0 when it has none.
pub open spec fn extension_start(s: Seq<u8>) -> int
    decreases s.len(),
{
    if s.len() == 0 {
        0
    } else if s.last() == 46 {
        s.len() as int
    } else {
        extension_start(s.drop_last())
    }
}

pub proof fn lemma_extension_start_bounds(s: Seq<u8>)
    ensures
        0 <= extension_start(s) <= s.len(),
    decreases s.len(),
{
    if s.len() > 0 && s.last() != 46 {
        lemma_extension_start_bounds(s.drop_last());
    }
}

/// The content type served for a file whose extension is `ext`.
pub open spec fn content_type_of(ext: Seq<u8>) -> &'static str {
    if ext == seq![103u8, 105, 102] {
        "image/gif"
    } else if ext == seq![106u8, 112, 103] || ext == seq![106u8, 112, 101, 103] {
        "image/jpeg"
    } else if ext == seq![112u8, 110, 103] {
        "image/png"
    } else if ext == seq![112u8, 100, 102] {
        "application/pdf"
    } else if ext == seq![99u8, 115, 115] {
        "text/css; charset=utf8"
    } else if ext == seq![104u8, 116, 109] || ext == seq![104u8, 116, 109, 108] {
        "text/html; charset=utf8"
    } else {
        "text/plain; charset=utf8"
    }
}

fn tail_equals(s: &[u8], lo: usize, lit: &Vec<u8>) -> (r: bool)
    requires
        lo <= s@.len(),
    ensures
        r == (s@.subrange(lo as int, s@.len() as int) == lit@),
{
    if s.len() - lo != lit.len() {
        return false;
    }
    let mut i: usize = 0;
    while i < lit.len()
        invariant
            lo <= s@.len(),
            lo + lit@.len() == s@.len(),
            s@.len() <= usize::MAX,
            i <= lit@.len(),
            forall|k: int| 0 <= k < i ==> s@[lo + k] == lit@[k],
        decreases lit@.len() - i,
    {
        if s[lo + i] != lit[i] {
            assert(s@.subrange(lo as int, s@.len() as int)[i as int] != lit@[i as int]);
            return false;
        }
        i = i + 1;
    }
    assert(s@.subrange(lo as int, s@.len() as int) =~= lit@);
    true
}

/// Content type for a file, chosen by the text after its last `.`.
pub fn content_type(path: &str) -> (r: &'static str)
    ensures
        r == content_type_of(
            path.spec_bytes().subrange(extension_start(path.spec_bytes()), path.spec_bytes().len() as int),
        ),
{
    let s = path.as_bytes();
    proof {
        lemma_extension_start_bounds(s@);
    }
    let mut j = s.len();
    assert(s@.subrange(0, j as int) =~= s@);
    while j > 0
        invariant
            j <= s@.len(),
            s@ == path.spec_bytes(),
            extension_start(s@.subrange(0, j as int)) == extension_start(s@),
            forall|k: int| j <= k < s@.len() ==> s@[k] != 46,
        decreases j,
    {
        if s[j - 1] == 46 {
            assert(s@.subrange(0, j as int).last() == 46);
            assert(extension_start(s@.subrange(0, j as int)) == j);
            return content_type_at(s, j);
        }
        assert(s@.subrange(0, j as int).drop_last() =~= s@.subrange(0, j - 1));
        j = j - 1;
    }
    assert(s@.subrange(0, 0) =~= Seq::<u8>::empty());
    content_type_at(s, 0)
}

fn content_type_at(s: &[u8], lo: usize) -> (r: &'static str)
    requires
        lo <= s@.len(),
    ensures
        r == content_type_of(s@.subrange(lo as int, s@.len() as int)),
{
    if tail_equals(s, lo, &vec![103u8, 105, 102]) {
        "image/gif"
    } else if tail_equals(s, lo, &vec![106u8, 112, 103]) || tail_equals(s, lo, &vec![106u8, 112, 101, 103]) {
        "image/jpeg"
    } else if tail_equals(s, lo, &vec![112u8, 110, 103]) {
        "image/png"
    } else if tail_equals(s, lo, &vec![112u8, 100, 102]) {
        "application/pdf"
    } else if tail_equals(s, lo, &vec![99u8, 115, 115]) {
        "text/css; charset=utf8"
    } else if tail_equals(s, lo, &vec![104u8, 116, 109]) || tail_equals(s, lo, &vec![104u8, 116, 109, 108]) {
        "text/html; charset=utf8"
    } else {
        "text/plain; charset=utf8"
    }
}

/// Value of a hexadecimal digit, or -1 for any other byte.
pub open spec fn hex_value(b: u8) -> int {
    if 48 <= b <= 57 {
        b - 48
    } else if 65 <= b <= 70 {
        b - 55
    } else if 97 <= b <= 102 {
        b - 87
    } else {
        -1
    }
}

/// Percent-decoding: each `%` followed by two hexadecimal digits stands for
/// the byte they spell; every other byte stands for itself.
pub open spec fn percent_decoded(s: Seq<u8>) -> Seq<u8>
    decreases s.len(),
{
    if s.len() == 0 {
        seq![]
    } else if s[0] == 37 && s.len() >= 3 && hex_value(s[1]) >= 0 && hex_value(s[2]) >= 0 {
        seq![(hex_value(s[1]) * 16 + hex_value(s[2])) as u8] + percent_decoded(s.subrange(3, s.len() as int))
    } else {
        seq![s[0]] + percent_decoded(s.subrange(1, s.len() as int))
    }
}

/// Relies on `percent_encoding::percent_decode`: the bytes it yields are the
/// percent-decoding of its input (a `%` not followed by two hex digits is kept).
#[verifier::external_body]
pub(crate) fn percent_decode_bytes(b: &[u8]) -> (r: Vec<u8>)
    ensures
        r@ == percent_decoded(b@),
{
    percent_encoding::percent_decode(b).collect()
}

/// The text that `String::from_utf8_lossy` makes of a byte string.
pub uninterp spec fn utf8_lossy(b: Seq<u8>) -> Seq<char>;

/// Relies on `String::from_utf8_lossy`: valid UTF-8 is decoded as it stands,
/// any other input has its invalid sequences replaced by U+FFFD.
#[verifier::external_body]
pub(crate) fn lossy_chars(b: &[u8]) -> (r: Vec<char>)
    ensures
        r@ == utf8_lossy(b@),
        valid_utf8(b@) ==> r@ == decode_utf8(b@),
{
    String::from_utf8_lossy(b).chars().collect()
}

/// Relies on `String`'s `FromIterator<char>`: the string holds the characters in order.
#[verifier::external_body]
pub(crate) fn string_of_chars(c: &Vec<char>) -> (r: String)
    ensures
        r@ == c@,
{
    c.iter().collect()
}

/// The text of a byte string, as `String::from_utf8_lossy` decodes it.
pub fn text_of(b: &[u8]) -> (r: String)
    ensures
        r@ == utf8_lossy(b@),
        valid_utf8(b@) ==> r@ == decode_utf8(b@),
{
    string_of_chars(&lossy_chars(b))
}

/// `+` bytes read as spaces.
pub open spec fn plus_to_space(s: Seq<u8>) -> Seq<u8> {
    s.map_values(|b: u8| if b == 43 { 32u8 } else { b })
}

/// The characters of `c` without carriage returns.
pub open spec fn strip_cr(c: Seq<char>) -> Seq<char>
    decreases c.len(),
{
    if c.len() == 0 {
        seq![]
    } else if c.last() == '\r' {
        strip_cr(c.drop_last())
    } else {
        strip_cr(c.drop_last()).push(c.last())
    }
}

/// The text that a URL-encoded key or value stands for: `+` is a space,
/// percent escapes are decoded, and carriage returns are dropped.
pub open spec fn form_text(raw: Seq<u8>) -> Seq<char> {
    strip_cr(utf8_lossy(percent_decoded(plus_to_space(raw))))
}

/// Decodes a URL-encoded key or value given as bytes.
pub fn decode_form_bytes(raw: &[u8]) -> (r: String)
    ensures
        r@ == form_text(raw@),
{
    let mut plain: Vec<u8> = Vec::new();
    let mut i: usize = 0;
    while i < raw.len()
        invariant
            i <= raw@.len(),
            plain@ == plus_to_space(raw@.subrange(0, i as int)),
        decreases raw@.len() - i,
    {
        let b = raw[i];
        plain.push(if b == 43 { 32u8 } else { b });
        i = i + 1;
        assert(plain@ =~= plus_to_space(raw@.subrange(0, i as int)));
    }
    assert(raw@.subrange(0, raw@.len() as int) =~= raw@);
    let decoded = percent_decode_bytes(plain.as_slice());
    let chars = lossy_chars(decoded.as_slice());
    let mut kept: Vec<char> = Vec::new();
    let mut k: usize = 0;
    while k < chars.len()
        invariant
            k <= chars@.len(),
            kept@ == strip_cr(chars@.subrange(0, k as int)),
        decreases chars@.len() - k,
    {
        let c = chars[k];
        assert(chars@.subrange(0, k + 1).drop_last() =~= chars@.subrange(0, k as int));
        if c != '\r' {
            kept.push(c);
        }
        k = k + 1;
    }
    assert(chars@.subrange(0, chars@.len() as int) =~= chars@);
    string_of_chars(&kept)
}

/// Decodes one URL-encoded form value: `+` reads as a space, percent escapes
/// are decoded, and carriage returns are dropped.
pub fn decode_form_value(post: &str) -> (r: String)
    ensures
        r@ == form_text(post.spec_bytes()),
{
    decode_form_bytes(post.as_bytes())
}

} // verus!
