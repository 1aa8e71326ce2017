use vstd::prelude::*;
use vstd::string::StringSliceAdditionalSpecFns;
use vstd::utf8::*;

verus! {

/// In valid UTF-8, the position of an ASCII byte, and the position just after
/// it, are character boundaries; so is the end of the bytes.
pub proof fn lemma_ascii_char_boundary(bytes: Seq<u8>, i: int)
    requires
        valid_utf8(bytes),
        0 <= i <= bytes.len(),
    ensures
        i == 0 ==> is_char_boundary(bytes, i),
        i == bytes.len() ==> is_char_boundary(bytes, i),
        i < bytes.len() && bytes[i] < 0x80 ==> is_char_boundary(bytes, i) && is_char_boundary(
            bytes,
            i + 1,
        ),
    decreases bytes.len(),
{
    if bytes.len() == 0 {
    } else {
        let k = length_of_first_scalar(bytes);
        let rest = pop_first_scalar(bytes);
        assert(valid_first_scalar(bytes));
        assert(valid_utf8(rest));
        assert(1 <= k <= 4);
        assert(k <= bytes.len());
        assert(rest.len() == bytes.len() - k);
        assert forall|j: int| 1 <= j < k implies is_continuation_byte(#[trigger] bytes[j]) by {}
        if i == 0 {
            if bytes[0] < 0x80 {
                assert(k == 1);
                assert(is_char_boundary(rest, 0));
            }
        } else {
            if i == bytes.len() || bytes[i] < 0x80 {
                assert(i >= k);
                lemma_ascii_char_boundary(rest, i - k);
                if i < bytes.len() {
                    assert(rest[i - k] == bytes[i]);
                }
            }
        }
    }
}

/// The bytes `start..end` of `s`, as a string slice of it.
pub fn substr<'a>(s: &'a str, start: usize, end: usize) -> (r: &'a str)
    requires
        start <= end <= s.spec_bytes().len(),
        start == 0 || start == s.spec_bytes().len() || s.spec_bytes()[start as int] < 0x80 || (start > 0
            && s.spec_bytes()[start - 1] < 0x80),
        end == s.spec_bytes().len() || s.spec_bytes()[end as int] < 0x80 || (end > start
            && s.spec_bytes()[end - 1] < 0x80),
    ensures
        r.spec_bytes() == s.spec_bytes().subrange(start as int, end as int),
{
    let ghost bytes = s.spec_bytes();
    proof {
        encode_utf8_valid_utf8(s@);
        if start == 0 || start == bytes.len() {
            lemma_ascii_char_boundary(bytes, start as int);
        } else if bytes[start as int] < 0x80 {
            lemma_ascii_char_boundary(bytes, start as int);
        } else {
            lemma_ascii_char_boundary(bytes, start - 1);
        }
    }
    let (_, rest) = s.split_at(start);
    let ghost rb = rest.spec_bytes();
    proof {
        assert(rb == bytes.subrange(start as int, bytes.len() as int));
        encode_utf8_valid_utf8(rest@);
        let e = end - start;
        if end == bytes.len() {
            lemma_ascii_char_boundary(rb, e);
        } else if bytes[end as int] < 0x80 {
            assert(rb[e] == bytes[end as int]);
            lemma_ascii_char_boundary(rb, e);
        } else {
            assert(rb[e - 1] == bytes[end - 1]);
            lemma_ascii_char_boundary(rb, e - 1);
        }
    }
    let (w, _) = rest.split_at(end - start);
    assert(w.spec_bytes() =~= bytes.subrange(start as int, end as int));
    w
}

/// Calls `std::str::from_utf8`. Trusted: it is taken to give a string slice
/// exactly when the bytes are valid UTF-8, and then one whose UTF-8 bytes are
/// the given bytes.
#[verifier::external_body]
pub(crate) fn from_utf8(v: &[u8]) -> (r: Option<&str>)
    ensures
        r is Some <==> valid_utf8(v@),
        r matches Some(s) ==> s.spec_bytes() == v@,
{
    std::str::from_utf8(v).ok()
}

/// The UTF-8 encoding of two strings one after the other is the encoding of
/// the first followed by that of the second.
pub proof fn lemma_encode_utf8_add(a: Seq<char>, b: Seq<char>)
    ensures
        encode_utf8(a + b) == encode_utf8(a) + encode_utf8(b),
    decreases a.len(),
{
    if a.len() == 0 {
        assert(a + b =~= b);
        assert(encode_utf8(a) =~= Seq::<u8>::empty());
        assert(encode_utf8(a) + encode_utf8(b) =~= encode_utf8(b));
    } else {
        lemma_encode_utf8_add(a.drop_first(), b);
        assert((a + b).drop_first() =~= a.drop_first() + b);
        assert((a + b)[0] == a[0]);
        assert(encode_utf8(a + b) =~= encode_scalar(a[0] as u32) + encode_utf8(a.drop_first() + b));
    }
}

/// A single ASCII byte is valid UTF-8.
pub proof fn lemma_ascii_byte_valid(b: u8)
    requires
        b < 0x80,
    ensures
        valid_utf8(seq![b]),
{
    reveal_with_fuel(valid_utf8, 2);
    let s = seq![b];
    assert(valid_first_scalar(s)) by {
        assert(is_leading_byte_width_1(s[0]));
        assert(codepoint_width_1(s[0]) == (b as u32)) by {
            assert((b & 0x7f) == b) by (bit_vector)
                requires
                    b < 0x80,
            ;
        }
    }
    assert(pop_first_scalar(s) =~= Seq::<u8>::empty());
}

/// The characters `char::is_whitespace` accepts: those with the Unicode
/// `White_Space` property.
pub open spec fn is_whitespace_char(c: char) -> bool {
    ('\u{9}' <= c <= '\u{d}') || c == ' ' || c == '\u{85}' || c == '\u{a0}' || c == '\u{1680}'
        || ('\u{2000}' <= c <= '\u{200a}') || c == '\u{2028}' || c == '\u{2029}' || c
        == '\u{202f}' || c == '\u{205f}' || c == '\u{3000}'
}

pub fn char_is_whitespace(c: char) -> (r: bool)
    ensures
        r == is_whitespace_char(c),
{
    ('\u{9}' <= c && c <= '\u{d}') || c == ' ' || c == '\u{85}' || c == '\u{a0}' || c
        == '\u{1680}' || ('\u{2000}' <= c && c <= '\u{200a}') || c == '\u{2028}' || c
        == '\u{2029}' || c == '\u{202f}' || c == '\u{205f}' || c == '\u{3000}'
}

/// `s` without its leading whitespace.
pub open spec fn trim_start_chars(s: Seq<char>) -> Seq<char>
    decreases s.len(),
{
    if s.len() > 0 && is_whitespace_char(s[0]) {
        trim_start_chars(s.drop_first())
    } else {
        s
    }
}

/// `s` without its trailing whitespace.
pub open spec fn trim_end_chars(s: Seq<char>) -> Seq<char>
    decreases s.len(),
{
    if s.len() > 0 && is_whitespace_char(s.last()) {
        trim_end_chars(s.drop_last())
    } else {
        s
    }
}

/// `s` without its leading and trailing whitespace.
pub open spec fn trim_chars(s: Seq<char>) -> Seq<char> {
    trim_end_chars(trim_start_chars(s))
}

/// `s` without its leading and trailing whitespace, as a slice of it.
pub fn trim(s: &str) -> (r: &str)
    ensures
        r@ == trim_chars(s@),
{
    let n = s.unicode_len();
    let mut i: usize = 0;
    assert(s@.subrange(0, n as int) =~= s@);
    while i < n && char_is_whitespace(s.get_char(i))
        invariant
            n == s@.len(),
            i <= n,
            trim_start_chars(s@) == trim_start_chars(s@.subrange(i as int, n as int)),
        decreases n - i,
    {
        assert(s@.subrange(i as int, n as int).drop_first() =~= s@.subrange(i + 1, n as int));
        i += 1;
    }
    let ghost t = s@.subrange(i as int, n as int);
    assert(trim_start_chars(t) == t);
    let mut j: usize = n;
    assert(s@.subrange(i as int, n as int) =~= t);
    while j > i && char_is_whitespace(s.get_char(j - 1))
        invariant
            n == s@.len(),
            i <= j <= n,
            t == s@.subrange(i as int, n as int),
            trim_end_chars(t) == trim_end_chars(s@.subrange(i as int, j as int)),
        decreases j - i,
    {
        assert(s@.subrange(i as int, j as int).drop_last() =~= s@.subrange(i as int, j - 1));
        j -= 1;
    }
    s.substring_char(i, j)
}

} // verus!
