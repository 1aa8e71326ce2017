use vstd::prelude::*;
use vstd::string::StringSliceAdditionalSpecFns;
use vstd::utf8::*;

use crate::parse::source::{ascii_scan, lemma_ascii_scan, read_ascii_until, Source};
use crate::parse::{Parse, SyntaxError};
use crate::span::Span;

verus! {

/// The characters an identifier cannot hold.
pub open spec fn invalid_char(c: char) -> bool {
    c == '(' || c == ')' || c == '{' || c == '}' || c == ';' || c == ':' || c == ','
}

/// Text that holds none of the characters an identifier cannot hold.
pub open spec fn valid_identifier(s: Seq<char>) -> bool {
    forall|i: int| 0 <= i < s.len() ==> !invalid_char(#[trigger] s[i])
}

/// The bytes at which an identifier being read ends: `(`, `{` and space.
pub open spec fn identifier_stops() -> Seq<u8> {
    seq![0x28u8, 0x7Bu8, 0x20u8]
}

/// A name, with the span of source it covers.
#[derive(Clone, Debug)]
pub struct Identifier {
    pub ident: String,
    pub span: Span,
}

impl Identifier {
    /// The identifier `ident`, whose span starts where `span` does and is as
    /// long as `ident` in bytes.
    pub fn new(ident: &str, span: Span) -> (r: Self)
        requires
            valid_identifier(ident@),
        ensures
            r.ident@ == ident@,
            r.span.start == span.start,
            r.span.size == ident.spec_bytes().len() as usize,
    {
        let mut span = span;
        span.size = ident.len();
        Identifier { ident: String::from_str(ident), span }
    }

    /// The name, as it is displayed.
    pub fn to_string(&self) -> (r: String)
        ensures
            r@ == self.ident@,
    {
        self.ident.clone()
    }
}

impl Parse for Identifier {
    open spec fn readable(bytes: Seq<u8>, pos: int, span: Span) -> bool {
        ascii_scan(bytes, pos, identifier_stops()) is Some
    }

    open spec fn read_end(bytes: Seq<u8>, pos: int, span: Span) -> int {
        ascii_scan(bytes, pos, identifier_stops()).unwrap()
    }

    /// The identifier is the text up to the stop, its span starts where
    /// `span` does and covers that text.
    open spec fn read_value(v: Self, bytes: Seq<u8>, pos: int, span: Span) -> bool {
        let end = Self::read_end(bytes, pos, span);
        &&& encode_utf8(v.ident@) == bytes.subrange(pos, end)
        &&& v.span.start == span.start
        &&& v.span.size == end - pos
    }

    /// Reads an identifier: the bytes up to the next `(`, `{` or space, which
    /// is left unread.
    fn parse(reader: &mut Source, span: Span) -> (r: Result<Self, SyntaxError>) {
        let stops = [0x28u8, 0x7Bu8, 0x20u8];
        assert(stops@ =~= identifier_stops());
        let (ident, bytes_read) = read_ascii_until(reader, stops.as_slice());
        Ok(Identifier { ident, span: Span::new(span.start, bytes_read) })
    }
}

/// Scanning reaches a stop that only ASCII bytes that are no stops come
/// before.
proof fn lemma_ascii_scan_reaches(bytes: Seq<u8>, from: int, k: int, stops: Seq<u8>)
    requires
        0 <= from <= k < bytes.len(),
        bytes[k] < 0x80,
        stops.contains(bytes[k]),
        forall|j: int| from <= j < k ==> #[trigger] bytes[j] < 0x80 && !stops.contains(bytes[j]),
    ensures
        ascii_scan(bytes, from, stops) == Some(k),
    decreases k - from,
{
    if from < k {
        lemma_ascii_scan_reaches(bytes, from + 1, k, stops);
    }
}

/// An identifier is read up to the first `(`, `{` or space, and no
/// further: the byte where reading stops is one of these three, and every
/// byte before it, from where reading started, is ASCII and none of them.
/// So a name of letters, digits and underscores followed by `(` is read
/// whole. Reading is possible exactly when such a stop comes.
pub proof fn law_identifier_stops_at_bracket_or_space(bytes: Seq<u8>, pos: int, span: Span)
    ensures
        Identifier::readable(bytes, pos, span) <==> exists|k: int|
            #![trigger bytes[k]]
            0 <= pos <= k < bytes.len() && (bytes[k] == 0x28u8 || bytes[k] == 0x7Bu8 || bytes[k]
                == 0x20u8) && forall|j: int|
                pos <= j < k ==> #[trigger] bytes[j] < 0x80 && bytes[j] != 0x28u8 && bytes[j]
                    != 0x7Bu8 && bytes[j] != 0x20u8,
        Identifier::readable(bytes, pos, span) ==> {
            let end = Identifier::read_end(bytes, pos, span);
            &&& 0 <= pos <= end < bytes.len()
            &&& bytes[end] == 0x28u8 || bytes[end] == 0x7Bu8 || bytes[end] == 0x20u8
            &&& forall|j: int|
                pos <= j < end ==> #[trigger] bytes[j] < 0x80 && bytes[j] != 0x28u8 && bytes[j]
                    != 0x7Bu8 && bytes[j] != 0x20u8
        },
{
    let stops = identifier_stops();
    assert(forall|b: u8| stops.contains(b) <==> (b == 0x28u8 || b == 0x7Bu8 || b == 0x20u8)) by {
        assert forall|b: u8| (b == 0x28u8 || b == 0x7Bu8 || b == 0x20u8) implies stops.contains(b) by {
            if b == 0x28u8 {
                assert(stops[0] == b);
            } else if b == 0x7Bu8 {
                assert(stops[1] == b);
            } else {
                assert(stops[2] == b);
            }
        }
    }
    lemma_ascii_scan(bytes, pos, stops);
    if exists|k: int|
        #![trigger bytes[k]]
        0 <= pos <= k < bytes.len() && (bytes[k] == 0x28u8 || bytes[k] == 0x7Bu8 || bytes[k]
            == 0x20u8) && forall|j: int|
            pos <= j < k ==> #[trigger] bytes[j] < 0x80 && bytes[j] != 0x28u8 && bytes[j]
                != 0x7Bu8 && bytes[j] != 0x20u8 {
        let k = choose|k: int|
            #![trigger bytes[k]]
            0 <= pos <= k < bytes.len() && (bytes[k] == 0x28u8 || bytes[k] == 0x7Bu8 || bytes[k]
                == 0x20u8) && forall|j: int|
                pos <= j < k ==> #[trigger] bytes[j] < 0x80 && bytes[j] != 0x28u8 && bytes[j]
                    != 0x7Bu8 && bytes[j] != 0x20u8;
        lemma_ascii_scan_reaches(bytes, pos, k, stops);
    }
    if Identifier::readable(bytes, pos, span) {
        let end = Identifier::read_end(bytes, pos, span);
        assert(bytes[end] == bytes[end]);
    }
}

} // verus!
