use vstd::prelude::*;
use vstd::string::StringSliceAdditionalSpecFns;
use vstd::utf8::*;

use crate::parse::identifier::{valid_identifier, Identifier};
use crate::parse::source::{ascii_scan, read_ascii_until, Source};
use crate::parse::{Parse, SyntaxError};
use crate::span::Span;
use crate::text::{trim, trim_chars};

verus! {

/// The type of a value: written out, or left to be inferred.
#[derive(Clone, Debug)]
pub enum Type {
    Explicit(Identifier, Span),
    Inferred,
}

/// The byte at which a type being read ends: `{`.
pub open spec fn type_stops() -> Seq<u8> {
    seq![0x7Bu8]
}

impl Type {
    /// The type that `value` names: inferred when `value` is empty, else the
    /// identifier that `value` holds between its surrounding whitespace.
    pub fn from(value: &str, span: Span) -> (r: Self)
        requires
            value@.len() > 0 ==> valid_identifier(trim_chars(value@)),
        ensures
            value@.len() == 0 ==> r is Inferred,
            value@.len() > 0 ==> (r matches Type::Explicit(id, s) && id.ident@ == trim_chars(value@)
                && id.span.start == span.start && id.span.size == encode_utf8(trim_chars(value@)).len() as usize
                && s == id.span),
    {
        if value.is_empty() {
            return Type::Inferred;
        }
        let trimmed = trim(value);
        let identifier = Identifier::new(trimmed, span);
        let span = identifier.span;

        Type::Explicit(identifier, span)
    }
}

/// The text a type read at `pos` names: what comes before the next `{`,
/// without its surrounding whitespace.
pub open spec fn type_text(bytes: Seq<u8>, pos: int) -> Seq<char> {
    trim_chars(decode_utf8(bytes.subrange(pos, ascii_scan(bytes, pos, type_stops()).unwrap())))
}

impl Parse for Type {
    open spec fn readable(bytes: Seq<u8>, pos: int, span: Span) -> bool {
        &&& span.end() <= usize::MAX
        &&& ascii_scan(bytes, pos, type_stops()) is Some
        &&& valid_identifier(type_text(bytes, pos))
    }

    open spec fn read_end(bytes: Seq<u8>, pos: int, span: Span) -> int {
        ascii_scan(bytes, pos, type_stops()).unwrap()
    }

    /// An explicit type: the identifier starts where `span` ends, and the
    /// type's span starts where `span` does and covers the text read.
    open spec fn read_value(v: Self, bytes: Seq<u8>, pos: int, span: Span) -> bool {
        let text = type_text(bytes, pos);
        v matches Type::Explicit(id, s) && id.ident@ == text && id.span.start == span.end()
            && id.span.size == encode_utf8(text).len() as usize && s.start == span.start && s.size
            == Self::read_end(bytes, pos, span) - pos
    }

    /// Reads an explicit type: the text up to the next `{`, which is left
    /// unread.
    fn parse(reader: &mut Source, span: Span) -> (r: Result<Self, SyntaxError>) {
        let stops = [0x7Bu8];
        assert(stops@ =~= type_stops());
        let (ty, bytes_read) = read_ascii_until(reader, stops.as_slice());
        proof {
            encode_utf8_decode_utf8(ty@);
        }
        let trimmed = trim(ty.as_str());
        Ok(Type::Explicit(Identifier::new(trimmed, Span::after(span)), Span::new(span.start, bytes_read)))
    }
}

} // verus!
