pub mod context;
pub mod error;
pub mod function;
pub mod identifier;
pub mod infix;
pub mod info;
pub mod keyword;
pub mod list;
pub mod parser;
pub mod source;
pub mod state;
pub mod ty;

use vstd::prelude::*;

use crate::parse::source::Source;
use crate::span::Span;

verus! {

/// A piece of source that could not be parsed, with the span up to which the
/// source was valid.
#[derive(Debug)]
pub struct SyntaxError {
    pub description: String,
    pub valid_until: Span,
}

impl SyntaxError {
    pub fn new(description: &str, valid_until: Span) -> (r: Self)
        ensures
            r.description@ == description@,
            r.valid_until == valid_until,
    {
        SyntaxError { description: String::from_str(description), valid_until }
    }

    /// The error as it is displayed.
    pub fn to_string(&self) -> (r: String)
        ensures
            r@ == "Failed to parse token."@,
    {
        String::from_str("Failed to parse token.")
    }
}

/// Something that can be read from source text.
pub trait Parse: Sized {
    /// Whether a value can be read from `bytes` at offset `pos`.
    spec fn readable(bytes: Seq<u8>, pos: int, span: Span) -> bool;

    /// The offset at which reading from `pos` stops.
    spec fn read_end(bytes: Seq<u8>, pos: int, span: Span) -> int;

    /// Whether `v` is the value read from `bytes` at `pos`, measured from `span`.
    spec fn read_value(v: Self, bytes: Seq<u8>, pos: int, span: Span) -> bool;

    /// Reads a value at the reader's position, and leaves the reader where
    /// the value ends.
    fn parse(reader: &mut Source, span: Span) -> (r: Result<Self, SyntaxError>)
        requires
            Self::readable(old(reader).data(), old(reader).position() as int, span),
        ensures
            final(reader).data() == old(reader).data(),
            final(reader).position() == Self::read_end(
                old(reader).data(),
                old(reader).position() as int,
                span,
            ),
            r matches Ok(v) && Self::read_value(v, old(reader).data(), old(reader).position() as int, span),
    ;
}

} // verus!
