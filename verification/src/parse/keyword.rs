use vstd::prelude::*;
use vstd::utf8::*;

use crate::parse::function::{arguments_at, function_read, function_readable, name_end, Function};
use crate::parse::source::Source;
use crate::parse::{Parse, SyntaxError};
use crate::span::Span;
use crate::text::trim_end_chars;

verus! {

/// A keyword, with what follows it. (Not an AST node.)
pub enum Keyword {
    Function(Function),
}

/// The offset just after the first space at or after `pos`, or the end of
/// the bytes when there is none.
pub open spec fn after_space(bytes: Seq<u8>, pos: int) -> int
    decreases bytes.len() - pos,
{
    if pos < 0 || pos >= bytes.len() {
        bytes.len() as int
    } else if bytes[pos] == 0x20u8 {
        pos + 1
    } else {
        after_space(bytes, pos + 1)
    }
}

proof fn lemma_after_space(bytes: Seq<u8>, pos: int)
    requires
        0 <= pos <= bytes.len(),
    ensures
        pos <= after_space(bytes, pos) <= bytes.len(),
        after_space(bytes, pos) == bytes.len() || (after_space(bytes, pos) > pos && bytes[after_space(bytes, pos) - 1] == 0x20u8),
        forall|i: int| pos <= i < after_space(bytes, pos) - 1 ==> #[trigger] bytes[i] != 0x20u8,
    decreases bytes.len() - pos,
{
    if pos < bytes.len() && bytes[pos] != 0x20u8 {
        lemma_after_space(bytes, pos + 1);
    }
}

/// The word read at `pos`: the bytes up to and including the next space.
pub open spec fn keyword_word(bytes: Seq<u8>, pos: int) -> Seq<u8> {
    bytes.subrange(pos, after_space(bytes, pos))
}

impl Parse for Keyword {
    /// The word up to and including the next space is `fun` with any
    /// trailing whitespace, and a function declaration can be read after it.
    open spec fn readable(bytes: Seq<u8>, pos: int, span: Span) -> bool {
        &&& valid_utf8(keyword_word(bytes, pos))
        &&& trim_end_chars(decode_utf8(keyword_word(bytes, pos))) == "fun"@
        &&& function_readable(bytes, after_space(bytes, pos), span)
    }

    open spec fn read_end(bytes: Seq<u8>, pos: int, span: Span) -> int {
        let at = after_space(bytes, pos);
        arguments_at(bytes, name_end(bytes, at)).unwrap().0
    }

    open spec fn read_value(v: Self, bytes: Seq<u8>, pos: int, span: Span) -> bool {
        v matches Keyword::Function(f) && function_read(f, bytes, after_space(bytes, pos), span)
    }

    /// Reads the word up to and including the next space; the word `fun`
    /// (with any trailing whitespace) starts a function declaration.
    fn parse(reader: &mut Source, span: Span) -> (r: Result<Self, SyntaxError>)
    {
        let ghost data = reader.data();
        let ghost pos = reader.position() as int;
        let mut buf: Vec<u8> = Vec::new();
        reader.read_until(0x20, &mut buf);
        proof {
            assert(reader.position() == after_space(data, pos)) by {
                lemma_after_space(data, pos);
                let k = reader.position() as int;
                if k < after_space(data, pos) {
                    assert(data[k - 1] == 0x20u8);
                }
                if k > after_space(data, pos) {
                    assert(data[after_space(data, pos) - 1] == 0x20u8);
                }
            }
        }
        match Function::parse(reader, span) {
            Ok(function) => Ok(Keyword::Function(function)),
            Err(e) => Err(e),
        }
    }
}


} // verus!
