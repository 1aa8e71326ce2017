pub mod lexer;
pub mod line;
pub mod parse;
pub mod parser;
pub mod span;
pub mod text;
pub mod token;
pub mod token_err;
pub mod token_order;

use vstd::prelude::*;

use crate::token::Token;

verus! {

/// The texts of `tokens`, one after another.
pub open spec fn joined_text(tokens: Seq<Token>) -> Seq<char>
    decreases tokens.len(),
{
    if tokens.len() == 0 {
        seq![]
    } else {
        joined_text(tokens.drop_last()) + tokens.last().text()
    }
}

/// Writes the texts of `tokens` one after another, or `[]` when there are none.
pub fn parsed_to_str(tokens: &[Token]) -> (r: String)
    ensures
        tokens@.len() == 0 ==> r@ == "[]"@,
        tokens@.len() > 0 ==> r@ == joined_text(tokens@),
{
    if tokens.len() == 0 {
        return String::from_str("[]");
    }
    let mut body = String::new();
    let mut i: usize = 0;
    while i < tokens.len()
        invariant
            i <= tokens@.len(),
            body@ == joined_text(tokens@.subrange(0, i as int)),
        decreases tokens.len() - i,
    {
        body.append(tokens[i].as_str());
        assert(tokens@.subrange(0, i + 1).drop_last() =~= tokens@.subrange(0, i as int));
        i += 1;
    }
    assert(tokens@.subrange(0, tokens@.len() as int) =~= tokens@);
    body
}

} // verus!
