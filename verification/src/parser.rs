use vstd::prelude::*;

use crate::token::Token;

verus! {

/// A parser that hands the tokens back as they are.
pub struct Parser {}

impl Parser {
    fn new() -> Self {
        Self {  }
    }

    fn parse<'a>(tokens: &Vec<Token<'a>>) -> (r: Vec<Token<'a>>)
        ensures
            r@ == tokens@,
    {
        tokens.clone()
    }
}

} // verus!
