use vstd::prelude::*;

use crate::token::Token;

verus! {

/// What the parser is reading.
#[derive(Clone, Copy)]
pub enum ParseState<'t> {
    TopLevel,
    FunctionDecl,
    DeclNameAndParams,
    Expression(ExpressionState<'t>),
}

impl<'t> From<ExpressionState<'t>> for ParseState<'t> {
    fn from(v: ExpressionState<'t>) -> (r: Self) {
        Self::Expression(v)
    }
}

impl<'t> vstd::std_specs::convert::FromSpecImpl<ExpressionState<'t>> for ParseState<'t> {
    open spec fn obeys_from_spec() -> bool {
        true
    }

    open spec fn from_spec(v: ExpressionState<'t>) -> Self {
        ParseState::Expression(v)
    }
}

/// An expression being read, with the token that opened it.
#[derive(Clone, Copy)]
pub struct ExpressionState<'t> {
    pub initiator: Token<'t>,
}

impl<'t> ExpressionState<'t> {
    pub fn new(initiator: Token<'t>) -> (r: Self)
        ensures
            r.initiator == initiator,
    {
        Self { initiator }
    }
}

} // verus!
