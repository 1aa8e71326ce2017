use vstd::prelude::*;

verus! {

/// What the parser is in the middle of; `S` is the type of an interned
/// symbol that names an identifier.
pub enum ParseCtx<S> {
    ModifierCtx(usize),
    FunctionCtx(FunctionCtx),
    VariableCtx,
    IdentifierCtx(S),
    EqualsCtx,
    PlusCtx,
}

#[derive(Debug)]
pub struct FunctionCtx {}

impl FunctionCtx {
    pub fn new<S>() -> (r: ParseCtx<S>)
        ensures
            r is FunctionCtx,
    {
        ParseCtx::FunctionCtx(FunctionCtx {  })
    }
}

pub struct ModifierCtx {
    pub placeholder_idx: usize,
}

} // verus!
