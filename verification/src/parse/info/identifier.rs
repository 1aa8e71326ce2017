use vstd::prelude::*;

verus! {

/// What is known of an identifier: the index of its token.
pub struct IdentifierInfo {
    pub token_idx: usize,
}

impl IdentifierInfo {
    /// `string_delegate` would give the identifier's text; it is not called.
    pub fn new<F: FnOnce() -> String>(token_idx: usize, string_delegate: F) -> (r: Self)
        ensures
            r.token_idx == token_idx,
    {
        Self { token_idx }
    }
}

} // verus!
