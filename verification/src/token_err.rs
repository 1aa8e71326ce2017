use vstd::prelude::*;
use vstd::std_specs::convert::FromSpecImpl;

use packed_struct::PackingError;

verus! {

/// `packed_struct::PackingError`, carried through unread.
#[verifier::external_type_specification]
#[verifier::external_body]
pub struct ExPackingError(PackingError);

/// Why a token could not be made.
#[derive(Debug)]
pub enum TokenizationError {
    NoMatch,
    Packing(PackingError),
}

impl TokenizationError {
    /// The error as it is displayed.
    pub fn to_string(&self) -> (r: String)
        ensures
            self is NoMatch ==> r@ == "Found no matching token"@,
            self is Packing ==> r@ == "Could not pack token"@,
    {
        match self {
            TokenizationError::NoMatch => String::from_str("Found no matching token"),
            TokenizationError::Packing(_) => String::from_str("Could not pack token"),
        }
    }

    /// The error this one stems from: the packing error, if any.
    pub fn source(&self) -> (r: Option<&PackingError>)
        ensures
            self is NoMatch ==> r is None,
            self matches TokenizationError::Packing(e) ==> r == Some(e),
    {
        match self {
            TokenizationError::NoMatch => None,
            TokenizationError::Packing(err) => Some(err),
        }
    }
}

impl From<PackingError> for TokenizationError {
    fn from(value: PackingError) -> (r: Self) {
        TokenizationError::Packing(value)
    }
}

impl FromSpecImpl<PackingError> for TokenizationError {
    open spec fn obeys_from_spec() -> bool {
        true
    }

    open spec fn from_spec(v: PackingError) -> Self {
        TokenizationError::Packing(v)
    }
}

} // verus!
