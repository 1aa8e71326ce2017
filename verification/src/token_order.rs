use vstd::prelude::*;
use vstd::std_specs::cmp::{PartialEqSpec, PartialEqSpecImpl, PartialOrdSpec, PartialOrdSpecImpl};

use core::cmp::Ordering;

use crate::token::Token;

verus! {

// Tokens are compared by where they start in the source.
impl<'t> PartialEq for Token<'t> {
    fn eq(&self, other: &Self) -> (r: bool) {
        self.loc() == other.loc()
    }
}

impl<'t> PartialEqSpecImpl for Token<'t> {
    open spec fn obeys_eq_spec() -> bool {
        true
    }

    open spec fn eq_spec(&self, other: &Self) -> bool {
        self.location() == other.location()
    }
}

impl<'t> Eq for Token<'t> {

}

impl<'t> PartialOrd for Token<'t> {
    fn partial_cmp(&self, other: &Self) -> (r: Option<Ordering>) {
        let a = self.loc();
        let b = other.loc();
        if a < b {
            Some(Ordering::Less)
        } else if a == b {
            Some(Ordering::Equal)
        } else {
            Some(Ordering::Greater)
        }
    }
}

impl<'t> PartialOrdSpecImpl for Token<'t> {
    open spec fn obeys_partial_cmp_spec() -> bool {
        true
    }

    open spec fn partial_cmp_spec(&self, other: &Self) -> Option<Ordering> {
        if self.location() < other.location() {
            Some(Ordering::Less)
        } else if self.location() == other.location() {
            Some(Ordering::Equal)
        } else {
            Some(Ordering::Greater)
        }
    }
}

/// Equality of tokens agrees with their order: two tokens are equal exactly
/// when neither comes before the other, and one comes before another exactly
/// when the other comes after it.
pub proof fn law_token_eq_agrees_with_order<'t>(a: Token<'t>, b: Token<'t>)
    ensures
        PartialEqSpec::eq_spec(&a, &b) <==> PartialOrdSpec::partial_cmp_spec(&a, &b) == Some(
            Ordering::Equal,
        ),
        PartialOrdSpec::partial_cmp_spec(&a, &b) == Some(Ordering::Less) <==> PartialOrdSpec::partial_cmp_spec(
            &b,
            &a,
        ) == Some(Ordering::Greater),
        PartialOrdSpec::partial_cmp_spec(&a, &b) is Some,
{
}

} // verus!
