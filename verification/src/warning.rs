//! Non-fatal warnings the surrounding contract logic attaches to its
//! responses.

use vstd::prelude::*;

verus! {

/// The warnings an operation can report without failing.
#[derive(Clone, Debug, PartialEq, Eq)]
pub enum NeptuneWarning {
    AmountWasZero,
    AmountBelowThreshold,
    InsuffBalance,
    Recursion,
    Generic(String),
}

impl NeptuneWarning {
    /// The warning's wording.
    pub fn str(&self) -> (r: String)
        ensures
            *self is AmountWasZero ==> r@ == "Amount was zero."@,
            *self is AmountBelowThreshold ==> r@ == "Amount is below threshold."@,
            *self is InsuffBalance ==> r@ == "Insufficient balance. Amount was reduced."@,
            *self is Recursion ==> r@ == "Recursion required."@,
            self matches NeptuneWarning::Generic(msg) ==> r@ == msg@,
    {
        match self {
            NeptuneWarning::AmountWasZero => "Amount was zero.".to_owned(),
            NeptuneWarning::AmountBelowThreshold => "Amount is below threshold.".to_owned(),
            NeptuneWarning::InsuffBalance => "Insufficient balance. Amount was reduced.".to_owned(),
            NeptuneWarning::Recursion => "Recursion required.".to_owned(),
            NeptuneWarning::Generic(msg) => msg.clone(),
        }
    }
}

} // verus!
