//! Error kinds shared by the whole library.

use vstd::prelude::*;

verus! {

/// The failure kinds of the accounting core.
///
/// Lookups that miss report `KeyNotFound`; arithmetic that would leave the
/// representable range reports `Overflow`; constructing or applying a ratio
/// with a zero denominator reports `DivideByZero`; `Conversion` covers a
/// value that cannot be represented in the requested type.
#[derive(Clone, Copy, Debug, PartialEq, Eq, Structural)]
pub enum NeptuneError {
    KeyNotFound,
    Overflow,
    DivideByZero,
    Conversion,
    Unauthorized,
}

pub type NeptuneResult<T> = Result<T, NeptuneError>;

/// The container modules historically used a separate error type; the kinds
/// are the same, so it is one type here under both names.
pub type CommonError = NeptuneError;

pub type CommonResult<T> = Result<T, CommonError>;

} // verus!
