//! Free arithmetic helpers the surrounding contract logic uses.

use vstd::prelude::*;

use crate::amount::{amount_bound, spec_mul_div, Amount};
use crate::error::{NeptuneError, NeptuneResult};
use crate::ratio::{ratio_scale, Ratio};

verus! {

/// Division that yields the zero ratio instead of failing: on a zero
/// denominator, and also when the scaled quotient would not fit.
pub fn div_or_zero(num: Amount, denom: Amount) -> (r: Ratio)
    ensures
        denom.val() != 0 && spec_mul_div(num.val(), ratio_scale(), denom.val()) < amount_bound()
            ==> r.val() == spec_mul_div(num.val(), ratio_scale(), denom.val()),
        denom.val() == 0 || spec_mul_div(num.val(), ratio_scale(), denom.val()) >= amount_bound()
            ==> r.val() == 0,
{
    match Ratio::checked_from_ratio(num, denom) {
        Ok(v) => v,
        Err(_) => Ratio::zero(),
    }
}

/// Divides an amount by a ratio, floored. Errs with `DivideByZero` on the
/// zero ratio and with `Conversion` when the quotient does not fit back
/// into an amount.
pub fn checked_div(numerator: Amount, denominator: Ratio) -> (r: NeptuneResult<Amount>)
    ensures
        denominator.val() == 0 ==> (r matches Err(e) && e is DivideByZero),
        denominator.val() != 0 && spec_mul_div(numerator.val(), ratio_scale(), denominator.val())
            < amount_bound() ==> (r matches Ok(v) && v.val() == spec_mul_div(
            numerator.val(),
            ratio_scale(),
            denominator.val(),
        )),
        denominator.val() != 0 && spec_mul_div(numerator.val(), ratio_scale(), denominator.val())
            >= amount_bound() ==> (r matches Err(e) && e is Conversion),
{
    match numerator.checked_div_ratio(denominator) {
        Ok(v) => Ok(v),
        Err(NeptuneError::DivideByZero) => Err(NeptuneError::DivideByZero),
        Err(_) => Err(NeptuneError::Conversion),
    }
}

} // verus!
