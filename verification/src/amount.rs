//! Unsigned 256-bit amounts.
//!
//! An [`Amount`] is four 64-bit limbs, least significant first; its
//! mathematical value is [`Amount::val`]. Addition, subtraction and
//! comparison are verified limb arithmetic. The one operation that needs a
//! 512-bit intermediate — `amount * numerator / denominator` — is delegated
//! to an outside big-integer crate behind [`wide_mul_div`].

use vstd::prelude::*;

use crate::error::{NeptuneError, NeptuneResult};

verus! {

/// Number of values one 64-bit limb can take: 2^64.
pub open spec fn limb_base() -> int {
    0x1_0000_0000_0000_0000
}

/// 2^128, the weight of the third limb.
pub open spec fn limb_base2() -> int {
    0x1_0000_0000_0000_0000_0000_0000_0000_0000int
}

/// 2^192, the weight of the fourth limb.
pub open spec fn limb_base3() -> int {
    0x1_0000_0000_0000_0000_0000_0000_0000_0000_0000_0000_0000_0000int
}

/// One more than the largest representable amount: 2^256.
pub open spec fn amount_bound() -> int {
    0x1_0000_0000_0000_0000_0000_0000_0000_0000_0000_0000_0000_0000_0000_0000_0000_0000int
}

/// A non-negative integer below 2^256, as limbs `l0` (least significant)
/// through `l3` (most significant).
#[derive(Clone, Copy, Debug, PartialEq, Eq, Structural)]
pub struct Amount {
    pub l0: u64,
    pub l1: u64,
    pub l2: u64,
    pub l3: u64,
}

/// One 64-bit column of an addition: returns `(sum limb, carry out)`.
fn add_with_carry(x: u64, y: u64, c: u64) -> (r: (u64, u64))
    requires
        c <= 1,
    ensures
        r.0 + r.1 * limb_base() == x + y + c,
        r.1 <= 1,
{
    if x <= u64::MAX - y {
        let s: u64 = x + y;
        if c == 1 {
            if s == u64::MAX {
                (0, 1)
            } else {
                (s + 1, 0)
            }
        } else {
            (s, 0)
        }
    } else {
        let s: u64 = x - (u64::MAX - y) - 1;
        (s + c, 1)
    }
}

/// One 64-bit column of a subtraction: returns `(difference limb, borrow out)`.
fn sub_with_borrow(x: u64, y: u64, b: u64) -> (r: (u64, u64))
    requires
        b <= 1,
    ensures
        r.0 == x - y - b + r.1 * limb_base(),
        r.1 <= 1,
{
    if x >= y {
        let d: u64 = x - y;
        if b == 1 {
            if d == 0 {
                (u64::MAX, 1)
            } else {
                (d - 1, 0)
            }
        } else {
            (d, 0)
        }
    } else {
        let d: u64 = x + (u64::MAX - y) + 1 - b;
        (d, 1)
    }
}

impl Amount {
    /// The integer this amount stands for.
    pub open spec fn val(&self) -> int {
        self.l0 + self.l1 * limb_base() + self.l2 * limb_base2() + self.l3 * limb_base3()
    }

    pub fn zero() -> (r: Amount)
        ensures
            r.val() == 0,
    {
        Amount { l0: 0, l1: 0, l2: 0, l3: 0 }
    }

    pub fn one() -> (r: Amount)
        ensures
            r.val() == 1,
    {
        Amount { l0: 1, l1: 0, l2: 0, l3: 0 }
    }

    pub fn from_u128(x: u128) -> (r: Amount)
        ensures
            r.val() == x,
    {
        let base: u128 = 0x1_0000_0000_0000_0000;
        Amount { l0: (x % base) as u64, l1: (x / base) as u64, l2: 0, l3: 0 }
    }

    pub fn is_zero(&self) -> (r: bool)
        ensures
            r <==> self.val() == 0,
    {
        self.l0 == 0 && self.l1 == 0 && self.l2 == 0 && self.l3 == 0
    }

    /// Equality of two amounts, decided on the limbs.
    pub fn eq_amount(&self, other: &Amount) -> (r: bool)
        ensures
            r <==> *self == *other,
    {
        self.l0 == other.l0 && self.l1 == other.l1 && self.l2 == other.l2 && self.l3 == other.l3
    }

    /// Exact comparison: `self < other` on the represented values.
    pub fn lt(&self, other: &Amount) -> (r: bool)
        ensures
            r <==> self.val() < other.val(),
    {
        if self.l3 != other.l3 {
            self.l3 < other.l3
        } else if self.l2 != other.l2 {
            self.l2 < other.l2
        } else if self.l1 != other.l1 {
            self.l1 < other.l1
        } else {
            self.l0 < other.l0
        }
    }

    /// Exact comparison: `self <= other` on the represented values.
    pub fn le(&self, other: &Amount) -> (r: bool)
        ensures
            r <==> self.val() <= other.val(),
    {
        !other.lt(self)
    }

    /// Sum, or `None` when it would not fit 256 bits.
    pub fn checked_add(self, rhs: Amount) -> (r: Option<Amount>)
        ensures
            self.val() + rhs.val() < amount_bound() ==> (r matches Some(v) && v.val()
                == self.val() + rhs.val()),
            self.val() + rhs.val() >= amount_bound() ==> r is None,
    {
        let (s0, c0) = add_with_carry(self.l0, rhs.l0, 0);
        let (s1, c1) = add_with_carry(self.l1, rhs.l1, c0);
        let (s2, c2) = add_with_carry(self.l2, rhs.l2, c1);
        let (s3, c3) = add_with_carry(self.l3, rhs.l3, c2);
        if c3 == 1 {
            None
        } else {
            Some(Amount { l0: s0, l1: s1, l2: s2, l3: s3 })
        }
    }

    /// Sum of two amounts that is known to fit.
    pub fn add_amt(self, rhs: Amount) -> (r: Amount)
        requires
            self.val() + rhs.val() < amount_bound(),
        ensures
            r.val() == self.val() + rhs.val(),
    {
        match self.checked_add(rhs) {
            Some(v) => v,
            None => Amount::zero(),
        }
    }

    /// Difference, or `None` when `rhs` exceeds `self`.
    pub fn checked_sub(self, rhs: Amount) -> (r: Option<Amount>)
        ensures
            self.val() >= rhs.val() ==> (r matches Some(v) && v.val() == self.val() - rhs.val()),
            self.val() < rhs.val() ==> r is None,
    {
        let (d0, b0) = sub_with_borrow(self.l0, rhs.l0, 0);
        let (d1, b1) = sub_with_borrow(self.l1, rhs.l1, b0);
        let (d2, b2) = sub_with_borrow(self.l2, rhs.l2, b1);
        let (d3, b3) = sub_with_borrow(self.l3, rhs.l3, b2);
        if b3 == 1 {
            None
        } else {
            Some(Amount { l0: d0, l1: d1, l2: d2, l3: d3 })
        }
    }

    /// Difference of two amounts where `rhs` is known not to exceed `self`.
    pub fn sub_amt(self, rhs: Amount) -> (r: Amount)
        requires
            self.val() >= rhs.val(),
        ensures
            r.val() == self.val() - rhs.val(),
    {
        match self.checked_sub(rhs) {
            Some(v) => v,
            None => Amount::zero(),
        }
    }

    /// Difference clamped at zero.
    pub fn saturating_sub(self, rhs: Amount) -> (r: Amount)
        ensures
            self.val() >= rhs.val() ==> r.val() == self.val() - rhs.val(),
            self.val() < rhs.val() ==> r.val() == 0,
    {
        match self.checked_sub(rhs) {
            Some(v) => v,
            None => Amount::zero(),
        }
    }
}

} // verus!

verus! {

/// `a * b / c` over the integers, floored: the shape of every
/// amount-to-shares and shares-to-amount conversion in this library.
pub open spec fn spec_mul_div(a: int, b: int, c: int) -> int {
    a * b / c
}

/// Relies on `primitive_types::U256::full_mul`, `U512` division and
/// `U256::try_from`: returns the full 512-bit product of `a` and `num`
/// divided by `den` (floored), and `None` exactly when that quotient does
/// not fit in 256 bits. The zero divisor, on which the outside division
/// panics, is excluded here and handled by the verified callers.
#[verifier::external_body]
fn wide_mul_div(a: &Amount, num: &Amount, den: &Amount) -> (r: Option<Amount>)
    requires
        den.val() != 0,
    ensures
        r matches Some(v) ==> v.val() == spec_mul_div(a.val(), num.val(), den.val()),
        r is Some <==> spec_mul_div(a.val(), num.val(), den.val()) < amount_bound(),
{
    let lhs = primitive_types::U256([a.l0, a.l1, a.l2, a.l3]);
    let rhs = primitive_types::U256([num.l0, num.l1, num.l2, num.l3]);
    let div = primitive_types::U256([den.l0, den.l1, den.l2, den.l3]);
    let q = lhs.full_mul(rhs) / primitive_types::U512::from(div);
    match primitive_types::U256::try_from(q) {
        Ok(v) => Some(Amount { l0: v.0[0], l1: v.0[1], l2: v.0[2], l3: v.0[3] }),
        Err(_) => None,
    }
}

impl Amount {
    /// `self * numerator / denominator`, floored, computed in a 512-bit
    /// intermediate so the product itself cannot overflow. Errs with
    /// `DivideByZero` on a zero denominator and with `Overflow` exactly when
    /// the floored quotient does not fit 256 bits.
    pub fn checked_multiply_ratio(&self, numerator: Amount, denominator: Amount) -> (r:
        NeptuneResult<Amount>)
        ensures
            denominator.val() == 0 ==> (r matches Err(e) && e is DivideByZero),
            denominator.val() != 0 && spec_mul_div(self.val(), numerator.val(), denominator.val())
                < amount_bound() ==> (r matches Ok(v) && v.val() == spec_mul_div(
                self.val(),
                numerator.val(),
                denominator.val(),
            )),
            denominator.val() != 0 && spec_mul_div(self.val(), numerator.val(), denominator.val())
                >= amount_bound() ==> (r matches Err(e) && e is Overflow),
    {
        if denominator.is_zero() {
            return Err(NeptuneError::DivideByZero);
        }
        match wide_mul_div(self, &numerator, &denominator) {
            Some(v) => Ok(v),
            None => Err(NeptuneError::Overflow),
        }
    }

    /// `self * numerator / denominator` floored, for callers that know the
    /// denominator is non-zero and the quotient fits.
    pub fn multiply_ratio(&self, numerator: Amount, denominator: Amount) -> (r: Amount)
        requires
            denominator.val() != 0,
            spec_mul_div(self.val(), numerator.val(), denominator.val()) < amount_bound(),
        ensures
            r.val() == spec_mul_div(self.val(), numerator.val(), denominator.val()),
    {
        match self.checked_multiply_ratio(numerator, denominator) {
            Ok(v) => v,
            Err(_) => Amount::zero(),
        }
    }

    /// Quotient of two amounts, floored; errs with `DivideByZero` on a
    /// zero divisor and cannot overflow.
    pub fn checked_div_amt(self, rhs: Amount) -> (r: NeptuneResult<Amount>)
        ensures
            rhs.val() == 0 ==> (r matches Err(e) && e is DivideByZero),
            rhs.val() != 0 ==> (r matches Ok(v) && v.val() == self.val() / rhs.val()),
    {
        proof {
            if rhs.val() != 0 {
                vstd::arithmetic::mul::lemma_mul_basics(self.val());
                vstd::arithmetic::div_mod::lemma_div_basics_5(self.val(), rhs.val());
            }
        }
        self.checked_multiply_ratio(Amount::one(), rhs)
    }

    /// Full product, erring with `Overflow` when it exceeds 256 bits.
    pub fn checked_mul(self, rhs: Amount) -> (r: NeptuneResult<Amount>)
        ensures
            self.val() * rhs.val() < amount_bound() ==> (r matches Ok(v) && v.val() == self.val()
                * rhs.val()),
            self.val() * rhs.val() >= amount_bound() ==> (r matches Err(e) && e is Overflow),
    {
        proof {
            vstd::arithmetic::div_mod::lemma_div_basics(self.val() * rhs.val());
        }
        self.checked_multiply_ratio(rhs, Amount::one())
    }
}

} // verus!
