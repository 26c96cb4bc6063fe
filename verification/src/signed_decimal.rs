//! A signed fixed-point number: a [`Ratio`] magnitude with a sign flag.
//!
//! A zero produced by arithmetic is canonical — stored with the positive
//! sign — though a negative zero can still be written down (parsed), and
//! equality treats the two zeros as the same number.

use vstd::prelude::*;
use vstd::string::StringSliceAdditionalSpecFns;

use crate::amount::{amount_bound, spec_mul_div};
use crate::error::{NeptuneError, NeptuneResult};
use crate::ratio::{
    ratio_scale, spec_decimal_atomics, spec_decimal_wf, Ratio,
};

verus! {

/// A ratio with a sign.
#[derive(Clone, Copy, Debug)]
pub struct SignedDecimal {
    value: Ratio,
    is_positive: bool,
}

impl SignedDecimal {
    /// The signed number this value stands for, in atomic units.
    pub closed spec fn sval(&self) -> int {
        if self.is_positive {
            self.value.val()
        } else {
            -self.value.val()
        }
    }

    /// The magnitude, in atomic units.
    pub closed spec fn mag(&self) -> int {
        self.value.val()
    }

    /// Whether the sign flag reads positive (a negative zero is possible
    /// and counts as negative here, as in [`SignedDecimal::is_negative`]).
    pub closed spec fn spec_is_positive(&self) -> bool {
        self.is_positive
    }

    /// The magnitude with the sign dropped.
    pub fn abs(&self) -> (r: Self)
        ensures
            r.mag() == self.mag(),
            r.spec_is_positive(),
    {
        SignedDecimal { value: self.value, is_positive: true }
    }

    /// Positive or negative one, following the sign flag.
    pub fn signum(&self) -> (r: Self)
        ensures
            r.mag() == ratio_scale(),
            r.spec_is_positive() == self.spec_is_positive(),
    {
        SignedDecimal { value: Ratio::one(), is_positive: self.is_positive }
    }

    pub fn is_positive(&self) -> (r: bool)
        ensures
            r == self.spec_is_positive(),
    {
        self.is_positive
    }

    pub fn is_negative(&self) -> (r: bool)
        ensures
            r == !self.spec_is_positive(),
    {
        !self.is_positive
    }

    pub fn one() -> (r: Self)
        ensures
            r.sval() == ratio_scale(),
            r.spec_is_positive(),
    {
        SignedDecimal { value: Ratio::one(), is_positive: true }
    }

    pub fn zero() -> (r: Self)
        ensures
            r.sval() == 0,
            r.mag() == 0,
            r.spec_is_positive(),
    {
        SignedDecimal { value: Ratio::zero(), is_positive: true }
    }

    pub fn is_zero(&self) -> (r: bool)
        ensures
            r <==> self.sval() == 0,
    {
        self.value.is_zero()
    }

    /// The negation; a zero keeps its (positive) canonical form.
    pub fn neg_sd(self) -> (r: Self)
        ensures
            r.sval() == -self.sval(),
            r.mag() == self.mag(),
            self.mag() == 0 ==> r.spec_is_positive() == self.spec_is_positive(),
            self.mag() != 0 ==> r.spec_is_positive() == !self.spec_is_positive(),
    {
        if self.is_zero() {
            return self;
        }
        SignedDecimal { value: self.value, is_positive: !self.is_positive }
    }

    /// The sum. The sign follows the larger magnitude; an exact cancel
    /// yields the canonical positive zero.
    pub fn add_sd(self, rhs: Self) -> (r: Self)
        requires
            self.spec_is_positive() == rhs.spec_is_positive() ==> self.mag() + rhs.mag()
                < amount_bound(),
        ensures
            r.sval() == self.sval() + rhs.sval(),
            r.mag() == if self.spec_is_positive() == rhs.spec_is_positive() {
                self.mag() + rhs.mag()
            } else if self.mag() >= rhs.mag() {
                self.mag() - rhs.mag()
            } else {
                rhs.mag() - self.mag()
            },
            self.spec_is_positive() == rhs.spec_is_positive() ==> r.spec_is_positive()
                == self.spec_is_positive(),
            self.spec_is_positive() != rhs.spec_is_positive() && self.mag() > rhs.mag()
                ==> r.spec_is_positive() == self.spec_is_positive(),
            self.spec_is_positive() != rhs.spec_is_positive() && rhs.mag() > self.mag()
                ==> r.spec_is_positive() == rhs.spec_is_positive(),
            self.spec_is_positive() != rhs.spec_is_positive() && self.mag() == rhs.mag()
                ==> r.spec_is_positive(),
    {
        let value: Ratio;
        let pos: bool;
        if self.is_positive == rhs.is_positive {
            value = self.value.add_ratio(rhs.value);
            pos = self.is_positive;
        } else if rhs.value.lt(&self.value) {
            value = self.value.sub_ratio(rhs.value);
            pos = self.is_positive;
        } else if self.value.lt(&rhs.value) {
            value = rhs.value.sub_ratio(self.value);
            pos = rhs.is_positive;
        } else {
            value = Ratio::zero();
            pos = true;
        }
        SignedDecimal { value, is_positive: pos }
    }

    /// The difference: the sum with the right sign flipped (without
    /// canonicalising a right-hand zero first).
    pub fn sub_sd(self, rhs: Self) -> (r: Self)
        requires
            self.spec_is_positive() != rhs.spec_is_positive() ==> self.mag() + rhs.mag()
                < amount_bound(),
        ensures
            r.sval() == self.sval() - rhs.sval(),
            r.mag() == if self.spec_is_positive() != rhs.spec_is_positive() {
                self.mag() + rhs.mag()
            } else if self.mag() >= rhs.mag() {
                self.mag() - rhs.mag()
            } else {
                rhs.mag() - self.mag()
            },
            self.spec_is_positive() != rhs.spec_is_positive() ==> r.spec_is_positive()
                == self.spec_is_positive(),
            self.spec_is_positive() == rhs.spec_is_positive() && self.mag() > rhs.mag()
                ==> r.spec_is_positive() == self.spec_is_positive(),
            self.spec_is_positive() == rhs.spec_is_positive() && rhs.mag() > self.mag()
                ==> r.spec_is_positive() == !rhs.spec_is_positive(),
            self.spec_is_positive() == rhs.spec_is_positive() && self.mag() == rhs.mag()
                ==> r.spec_is_positive(),
    {
        self.add_sd(SignedDecimal { value: rhs.value, is_positive: !rhs.is_positive })
    }

    /// The product: magnitudes multiply (floored), like signs make a
    /// positive, and a zero result is always positive.
    pub fn mul_sd(self, rhs: Self) -> (r: Self)
        requires
            spec_mul_div(self.mag(), rhs.mag(), ratio_scale()) < amount_bound(),
        ensures
            r.mag() == spec_mul_div(self.mag(), rhs.mag(), ratio_scale()),
            r.spec_is_positive() == (self.spec_is_positive() == rhs.spec_is_positive() || r.mag()
                == 0),
    {
        let value = match self.value.checked_mul(rhs.value) {
            Ok(v) => v,
            Err(_) => Ratio::zero(),
        };
        SignedDecimal { value, is_positive: self.is_positive == rhs.is_positive || value.is_zero() }
    }

    /// The quotient: magnitudes divide (floored), a zero divisor yields
    /// zero, like signs make a positive, and a zero result is always
    /// positive.
    pub fn div_sd(self, rhs: Self) -> (r: Self)
        requires
            rhs.mag() != 0 ==> spec_mul_div(self.mag(), ratio_scale(), rhs.mag()) < amount_bound(),
        ensures
            r.mag() == if rhs.mag() == 0 {
                0
            } else {
                spec_mul_div(self.mag(), ratio_scale(), rhs.mag())
            },
            r.spec_is_positive() == (self.spec_is_positive() == rhs.spec_is_positive() || r.mag()
                == 0),
    {
        let value: Ratio;
        if rhs.value.is_zero() {
            value = Ratio::zero();
        } else {
            value = match self.value.checked_div(rhs.value) {
                Ok(v) => v,
                Err(_) => Ratio::zero(),
            };
        }
        SignedDecimal { value, is_positive: self.is_positive == rhs.is_positive || value.is_zero() }
    }

    /// Three-way comparison by sign first, then by magnitude. Note that it
    /// ranks a positive zero above a negative zero, although the two are
    /// equal under `==`.
    pub fn cmp(&self, other: &Self) -> (r: core::cmp::Ordering)
        ensures
            r == self.spec_cmp(*other),
    {
        if self.is_positive == other.is_positive {
            let less = if self.is_positive {
                self.value.lt(&other.value)
            } else {
                other.value.lt(&self.value)
            };
            let greater = if self.is_positive {
                other.value.lt(&self.value)
            } else {
                self.value.lt(&other.value)
            };
            if less {
                core::cmp::Ordering::Less
            } else if greater {
                core::cmp::Ordering::Greater
            } else {
                core::cmp::Ordering::Equal
            }
        } else if self.is_positive {
            core::cmp::Ordering::Greater
        } else {
            core::cmp::Ordering::Less
        }
    }

    /// The ordering [`SignedDecimal::cmp`] decides: any positive-flagged
    /// value ranks above any negative-flagged one (so a negative zero ranks
    /// below the positive zero, although `==` treats the two as equal), and
    /// within one sign the signed values compare directly.
    pub open spec fn spec_cmp(self, other: Self) -> core::cmp::Ordering {
        if self.spec_is_positive() == other.spec_is_positive() {
            if self.sval() < other.sval() {
                core::cmp::Ordering::Less
            } else if other.sval() < self.sval() {
                core::cmp::Ordering::Greater
            } else {
                core::cmp::Ordering::Equal
            }
        } else if self.spec_is_positive() {
            core::cmp::Ordering::Greater
        } else {
            core::cmp::Ordering::Less
        }
    }

    /// Parses an optional leading minus sign followed by a decimal string.
    /// The empty string is excluded, as the original read its first
    /// character unconditionally.
    pub fn from_str(text: &str) -> (r: NeptuneResult<SignedDecimal>)
        requires
            text.spec_bytes().len() > 0,
        ensures
            ({
                let bs = text.spec_bytes();
                let neg = bs[0] == 45;
                let mag = if neg {
                    bs.skip(1)
                } else {
                    bs
                };
                &&& !spec_decimal_wf(mag) ==> (r matches Err(e) && e is Conversion)
                &&& spec_decimal_wf(mag) && spec_decimal_atomics(mag) >= amount_bound() ==> (
                r matches Err(e) && e is Overflow)
                &&& spec_decimal_wf(mag) && spec_decimal_atomics(mag) < amount_bound() ==> (
                r matches Ok(v) && v.mag() == spec_decimal_atomics(mag) && v.spec_is_positive()
                    == !neg)
            }),
    {
        let b = text.as_bytes();
        let neg = b[0] == 45;
        let start: usize = if neg {
            1
        } else {
            0
        };
        proof {
            if !neg {
                assert(b@.skip(0) =~= b@);
            }
        }
        match crate::ratio::parse_decimal(b, start) {
            Ok(v) => Ok(SignedDecimal { value: v, is_positive: !neg }),
            Err(e) => Err(e),
        }
    }

    /// The magnitude as an unsigned ratio; a strictly negative value
    /// cannot convert and errs with `Conversion`.
    pub fn try_into_ratio(self) -> (r: NeptuneResult<Ratio>)
        ensures
            self.spec_is_positive() || self.mag() == 0 ==> (r matches Ok(v) && v.val()
                == self.mag()),
            !self.spec_is_positive() && self.mag() != 0 ==> (r matches Err(e) && e is Conversion),
    {
        if !self.is_positive && !self.value.is_zero() {
            return Err(NeptuneError::Conversion);
        }
        Ok(self.value)
    }
}

impl PartialEq for SignedDecimal {
    /// Equality of the numbers: the two zeros are one number.
    fn eq(&self, other: &Self) -> (r: bool) {
        if self.value.is_zero() {
            return other.value.is_zero();
        }
        self.value.atomics.eq_amount(&other.value.atomics) && self.is_positive
            == other.is_positive
    }
}

impl vstd::std_specs::cmp::PartialEqSpecImpl for SignedDecimal {
    open spec fn obeys_eq_spec() -> bool {
        true
    }

    open spec fn eq_spec(&self, other: &Self) -> bool {
        self.sval() == other.sval()
    }
}

impl Eq for SignedDecimal {

}

impl PartialOrd for SignedDecimal {
    /// Total order by sign first, then magnitude, as [`SignedDecimal::cmp`]
    /// decides it.
    fn partial_cmp(&self, other: &Self) -> (r: Option<core::cmp::Ordering>) {
        Some(self.cmp(other))
    }
}

impl vstd::std_specs::cmp::PartialOrdSpecImpl for SignedDecimal {
    open spec fn obeys_partial_cmp_spec() -> bool {
        true
    }

    open spec fn partial_cmp_spec(&self, other: &Self) -> Option<core::cmp::Ordering> {
        Some(self.spec_cmp(*other))
    }
}

impl From<Ratio> for SignedDecimal {
    /// An unsigned ratio is a positive number.
    fn from(value: Ratio) -> (r: Self) {
        SignedDecimal { value, is_positive: true }
    }
}

impl vstd::std_specs::convert::FromSpecImpl<Ratio> for SignedDecimal {
    open spec fn obeys_from_spec() -> bool {
        true
    }

    closed spec fn from_spec(value: Ratio) -> Self {
        SignedDecimal { value, is_positive: true }
    }
}

/// How the three views of a signed decimal fit together: the magnitude is
/// never negative, and the signed value is the magnitude carrying the sign
/// flag. With this, callers can recover the flag of any non-zero result
/// from its signed value, and the signed value of any result from its
/// magnitude and flag.
pub proof fn lemma_signed_parts(x: SignedDecimal)
    ensures
        x.mag() >= 0,
        x.sval() == if x.spec_is_positive() {
            x.mag()
        } else {
            -x.mag()
        },
{
}

/// What converting an unsigned ratio yields: the same magnitude, flagged
/// positive.
pub proof fn lemma_from_ratio(value: Ratio)
    ensures
        ({
            let r = <SignedDecimal as vstd::std_specs::convert::FromSpec<Ratio>>::from_spec(value);
            r.mag() == value.val() && r.spec_is_positive()
        }),
{
}

impl Default for SignedDecimal {
    /// The canonical positive zero.
    fn default() -> (r: Self)
        ensures
            r.sval() == 0,
            r.spec_is_positive(),
    {
        SignedDecimal { value: Ratio::zero(), is_positive: true }
    }
}

} // verus!
