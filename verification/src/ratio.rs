//! Unsigned fixed-point ratios with eighteen decimal places.
//!
//! A [`Ratio`] is a count of atomic `10^-18` units held in an [`Amount`], so
//! it shares the 256-bit range and the overflow-checked arithmetic. Every
//! operation floors, matching the pool engine's rounding policy.

use vstd::prelude::*;
use vstd::string::StringSliceAdditionalSpecFns;

use crate::amount::{amount_bound, spec_mul_div, Amount};
use crate::error::{NeptuneError, NeptuneResult};

verus! {

/// Number of atomic units in one whole: 10^18.
pub open spec fn ratio_scale() -> int {
    1_000_000_000_000_000_000
}

/// A non-negative fixed-point fraction: `atomics / 10^18`.
#[derive(Clone, Copy, Debug, PartialEq, Eq, Structural)]
pub struct Ratio {
    pub atomics: Amount,
}

impl Default for Ratio {
    /// The zero ratio.
    fn default() -> (r: Self)
        ensures
            r.val() == 0,
    {
        Ratio { atomics: Amount::zero() }
    }
}

impl Ratio {
    /// The count of atomic units this ratio stands for; the fraction itself
    /// is this value over [`ratio_scale`].
    pub open spec fn val(&self) -> int {
        self.atomics.val()
    }

    pub fn zero() -> (r: Ratio)
        ensures
            r.val() == 0,
    {
        Ratio { atomics: Amount::zero() }
    }

    pub fn one() -> (r: Ratio)
        ensures
            r.val() == ratio_scale(),
    {
        Ratio { atomics: Amount::from_u128(1_000_000_000_000_000_000) }
    }

    /// One whole, as an amount of atomic units.
    pub(crate) fn scale_amount() -> (r: Amount)
        ensures
            r.val() == ratio_scale(),
    {
        Amount::from_u128(1_000_000_000_000_000_000)
    }

    /// The ratio `x / 10^18` from a raw count of atomic units.
    pub fn from_atomics(x: u128) -> (r: Ratio)
        ensures
            r.val() == x,
    {
        Ratio { atomics: Amount::from_u128(x) }
    }

    /// The whole number `x`, as a ratio.
    pub fn from_int(x: u64) -> (r: Ratio)
        ensures
            r.val() == x * ratio_scale(),
    {
        proof {
            vstd::arithmetic::mul::lemma_mul_upper_bound(
                x as int,
                0xFFFF_FFFF_FFFF_FFFF,
                ratio_scale(),
                ratio_scale(),
            );
        }
        Ratio { atomics: Amount::from_u128((x as u128) * 1_000_000_000_000_000_000) }
    }

    pub fn is_zero(&self) -> (r: bool)
        ensures
            r <==> self.val() == 0,
    {
        self.atomics.is_zero()
    }

    /// Exact comparison on the represented fractions.
    pub fn lt(&self, other: &Ratio) -> (r: bool)
        ensures
            r <==> self.val() < other.val(),
    {
        self.atomics.lt(&other.atomics)
    }

    /// Exact comparison on the represented fractions.
    pub fn le(&self, other: &Ratio) -> (r: bool)
        ensures
            r <==> self.val() <= other.val(),
    {
        self.atomics.le(&other.atomics)
    }

    /// The fraction `numerator / denominator`, floored to atomic units.
    /// Errs with `DivideByZero` on a zero denominator and with `Overflow`
    /// when the scaled quotient does not fit.
    pub fn checked_from_ratio(numerator: Amount, denominator: Amount) -> (r: NeptuneResult<Ratio>)
        ensures
            denominator.val() == 0 ==> (r matches Err(e) && e is DivideByZero),
            denominator.val() != 0 && spec_mul_div(numerator.val(), ratio_scale(), denominator.val())
                < amount_bound() ==> (r matches Ok(v) && v.val() == spec_mul_div(
                numerator.val(),
                ratio_scale(),
                denominator.val(),
            )),
            denominator.val() != 0 && spec_mul_div(numerator.val(), ratio_scale(), denominator.val())
                >= amount_bound() ==> (r matches Err(e) && e is Overflow),
    {
        match numerator.checked_multiply_ratio(Ratio::scale_amount(), denominator) {
            Ok(v) => Ok(Ratio { atomics: v }),
            Err(e) => Err(e),
        }
    }

    /// The fraction `numerator / denominator` for callers that know the
    /// denominator is non-zero and the scaled quotient fits.
    pub fn from_ratio(numerator: Amount, denominator: Amount) -> (r: Ratio)
        requires
            denominator.val() != 0,
            spec_mul_div(numerator.val(), ratio_scale(), denominator.val()) < amount_bound(),
        ensures
            r.val() == spec_mul_div(numerator.val(), ratio_scale(), denominator.val()),
    {
        match Ratio::checked_from_ratio(numerator, denominator) {
            Ok(v) => v,
            Err(_) => Ratio::zero(),
        }
    }

    /// Sum, erring with `Overflow` when it leaves the representable range.
    pub fn checked_add(self, rhs: Ratio) -> (r: NeptuneResult<Ratio>)
        ensures
            self.val() + rhs.val() < amount_bound() ==> (r matches Ok(v) && v.val() == self.val()
                + rhs.val()),
            self.val() + rhs.val() >= amount_bound() ==> (r matches Err(e) && e is Overflow),
    {
        match self.atomics.checked_add(rhs.atomics) {
            Some(v) => Ok(Ratio { atomics: v }),
            None => Err(NeptuneError::Overflow),
        }
    }

    /// Sum of two ratios that is known to fit.
    pub fn add_ratio(self, rhs: Ratio) -> (r: Ratio)
        requires
            self.val() + rhs.val() < amount_bound(),
        ensures
            r.val() == self.val() + rhs.val(),
    {
        match self.checked_add(rhs) {
            Ok(v) => v,
            Err(_) => Ratio::zero(),
        }
    }

    /// Difference of two ratios where `rhs` is known not to exceed `self`.
    pub fn sub_ratio(self, rhs: Ratio) -> (r: Ratio)
        requires
            self.val() >= rhs.val(),
        ensures
            r.val() == self.val() - rhs.val(),
    {
        Ratio { atomics: self.atomics.sub_amt(rhs.atomics) }
    }

    /// Product of two fractions, floored to atomic units.
    pub fn checked_mul(self, rhs: Ratio) -> (r: NeptuneResult<Ratio>)
        ensures
            spec_mul_div(self.val(), rhs.val(), ratio_scale()) < amount_bound() ==> (r matches Ok(v)
                && v.val() == spec_mul_div(self.val(), rhs.val(), ratio_scale())),
            spec_mul_div(self.val(), rhs.val(), ratio_scale()) >= amount_bound() ==> (r matches Err(
                e,
            ) && e is Overflow),
    {
        match self.atomics.checked_multiply_ratio(rhs.atomics, Ratio::scale_amount()) {
            Ok(v) => Ok(Ratio { atomics: v }),
            Err(e) => Err(e),
        }
    }

    /// Quotient of two fractions, floored to atomic units. Errs with
    /// `DivideByZero` on a zero divisor and with `Overflow` when the scaled
    /// quotient does not fit.
    pub fn checked_div(self, rhs: Ratio) -> (r: NeptuneResult<Ratio>)
        ensures
            rhs.val() == 0 ==> (r matches Err(e) && e is DivideByZero),
            rhs.val() != 0 && spec_mul_div(self.val(), ratio_scale(), rhs.val()) < amount_bound()
                ==> (r matches Ok(v) && v.val() == spec_mul_div(
                self.val(),
                ratio_scale(),
                rhs.val(),
            )),
            rhs.val() != 0 && spec_mul_div(self.val(), ratio_scale(), rhs.val()) >= amount_bound()
                ==> (r matches Err(e) && e is Overflow),
    {
        match self.atomics.checked_multiply_ratio(Ratio::scale_amount(), rhs.atomics) {
            Ok(v) => Ok(Ratio { atomics: v }),
            Err(e) => Err(e),
        }
    }
}

impl Amount {
    /// `self * ratio`, floored: the value of `self` units at a fractional
    /// price. Errs with `Overflow` exactly when the result does not fit.
    pub fn checked_mul_ratio(self, ratio: Ratio) -> (r: NeptuneResult<Amount>)
        ensures
            spec_mul_div(self.val(), ratio.val(), ratio_scale()) < amount_bound() ==> (r matches Ok(
                v,
            ) && v.val() == spec_mul_div(self.val(), ratio.val(), ratio_scale())),
            spec_mul_div(self.val(), ratio.val(), ratio_scale()) >= amount_bound() ==> (r matches Err(
                e,
            ) && e is Overflow),
    {
        match self.checked_multiply_ratio(ratio.atomics, Ratio::scale_amount()) {
            Ok(v) => Ok(v),
            Err(e) => Err(e),
        }
    }

    /// `self * ratio` floored, for callers that know the result fits.
    pub fn mul_ratio(self, ratio: Ratio) -> (r: Amount)
        requires
            spec_mul_div(self.val(), ratio.val(), ratio_scale()) < amount_bound(),
        ensures
            r.val() == spec_mul_div(self.val(), ratio.val(), ratio_scale()),
    {
        match self.checked_mul_ratio(ratio) {
            Ok(v) => v,
            Err(_) => Amount::zero(),
        }
    }

    /// `self / ratio`, floored. Errs with `DivideByZero` on a zero ratio and
    /// with `Overflow` when the quotient does not fit.
    pub fn checked_div_ratio(self, ratio: Ratio) -> (r: NeptuneResult<Amount>)
        ensures
            ratio.val() == 0 ==> (r matches Err(e) && e is DivideByZero),
            ratio.val() != 0 && spec_mul_div(self.val(), ratio_scale(), ratio.val())
                < amount_bound() ==> (r matches Ok(v) && v.val() == spec_mul_div(
                self.val(),
                ratio_scale(),
                ratio.val(),
            )),
            ratio.val() != 0 && spec_mul_div(self.val(), ratio_scale(), ratio.val())
                >= amount_bound() ==> (r matches Err(e) && e is Overflow),
    {
        match self.checked_multiply_ratio(Ratio::scale_amount(), ratio.atomics) {
            Ok(v) => Ok(v),
            Err(e) => Err(e),
        }
    }
}

} // verus!

verus! {

/// An ASCII digit.
pub open spec fn spec_is_digit(b: u8) -> bool {
    48 <= b <= 57
}

pub open spec fn spec_all_digits(s: Seq<u8>) -> bool {
    forall|i: int| 0 <= i < s.len() ==> spec_is_digit(#[trigger] s[i])
}

/// The integer a string of ASCII digits names, most significant first.
pub open spec fn spec_digits_val(s: Seq<u8>) -> int
    decreases s.len(),
{
    if s.len() == 0 {
        0
    } else {
        spec_digits_val(s.drop_last()) * 10 + (s.last() - 48)
    }
}

/// `n` ASCII zeros.
pub open spec fn spec_zero_bytes(n: int) -> Seq<u8> {
    Seq::new(n as nat, |i: int| 48u8)
}

/// Whether byte `j` is the first decimal point.
pub open spec fn spec_dot_pred(s: Seq<u8>, j: int) -> bool {
    0 <= j < s.len() && s[j] == 46 && (forall|l: int| 0 <= l < j ==> s[l] != 46)
}

pub open spec fn spec_has_dot(s: Seq<u8>) -> bool {
    exists|j: int| spec_dot_pred(s, j)
}

pub open spec fn spec_dot_pos(s: Seq<u8>) -> int {
    choose|j: int| spec_dot_pred(s, j)
}

/// The shape of a decimal string: one or more digits, optionally followed
/// by a point and one to eighteen fractional digits.
pub open spec fn spec_decimal_wf(s: Seq<u8>) -> bool {
    if spec_has_dot(s) {
        let d = spec_dot_pos(s);
        &&& d >= 1
        &&& spec_all_digits(s.take(d))
        &&& 1 <= s.len() - d - 1 <= 18
        &&& spec_all_digits(s.skip(d + 1))
    } else {
        s.len() >= 1 && spec_all_digits(s)
    }
}

/// The digit string whose integer value is the atomic count: the written
/// digits with the point removed, padded with zeros to eighteen decimal
/// places.
pub open spec fn spec_decimal_digits(s: Seq<u8>) -> Seq<u8> {
    if spec_has_dot(s) {
        let d = spec_dot_pos(s);
        s.take(d) + s.skip(d + 1) + spec_zero_bytes(18 - (s.len() - d - 1))
    } else {
        s + spec_zero_bytes(18)
    }
}

/// The atomic count a well-formed decimal string names.
pub open spec fn spec_decimal_atomics(s: Seq<u8>) -> int {
    spec_digits_val(spec_decimal_digits(s))
}

proof fn lemma_digits_val_nonneg(s: Seq<u8>)
    requires
        spec_all_digits(s),
    ensures
        spec_digits_val(s) >= 0,
    decreases s.len(),
{
    if s.len() > 0 {
        assert(spec_all_digits(s.drop_last())) by {
            assert(forall|i: int| 0 <= i < s.len() - 1 ==> s.drop_last()[i] == s[i]);
        }
        lemma_digits_val_nonneg(s.drop_last());
    }
}

/// A digit string is worth at least any of its prefixes.
proof fn lemma_digits_val_prefix_le(s: Seq<u8>, j: int)
    requires
        spec_all_digits(s),
        0 <= j <= s.len(),
    ensures
        spec_digits_val(s.take(j)) <= spec_digits_val(s),
    decreases s.len() - j,
{
    if j == s.len() {
        assert(s.take(j) =~= s);
    } else {
        assert(spec_all_digits(s.take(j))) by {
            assert(forall|i: int| 0 <= i < j ==> s.take(j)[i] == s[i]);
        }
        lemma_digits_val_nonneg(s.take(j));
        assert(s.take(j + 1).drop_last() =~= s.take(j));
        assert(s.take(j + 1).last() == s[j]);
        assert(spec_digits_val(s.take(j + 1)) == spec_digits_val(s.take(j)) * 10 + (s[j] - 48));
        lemma_digits_val_prefix_le(s, j + 1);
    }
}

/// One column of the base-ten accumulation, or `None` when the value would
/// leave the amount range.
fn checked_mul10_add(acc: Amount, digit: u8) -> (r: Option<Amount>)
    requires
        48 <= digit <= 57,
    ensures
        r matches Some(v) ==> v.val() == 10 * acc.val() + (digit - 48),
        r is Some <==> 10 * acc.val() + (digit - 48) < amount_bound(),
{
    let a2 = match acc.checked_add(acc) {
        Some(v) => v,
        None => {
            return None;
        },
    };
    let a4 = match a2.checked_add(a2) {
        Some(v) => v,
        None => {
            return None;
        },
    };
    let a8 = match a4.checked_add(a4) {
        Some(v) => v,
        None => {
            return None;
        },
    };
    let a10 = match a8.checked_add(a2) {
        Some(v) => v,
        None => {
            return None;
        },
    };
    a10.checked_add(Amount::from_u128((digit - 48) as u128))
}

impl Ratio {
    /// Parses a decimal string — digits, optionally a point and up to
    /// eighteen fractional digits — into the ratio it names, exactly.
    /// A malformed string errs with `Conversion`; a value at or above
    /// 2^256 atomic units errs with `Overflow`.
    pub fn from_str(text: &str) -> (r: NeptuneResult<Ratio>)
        ensures
            !spec_decimal_wf(text.spec_bytes()) ==> (r matches Err(e) && e is Conversion),
            spec_decimal_wf(text.spec_bytes()) && spec_decimal_atomics(text.spec_bytes())
                < amount_bound() ==> (r matches Ok(v) && v.val() == spec_decimal_atomics(
                text.spec_bytes(),
            )),
            spec_decimal_wf(text.spec_bytes()) && spec_decimal_atomics(text.spec_bytes())
                >= amount_bound() ==> (r matches Err(e) && e is Overflow),
    {
        let b = text.as_bytes();
        proof {
            assert(b@.skip(0) =~= b@);
        }
        parse_decimal(b, 0)
    }
}

/// Parses the decimal string in `b` from position `start` on.
pub(crate) fn parse_decimal(b: &[u8], start: usize) -> (r: NeptuneResult<Ratio>)
    requires
        start <= b@.len(),
    ensures
        !spec_decimal_wf(b@.skip(start as int)) ==> (r matches Err(e) && e is Conversion),
        spec_decimal_wf(b@.skip(start as int)) && spec_decimal_atomics(b@.skip(start as int))
            < amount_bound() ==> (r matches Ok(v) && v.val() == spec_decimal_atomics(
            b@.skip(start as int),
        )),
        spec_decimal_wf(b@.skip(start as int)) && spec_decimal_atomics(b@.skip(start as int))
            >= amount_bound() ==> (r matches Err(e) && e is Overflow),
{
    let ghost s = b@.skip(start as int);
    let n = b.len();
    proof {
        assert(forall|l: int| 0 <= l < s.len() ==> s[l] == b@[start + l]);
    }
    // Find the first decimal point.
    let mut i: usize = start;
    let mut dot: usize = n;
    let mut found_dot = false;
    while i < n && !found_dot
        invariant
            start <= i <= n,
            n == b@.len(),
            s == b@.skip(start as int),
            s.len() == n - start,
            forall|l: int| 0 <= l < s.len() ==> s[l] == b@[start + l],
            !found_dot ==> forall|l: int| 0 <= l < i - start ==> s[l] != 46,
            found_dot ==> dot == i && spec_dot_pred(s, i - start),
        decreases n - i + (if found_dot {
            0int
        } else {
            1int
        }),
    {
        if b[i] == 46 {
            dot = i;
            found_dot = true;
        } else {
            i += 1;
        }
    }
    proof {
        if found_dot {
            assert(spec_has_dot(s));
            let jj = spec_dot_pos(s);
            assert(spec_dot_pred(s, jj));
            if jj < dot - start {
                assert(s[jj] != 46);
            } else if dot - start < jj {
                assert(s[dot - start] != 46);
            }
            assert(spec_dot_pos(s) == dot - start);
        } else {
            assert(!spec_has_dot(s)) by {
                if spec_has_dot(s) {
                    let jj = spec_dot_pos(s);
                    assert(spec_dot_pred(s, jj));
                    assert(s[jj] != 46);
                }
            }
        }
    }
    let int_end = if found_dot {
        dot
    } else {
        n
    };
    if int_end == start {
        return Err(NeptuneError::Conversion);
    }
    // Validate the integer digits.
    let mut i: usize = start;
    while i < int_end
        invariant
            start <= i <= int_end <= n,
            n == b@.len(),
            s == b@.skip(start as int),
            s.len() == n - start,
            forall|l: int| 0 <= l < s.len() ==> s[l] == b@[start + l],
            found_dot ==> spec_has_dot(s) && spec_dot_pos(s) == int_end - start,
            !found_dot ==> !spec_has_dot(s) && int_end == n,
            forall|l: int| 0 <= l < i - start ==> spec_is_digit(#[trigger] s[l]),
        decreases int_end - i,
    {
        let c = b[i];
        if c < 48 || c > 57 {
            proof {
                assert(!spec_is_digit(s[i - start]));
                if found_dot {
                    assert(s.take(int_end - start)[i - start] == s[i - start]);
                } else {
                    assert(!spec_all_digits(s));
                }
            }
            return Err(NeptuneError::Conversion);
        }
        i += 1;
    }
    // Validate the fractional digits.
    let frac_len: usize = if found_dot {
        n - dot - 1
    } else {
        0
    };
    if found_dot {
        if frac_len == 0 || frac_len > 18 {
            return Err(NeptuneError::Conversion);
        }
        let mut i: usize = dot + 1;
        while i < n
            invariant
                dot + 1 <= i <= n,
                n == b@.len(),
                s == b@.skip(start as int),
                s.len() == n - start,
                start <= dot < n,
                forall|l: int| 0 <= l < s.len() ==> s[l] == b@[start + l],
                spec_has_dot(s) && spec_dot_pos(s) == dot - start,
                forall|l: int|
                    0 <= l < i - dot - 1 ==> spec_is_digit(#[trigger] s.skip(dot - start + 1)[l]),
            decreases n - i,
        {
            let c = b[i];
            proof {
                assert(s.skip(dot - start + 1)[i - dot - 1] == s[i - start]);
                assert(s[i - start] == b@[i as int]);
            }
            if c < 48 || c > 57 {
                proof {
                    assert(!spec_is_digit(s.skip(dot - start + 1)[i - dot - 1]));
                }
                return Err(NeptuneError::Conversion);
            }
            i += 1;
        }
    }
    proof {
        assert(spec_decimal_wf(s)) by {
            if spec_has_dot(s) {
                let d = spec_dot_pos(s);
                assert(spec_all_digits(s.take(d))) by {
                    assert(forall|l: int| 0 <= l < d ==> s.take(d)[l] == s[l]);
                }
            }
        }
    }
    // Collect the digit string: integer digits, fractional digits, padding.
    let ghost digits = spec_decimal_digits(s);
    let mut dvec: Vec<u8> = Vec::new();
    let mut i: usize = start;
    while i < int_end
        invariant
            start <= i <= int_end <= n,
            n == b@.len(),
            s == b@.skip(start as int),
            s.len() == n - start,
            forall|l: int| 0 <= l < s.len() ==> s[l] == b@[start + l],
            forall|l: int| 0 <= l < int_end - start ==> spec_is_digit(#[trigger] s[l]),
            dvec@ =~= s.take(i - start),
        decreases int_end - i,
    {
        dvec.push(b[i]);
        proof {
            assert(dvec@ =~= s.take(i - start + 1));
        }
        i += 1;
    }
    if found_dot {
        let mut i: usize = dot + 1;
        while i < n
            invariant
                dot + 1 <= i <= n,
                n == b@.len(),
                s == b@.skip(start as int),
                s.len() == n - start,
                start <= dot < n,
                int_end == dot,
                forall|l: int| 0 <= l < s.len() ==> s[l] == b@[start + l],
                forall|l: int| 0 <= l < int_end - start ==> spec_is_digit(#[trigger] s[l]),
                forall|l: int|
                    0 <= l < n - dot - 1 ==> spec_is_digit(#[trigger] s.skip(dot - start + 1)[l]),
                dvec@ =~= s.take(dot - start) + s.skip(dot - start + 1).take(i - dot - 1),
            decreases n - i,
        {
            dvec.push(b[i]);
            proof {
                assert(s.skip(dot - start + 1)[i - dot - 1] == s[i - start]);
                assert(dvec@ =~= s.take(dot - start) + s.skip(dot - start + 1).take(i - dot));
            }
            i += 1;
        }
    }
    let pad = 18 - frac_len;
    let mut k: usize = 0;
    while k < pad
        invariant
            k <= pad,
            pad == 18 - frac_len,
            n == b@.len(),
            s == b@.skip(start as int),
            s.len() == n - start,
            start <= int_end <= n,
            found_dot ==> start <= dot < n && int_end == dot && frac_len == n - dot - 1,
            !found_dot ==> int_end == n && frac_len == 0,
            found_dot ==> dvec@ =~= s.take(int_end - start) + s.skip(int_end - start + 1)
                + spec_zero_bytes(k as int),
            !found_dot ==> dvec@ =~= s + spec_zero_bytes(k as int),
        decreases pad - k,
    {
        dvec.push(48);
        proof {
            assert(spec_zero_bytes(k + 1) =~= spec_zero_bytes(k as int).push(48u8));
            if found_dot {
                assert(dvec@ =~= s.take(int_end - start) + s.skip(int_end - start + 1)
                    + spec_zero_bytes(k + 1));
            } else {
                assert(dvec@ =~= s + spec_zero_bytes(k + 1));
            }
        }
        k += 1;
    }
    proof {
        if found_dot {
            assert(s.skip(dot - start + 1).take(n - dot - 1) =~= s.skip(dot - start + 1));
        }
        assert(dvec@ =~= digits);
        assert(spec_all_digits(digits)) by {
            assert forall|l: int| 0 <= l < digits.len() implies spec_is_digit(
                #[trigger] digits[l],
            ) by {
                assert(digits[l] == dvec@[l]);
                if found_dot {
                    if l < int_end - start {
                        assert(digits[l] == s[l]);
                    } else if l < int_end - start + (n - dot - 1) {
                        assert(digits[l] == s.skip(dot - start + 1)[l - (int_end - start)]);
                    } else {
                        assert(digits[l] == spec_zero_bytes(pad as int)[l - (int_end - start) - (n
                            - dot - 1)]);
                    }
                } else {
                    if l < s.len() {
                        assert(digits[l] == s[l]);
                    } else {
                        assert(digits[l] == spec_zero_bytes(18)[l - s.len()]);
                    }
                }
            }
        }
    }
    // Accumulate the digit string's value.
    let dn = dvec.len();
    let mut acc = Amount::zero();
    let mut j: usize = 0;
    proof {
        assert(digits.take(0) =~= Seq::<u8>::empty());
    }
    while j < dn
        invariant
            j <= dn,
            dn == dvec@.len(),
            dvec@ == digits,
            spec_all_digits(digits),
            s == b@.skip(start as int),
            digits == spec_decimal_digits(s),
            spec_decimal_wf(s),
            acc.val() == spec_digits_val(digits.take(j as int)),
        decreases dn - j,
    {
        let c = dvec[j];
        proof {
            assert(spec_is_digit(digits[j as int]));
            assert(digits.take(j + 1).drop_last() =~= digits.take(j as int));
            assert(digits.take(j + 1).last() == digits[j as int]);
        }
        acc = match checked_mul10_add(acc, c) {
            Some(v) => v,
            None => {
                proof {
                    assert(spec_digits_val(digits.take(j + 1)) >= amount_bound());
                    lemma_digits_val_prefix_le(digits, j + 1);
                }
                return Err(NeptuneError::Overflow);
            },
        };
        j += 1;
    }
    proof {
        assert(digits.take(dn as int) =~= digits);
    }
    Ok(Ratio { atomics: acc })
}

} // verus!
