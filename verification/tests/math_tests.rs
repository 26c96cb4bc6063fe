use std::str::FromStr;

use cosmwasm_std::Uint256;
use neptune_common::amount::Amount;
use neptune_common::error::NeptuneError;
use neptune_common::math::{checked_div, div_or_zero};
use neptune_common::ratio::Ratio;

fn amt(x: u128) -> Amount {
    Amount::from_u128(x)
}

#[test]
fn test_checked_div_precision() {
    assert_eq!(
        checked_div(
            amt(10_000_000_000_000_000_000_000u128),
            Ratio::from_str("10000000000000000000.0").unwrap()
        ),
        Ok(amt(1000))
    )
}

#[test]
fn test_div_or_zero() {
    assert!(div_or_zero(Amount::one(), Amount::zero()).is_zero());
    assert_eq!(div_or_zero(amt(3), amt(2)), Ratio::from_atomics(1_500_000_000_000_000_000));
}

#[test]
fn test_multiply_ratio_floors() {
    // 5 * 99 / 100 floors to 4.
    assert_eq!(amt(5).multiply_ratio(amt(99), amt(100)), amt(4));
}

#[test]
fn test_multiply_ratio_wide_intermediate() {
    // The product passes through 512 bits and comes back exact.
    let two_pow_192 = Amount { l0: 0, l1: 0, l2: 0, l3: 1 };
    let r = two_pow_192.multiply_ratio(amt(6), amt(3));
    assert_eq!(r, Amount { l0: 0, l1: 0, l2: 0, l3: 2 });
    // Cross-check a narrower case against the host numeric type.
    let ours = amt(123_456_789).multiply_ratio(amt(987_654_321), amt(1_000));
    let theirs = Uint256::from(123_456_789u128)
        .multiply_ratio(Uint256::from(987_654_321u128), Uint256::from(1_000u128));
    assert_eq!(Uint256::from_u128(ours.l0 as u128), theirs);
}

#[test]
fn test_checked_errors() {
    let max = Amount { l0: u64::MAX, l1: u64::MAX, l2: u64::MAX, l3: u64::MAX };
    assert_eq!(max.checked_add(Amount::one()), None);
    assert_eq!(
        max.checked_multiply_ratio(amt(3), amt(2)),
        Err(NeptuneError::Overflow)
    );
    assert_eq!(
        amt(1).checked_multiply_ratio(amt(1), amt(0)),
        Err(NeptuneError::DivideByZero)
    );
    assert_eq!(checked_div(amt(1), Ratio::zero()), Err(NeptuneError::DivideByZero));
    assert_eq!(
        checked_div(max, Ratio::from_atomics(1)),
        Err(NeptuneError::Conversion)
    );
    assert_eq!(Ratio::from_str("12a"), Err(NeptuneError::Conversion));
    assert_eq!(Ratio::from_str(""), Err(NeptuneError::Conversion));
    assert_eq!(Ratio::from_str("1."), Err(NeptuneError::Conversion));
    assert_eq!(Ratio::from_str(".5"), Err(NeptuneError::Conversion));
    assert_eq!(Ratio::from_str("1.0000000000000000009"), Err(NeptuneError::Conversion));
    // 2^256 atomic units does not fit.
    assert_eq!(
        Ratio::from_str(
            "115792089237316195423570985008687907853269984665640564039457584007913129639936"
        ),
        Err(NeptuneError::Overflow)
    );
}

#[test]
fn test_from_str_values() {
    assert_eq!(Ratio::from_str("0").unwrap(), Ratio::zero());
    assert_eq!(Ratio::from_str("1").unwrap(), Ratio::one());
    assert_eq!(Ratio::from_str("1.5").unwrap(), Ratio::from_atomics(1_500_000_000_000_000_000));
    assert_eq!(Ratio::from_str("007").unwrap(), Ratio::from_int(7));
    assert_eq!(
        Ratio::from_str("0.000000000000000001").unwrap(),
        Ratio::from_atomics(1)
    );
    // The largest representable value parses exactly.
    let max_text =
        "115792089237316195423570985008687907853269984665640564039457.584007913129639935";
    let max = Amount { l0: u64::MAX, l1: u64::MAX, l2: u64::MAX, l3: u64::MAX };
    assert_eq!(Ratio::from_str(max_text).unwrap(), Ratio { atomics: max });
}

#[test]
fn test_saturating_sub() {
    assert_eq!(amt(5).saturating_sub(amt(7)), Amount::zero());
    assert_eq!(amt(7).saturating_sub(amt(5)), amt(2));
}

#[test]
fn test_checked_div_amt() {
    assert_eq!(amt(17).checked_div_amt(amt(5)), Ok(amt(3)));
    assert_eq!(amt(17).checked_div_amt(amt(0)), Err(NeptuneError::DivideByZero));
}
