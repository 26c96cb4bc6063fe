use std::cmp::Ordering;
use std::str::FromStr;

use neptune_common::ratio::Ratio;
use neptune_common::signed_decimal::SignedDecimal;

#[test]
fn signed_decimal_test() {
    let big_pos = SignedDecimal::from_str("100").unwrap();
    let big_neg = SignedDecimal::from_str("-100").unwrap();
    let small_pos = SignedDecimal::from_str("50").unwrap();
    let small_neg = SignedDecimal::from_str("-50").unwrap();
    let dec_neg = SignedDecimal::from_str("-50.50").unwrap();

    let big_pos_f64 = f64::from_str("100").unwrap();
    let big_neg_f64 = f64::from_str("-100").unwrap();
    let small_pos_f64 = f64::from_str("50").unwrap();
    let small_neg_f64 = f64::from_str("-50").unwrap();
    let dec_neg_f64 = f64::from_str("-50.50").unwrap();

    // Test partial_cmp
    assert!(big_pos > big_neg);
    assert!(big_pos > small_neg);
    assert!(big_pos > small_pos);
    assert!(big_pos > big_neg);
    assert!(small_pos > small_neg);
    assert!(small_pos > big_neg);
    assert!(small_neg > big_neg);

    // Utility function
    fn f64_to_signed_decimal(val: f64) -> SignedDecimal {
        SignedDecimal::from_str(val.to_string().as_str()).unwrap()
    }

    // Test mul
    assert!(big_pos.mul_sd(small_pos) == f64_to_signed_decimal(big_pos_f64 * small_pos_f64));
    assert!(big_pos.mul_sd(small_neg) == f64_to_signed_decimal(big_pos_f64 * small_neg_f64));
    assert!(big_pos.mul_sd(big_neg) == f64_to_signed_decimal(big_pos_f64 * big_neg_f64));
    assert!(small_pos.mul_sd(small_neg) == f64_to_signed_decimal(small_pos_f64 * small_neg_f64));
    assert!(small_pos.mul_sd(big_neg) == f64_to_signed_decimal(small_pos_f64 * big_neg_f64));
    assert!(small_neg.mul_sd(big_neg) == f64_to_signed_decimal(small_neg_f64 * big_neg_f64));

    // Test div
    assert!(big_pos.div_sd(small_pos) == f64_to_signed_decimal(big_pos_f64 / small_pos_f64));
    assert!(big_pos.div_sd(small_neg) == f64_to_signed_decimal(big_pos_f64 / small_neg_f64));
    assert!(big_pos.div_sd(big_neg) == f64_to_signed_decimal(big_pos_f64 / big_neg_f64));
    assert!(small_pos.div_sd(small_neg) == f64_to_signed_decimal(small_pos_f64 / small_neg_f64));
    assert!(small_pos.div_sd(big_neg) == f64_to_signed_decimal(small_pos_f64 / big_neg_f64));
    assert!(small_neg.div_sd(big_neg) == f64_to_signed_decimal(small_neg_f64 / big_neg_f64));

    // Test add
    assert!(big_pos.add_sd(small_pos) == f64_to_signed_decimal(big_pos_f64 + small_pos_f64));
    assert!(big_pos.add_sd(small_neg) == f64_to_signed_decimal(big_pos_f64 + small_neg_f64));
    assert!(big_pos.add_sd(big_neg) == f64_to_signed_decimal(big_pos_f64 + big_neg_f64));
    assert!(small_pos.add_sd(small_neg) == f64_to_signed_decimal(small_pos_f64 + small_neg_f64));
    assert!(small_pos.add_sd(big_neg) == f64_to_signed_decimal(small_pos_f64 + big_neg_f64));
    assert!(small_neg.add_sd(big_neg) == f64_to_signed_decimal(small_neg_f64 + big_neg_f64));

    // Test sub
    assert!(big_pos.sub_sd(small_pos) == f64_to_signed_decimal(big_pos_f64 - small_pos_f64));
    assert!(big_pos.sub_sd(small_neg) == f64_to_signed_decimal(big_pos_f64 - small_neg_f64));
    assert!(big_pos.sub_sd(big_neg) == f64_to_signed_decimal(big_pos_f64 - big_neg_f64));
    assert!(small_pos.sub_sd(small_neg) == f64_to_signed_decimal(small_pos_f64 - small_neg_f64));
    assert!(small_pos.sub_sd(big_neg) == f64_to_signed_decimal(small_pos_f64 - big_neg_f64));
    assert!(small_neg.sub_sd(big_neg) == f64_to_signed_decimal(small_neg_f64 - big_neg_f64));

    // Test conversion
    assert!(big_pos == f64_to_signed_decimal(big_pos_f64));
    assert!(big_neg == f64_to_signed_decimal(big_neg_f64));
    assert!(small_pos == f64_to_signed_decimal(small_pos_f64));
    assert!(small_neg == f64_to_signed_decimal(small_neg_f64));
    assert!(dec_neg == f64_to_signed_decimal(dec_neg_f64));

    // Test division by zero
    let num = SignedDecimal::one();
    let denom = SignedDecimal::zero();
    assert_eq!(num.div_sd(denom), SignedDecimal::zero());

    // Test try_into
    {
        let x = SignedDecimal::one().neg_sd();
        x.try_into_ratio().expect_err("Should throw error for negatives");

        let y = SignedDecimal::one();
        let _: Ratio = y.try_into_ratio().expect("Should be able to convert");
    }

    // Test cmp
    {
        let lhs = SignedDecimal::one().neg_sd();
        let rhs = SignedDecimal::one();
        assert_eq!(lhs.cmp(&rhs), Ordering::Less);
        assert_eq!(rhs.cmp(&lhs), Ordering::Greater);
        assert_eq!(rhs.cmp(&rhs), Ordering::Equal);

        let x = SignedDecimal::from_str("50").unwrap();
        let y = SignedDecimal::from_str("10").unwrap();
        assert_eq!(x.cmp(&y), Ordering::Greater);
        assert_eq!(y.cmp(&x), Ordering::Less);
        let z = SignedDecimal::from_str("50").unwrap();
        assert_eq!(x.cmp(&z), Ordering::Equal);
    }

    {
        let x = Ratio::default();
        let z = SignedDecimal::from(x);
        let y = SignedDecimal::default();
        assert_eq!(z, y);
    }
}

#[test]
fn test_sign_fns() {
    let mut sd =
        SignedDecimal::from_str("4.1243").expect("have to be able to SignedDecimal::from_str");
    assert!(sd.is_positive());
    assert!(!sd.is_negative());

    sd = sd.neg_sd();
    assert!(!sd.is_positive());
    assert!(sd.is_negative());

    sd = sd.abs();
    assert!(sd.is_positive());
    assert!(!sd.is_negative());
}

#[test]
fn test_zero_is_positive() {
    {
        let mut x = SignedDecimal::zero();
        let y = SignedDecimal::one().neg_sd();

        x = x.mul_sd(y);
        assert!(x.is_positive());

        x = y.mul_sd(x);
        assert!(x.is_positive());

        x = x.div_sd(y);
        assert!(x.is_positive());

        x = x.add_sd(y);
        x = x.sub_sd(y);
        assert!(x.is_positive());

        x = x.sub_sd(y);
        x = x.add_sd(y);
        assert!(x.is_positive());
    }
    {
        let x = SignedDecimal::one().mul_sd(SignedDecimal::from_str("5.0").unwrap());
        let y = SignedDecimal::one().mul_sd(SignedDecimal::from_str("-5.0").unwrap());

        let z = x.add_sd(y);
        assert!(z.is_positive());

        let z = x.neg_sd().sub_sd(y);
        assert!(z.is_positive());
    }
    {
        let x = SignedDecimal::zero().neg_sd();
        assert!(x.is_positive());
    }
    {
        let x = SignedDecimal::zero().neg_sd();
        assert!(x.is_positive());
    }
    {
        let x = SignedDecimal::zero().neg_sd();
        let y = SignedDecimal::from_str("5.0").unwrap();

        let z = x.mul_sd(y);
        assert!(z.is_positive());

        let z = y.mul_sd(x);
        assert!(z.is_positive());
    }
}
