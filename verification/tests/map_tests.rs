use neptune_common::amount::Amount;
use neptune_common::error::NeptuneError;
use neptune_common::neptune_map::NeptuneMap;
use neptune_common::parser::tuple_parser;
use neptune_common::ratio::Ratio;
use neptune_common::warning::NeptuneWarning;

fn amt(x: u128) -> Amount {
    Amount::from_u128(x)
}

fn amount_map(pairs: &[(&str, u128)]) -> NeptuneMap<String, Amount> {
    let mut m = NeptuneMap::new();
    for (k, v) in pairs {
        m.insert(k.to_string(), amt(*v));
    }
    m
}

fn ratio_map(pairs: &[(&str, u64)]) -> NeptuneMap<String, Ratio> {
    let mut m = NeptuneMap::new();
    for (k, v) in pairs {
        m.insert(k.to_string(), Ratio::from_int(*v));
    }
    m
}

fn as_pairs(m: NeptuneMap<String, Amount>) -> Vec<(String, u128)> {
    m.into_pairs()
        .into_iter()
        .map(|(k, v)| {
            assert_eq!((v.l1, v.l2, v.l3), (0, 0, 0));
            (k, v.l0 as u128)
        })
        .collect()
}

#[test]
fn test_insert_get() {
    let mut m = amount_map(&[("A", 5), ("B", 3)]);
    assert!(m.contains_key(&"A".to_string()));
    assert!(!m.contains_key(&"C".to_string()));
    assert_eq!(m.get(&"B".to_string()), Some(&amt(3)));
    assert_eq!(m.get(&"C".to_string()), None);
    assert_eq!(m.must_get(&"C".to_string()), Err(NeptuneError::KeyNotFound));
    assert_eq!(m.insert("A".to_string(), amt(9)), Some(amt(5)));
    assert_eq!(m.get(&"A".to_string()), Some(&amt(9)));
    *m.get_mut(&"B".to_string()).unwrap() = amt(4);
    assert_eq!(m.get(&"B".to_string()), Some(&amt(4)));
    *m.get_mut_or_default(&"C".to_string()) = amt(1);
    assert_eq!(m.get(&"C".to_string()), Some(&amt(1)));
    assert_eq!(m.len(), 3);
    assert_eq!(m.must_get_mut(&"D".to_string()), Err(NeptuneError::KeyNotFound));
}

#[test]
fn test_map_add_default_fill() {
    // {A:5} + {B:3} == {A:5, B:3}
    let lhs = amount_map(&[("A", 5)]);
    let rhs = amount_map(&[("B", 3)]);
    let sum = lhs.add(rhs);
    assert_eq!(as_pairs(sum), vec![("A".to_string(), 5), ("B".to_string(), 3)]);
}

#[test]
fn test_map_sub_default_fill() {
    // {A:5, B:3} - {B:3} == {A:5, B:0}: B stays, with the default value.
    let lhs = amount_map(&[("A", 5), ("B", 3)]);
    let rhs = amount_map(&[("B", 3)]);
    let diff = lhs.sub(rhs);
    assert_eq!(as_pairs(diff), vec![("A".to_string(), 5), ("B".to_string(), 0)]);
}

#[test]
fn test_map_mul_intersects() {
    // {A:2, B:3} * {B:4} == {B:12}: A dropped, absent from the right.
    let lhs = amount_map(&[("A", 2), ("B", 3)]);
    let rhs = ratio_map(&[("B", 4)]);
    let product = lhs.mul(&rhs);
    assert_eq!(as_pairs(product), vec![("B".to_string(), 12)]);
}

#[test]
fn test_mul_all() {
    let quantity = amount_map(&[("cars", 2), ("bikes", 3)]);
    let prices = ratio_map(&[("cars", 2), ("bikes", 1), ("planes", 9)]);
    let values = quantity.mul_all(&prices).unwrap();
    assert_eq!(as_pairs(values), vec![("cars".to_string(), 4), ("bikes".to_string(), 3)]);

    let quantity = amount_map(&[("cars", 2), ("boats", 3)]);
    let prices = ratio_map(&[("cars", 2)]);
    assert_eq!(quantity.mul_all(&prices), Err(NeptuneError::KeyNotFound));
}

#[test]
fn test_sum() {
    let m = amount_map(&[("cars", 2), ("bikes", 3)]);
    assert_eq!(m.sum(), amt(5));
    let empty: NeptuneMap<String, Amount> = NeptuneMap::new();
    assert_eq!(empty.sum(), Amount::zero());
}

#[test]
fn test_extract_keys_first_seen() {
    let vecs: Vec<Vec<u64>> = vec![vec![3, 1, 3], vec![2, 1], vec![4]];
    assert_eq!(neptune_common::map::extract_keys(&vecs), vec![3, 1, 2, 4]);
}

#[test]
fn test_extract_keys_sorted() {
    let vecs: Vec<Vec<u64>> = vec![vec![3, 1, 3], vec![2, 1], vec![4]];
    assert_eq!(neptune_common::traits::extract_keys(&vecs), vec![1, 2, 3, 4]);
}

#[test]
fn test_find_many() {
    let v: Vec<u64> = vec![10, 20, 30];
    let keys: Vec<u64> = vec![30, 10];
    assert_eq!(neptune_common::map::find_many(&v, &keys), Some(vec![2, 0]));
    let missing: Vec<u64> = vec![30, 40];
    assert_eq!(neptune_common::map::find_many(&v, &missing), None);
}

#[test]
fn test_tuple_parser() {
    assert_eq!(
        tuple_parser("12,34").unwrap(),
        ("12".to_string(), "34".to_string())
    );
    assert_eq!(
        tuple_parser("a,b,c").unwrap(),
        ("a".to_string(), "b".to_string())
    );
}

#[test]
fn test_warning_text() {
    assert_eq!(NeptuneWarning::AmountWasZero.str(), "Amount was zero.");
    assert_eq!(
        NeptuneWarning::Generic("odd state".to_string()).str(),
        "odd state"
    );
}

#[test]
fn test_scalar_mul_div() {
    let m = amount_map(&[("A", 10), ("B", 5)]);
    let doubled = m.mul_ratio(Ratio::from_int(2));
    assert_eq!(as_pairs(doubled), vec![("A".to_string(), 20), ("B".to_string(), 10)]);
    let m = amount_map(&[("A", 10), ("B", 5)]);
    let halved = m.div_ratio(Ratio::from_int(2));
    assert_eq!(as_pairs(halved), vec![("A".to_string(), 5), ("B".to_string(), 2)]);
}

#[test]
fn test_remove_zeroed() {
    let mut m = amount_map(&[("A", 5), ("B", 0), ("C", 7), ("D", 0)]);
    assert!(!m.is_zeroed());
    m.remove_zeroed();
    assert_eq!(as_pairs(m), vec![("A".to_string(), 5), ("C".to_string(), 7)]);
    let mut all_dust = amount_map(&[("A", 0)]);
    assert!(all_dust.is_zeroed());
    all_dust.remove_zeroed();
    assert_eq!(all_dust.len(), 0);
    assert!(all_dust.is_zeroed());
}

#[test]
fn test_key_vec() {
    let m = amount_map(&[("A", 5), ("B", 3)]);
    assert_eq!(m.key_vec(), vec!["A".to_string(), "B".to_string()]);
}

#[test]
fn test_map_values() {
    let m = amount_map(&[("A", 1), ("B", 2)]);
    let doubled = m.map(|v: &Amount| v.add_amt(*v));
    assert_eq!(as_pairs(doubled), vec![("A".to_string(), 2), ("B".to_string(), 4)]);
}

#[test]
fn test_map_result_val() {
    let m = amount_map(&[("A", 1), ("B", 2)]);
    let ok = m.map_result_val(|v: &Amount| -> Result<Amount, NeptuneError> { Ok(*v) });
    assert_eq!(as_pairs(ok.unwrap()), vec![("A".to_string(), 1), ("B".to_string(), 2)]);
    let err = m.map_result_val(|v: &Amount| -> Result<Amount, NeptuneError> {
        if v.is_zero() {
            Ok(*v)
        } else {
            Err(NeptuneError::Overflow)
        }
    });
    assert_eq!(err, Err(NeptuneError::Overflow));
}

#[test]
fn test_sort_by_val() {
    let mut m = amount_map(&[("C", 9), ("A", 1), ("B", 4)]);
    m.sort_by_val();
    assert_eq!(
        as_pairs(m),
        vec![("A".to_string(), 1), ("B".to_string(), 4), ("C".to_string(), 9)]
    );
}

#[test]
fn test_sort_by_val_stable() {
    // Entries with equal values keep their relative order.
    let mut m = amount_map(&[("D", 2), ("C", 1), ("B", 2), ("A", 1)]);
    m.sort_by_val();
    assert_eq!(
        as_pairs(m),
        vec![
            ("C".to_string(), 1),
            ("A".to_string(), 1),
            ("D".to_string(), 2),
            ("B".to_string(), 2),
        ]
    );
}
