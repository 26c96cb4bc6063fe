use neptune_common::map::find_map_many;

#[test]
fn test_scrambled_key() {
    let v: Vec<(u64, u64)> = vec![(0, 1), (1, 2), (2, 3), (3, 4), (4, 5)];
    let keys: Vec<u64> = vec![4, 2];
    let res = find_map_many(&v, &keys);
    let unwrapped = res.unwrap();
    assert_eq!(v[unwrapped[0]].1, 5);
    assert_eq!(v[unwrapped[1]].1, 3);
}

#[test]
fn test_duplicate_key() {
    let v: Vec<(u64, u64)> = vec![(0, 1), (1, 2), (2, 3), (3, 4), (4, 5)];
    let keys: Vec<u64> = vec![2, 2];
    let res = find_map_many(&v, &keys);
    assert!(res.is_none());
}

#[test]
fn test_duplicate_matching_keys() {
    let v: Vec<(u64, u64)> = vec![(0, 1), (2, 3), (2, 4), (3, 4), (4, 5)];
    let keys: Vec<u64> = vec![2, 2];
    let res = find_map_many(&v, &keys);
    let unwrapped = res.unwrap();
    assert_eq!(v[unwrapped[0]].1, 3);
    assert_eq!(v[unwrapped[1]].1, 4);
}

#[test]
fn test_missing_key() {
    let v: Vec<(u64, u64)> = vec![(0, 1), (1, 2), (2, 3), (3, 4), (4, 5)];
    let keys: Vec<u64> = vec![2, 7];
    let res = find_map_many(&v, &keys);
    assert!(res.is_none());
}

#[test]
fn test_too_many_keys() {
    let v: Vec<(u64, u64)> = vec![(0, 1), (1, 2), (2, 3), (3, 4), (4, 5)];
    let keys: Vec<u64> = vec![1, 2, 3, 4, 5, 5, 5];
    let res = find_map_many(&v, &keys);
    assert!(res.is_none());
}

#[test]
fn test_zero_len() {
    let v: Vec<(u64, u64)> = vec![(0, 1), (1, 2), (2, 3), (3, 4), (4, 5)];
    let keys: Vec<u64> = vec![];
    let res = find_map_many(&v, &keys);
    assert_eq!(res, Some(vec![]));
}
