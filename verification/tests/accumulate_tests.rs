use neptune_common::accumulated_pool::{
    AccumulatedPool, AccumulatedPoolAccount, TimeSeries,
};
use neptune_common::amount::Amount;
use neptune_common::error::NeptuneError;
use neptune_common::pool::{Pool, PoolAccount};
use neptune_common::ratio::Ratio;

fn amt(x: u128) -> Amount {
    Amount::from_u128(x)
}

fn fresh_account() -> AccumulatedPoolAccount {
    AccumulatedPoolAccount {
        pool_account: PoolAccount::default(),
        accumulator: Amount::zero(),
        last_accumulation: None,
    }
}

#[test]
fn accumulation_scenario() {
    // Pool {balance:10, shares:10} at t=0 with no prior entries.
    let mut apool = AccumulatedPool {
        pool: Pool { balance: amt(10), shares: amt(10) },
        namespace: "accumulator".to_string(),
    };
    let mut series = TimeSeries::new();
    let mut account = fresh_account();

    apool.accumulate(&mut series, 0, &mut account).unwrap();
    assert_eq!(series.len(), 1);
    assert_eq!(series.entry_at(0), (0, Ratio::zero()));
    assert_eq!(account.last_accumulation, Some(0));
    assert_eq!(account.accumulator, Amount::zero());

    // Ten nanoseconds later, no pool mutation: delta = 10*10/10 = 10.
    account.pool_account.shares = amt(5);
    apool.accumulate(&mut series, 10, &mut account).unwrap();
    assert_eq!(series.len(), 2);
    assert_eq!(series.entry_at(1), (10, Ratio::from_int(10)));
    // The account held 5 shares: accumulator += 5 * (10 - 0) = 50.
    assert_eq!(account.accumulator, amt(50));
    assert_eq!(account.last_accumulation, Some(10));
}

#[test]
fn accumulation_same_instant_reuses_checkpoint() {
    let mut apool = AccumulatedPool {
        pool: Pool { balance: amt(10), shares: amt(10) },
        namespace: "accumulator".to_string(),
    };
    let mut series = TimeSeries::new();
    let mut account = fresh_account();
    apool.accumulate(&mut series, 5, &mut account).unwrap();
    let mut other = fresh_account();
    apool.accumulate(&mut series, 5, &mut other).unwrap();
    assert_eq!(series.len(), 1);
    assert_eq!(other.last_accumulation, Some(5));
}

#[test]
fn accumulation_missing_checkpoint_is_fatal() {
    let mut apool = AccumulatedPool {
        pool: Pool { balance: amt(10), shares: amt(10) },
        namespace: "accumulator".to_string(),
    };
    let mut series = TimeSeries::new();
    let mut account = fresh_account();
    apool.accumulate(&mut series, 5, &mut account).unwrap();
    // A settlement time the series never recorded.
    account.last_accumulation = Some(3);
    let res = apool.accumulate(&mut series, 9, &mut account);
    assert_eq!(res, Err(NeptuneError::KeyNotFound));
}

#[test]
fn accumulation_is_monotone() {
    let mut apool = AccumulatedPool {
        pool: Pool { balance: amt(7), shares: amt(3) },
        namespace: "accumulator".to_string(),
    };
    let mut series = TimeSeries::new();
    let mut account = fresh_account();
    for t in [0u64, 4, 4, 9, 100] {
        apool.accumulate(&mut series, t, &mut account).unwrap();
    }
    let mut last = Ratio::zero();
    let mut i = 0;
    while i < series.len() {
        let (_, v) = series.entry_at(i);
        assert!(last.le(&v));
        last = v;
        i += 1;
    }
}

#[test]
fn accumulation_zero_shares_is_divide_by_zero() {
    // A fresh checkpoint over a fully diluted pool is a defined error and
    // touches neither the series nor the account.
    let mut apool = AccumulatedPool {
        pool: Pool { balance: amt(10), shares: amt(10) },
        namespace: "accumulator".to_string(),
    };
    let mut series = TimeSeries::new();
    let mut account = fresh_account();
    apool.accumulate(&mut series, 0, &mut account).unwrap();
    apool.pool.shares = amt(0);
    let before = account;
    let res = apool.accumulate(&mut series, 7, &mut account);
    assert_eq!(res, Err(NeptuneError::DivideByZero));
    assert_eq!(series.len(), 1);
    assert_eq!(account, before);
    // At the same instant nothing divides, so the call still succeeds.
    let res = apool.accumulate(&mut series, 0, &mut account);
    assert_eq!(res, Ok(()));
}
