use neptune_common::amount::Amount;
use neptune_common::pool::{
    add_amount, add_shares, get_account_balance, increase_balance, remove_amount, remove_shares,
    Pool, PoolAccount,
};
use rand::random;

fn amt(x: u128) -> Amount {
    Amount::from_u128(x)
}

#[test]
fn test_add_and_remove() {
    for _ in 0..1000 {
        let start_pool_balance = amt(random::<u64>() as u128);
        let start_pool_shares = amt(random::<u64>() as u128);
        let amount = amt(random::<u64>() as u128);

        let mut account = PoolAccount::default();
        let mut pool = Pool { balance: start_pool_balance, shares: start_pool_shares };
        add_amount(&mut pool, amount, &mut account);
        increase_balance(&mut pool, amt(random::<u64>() as u128));
        let balance = get_account_balance(&pool, account);
        let amount_removed = remove_amount(&mut pool, balance, &mut account);

        assert_eq!(amount_removed.amount_removed, balance);
        assert_eq!(get_account_balance(&pool, account), Amount::zero());
    }
}

#[test]
fn pool_test() {
    let mut pool: Pool = Pool::default();
    let mut account1: PoolAccount = PoolAccount::default();
    let mut account2: PoolAccount = PoolAccount::default();

    add_amount(&mut pool, amt(100), &mut account1);
    assert_eq!(pool.balance, amt(100));
    assert_eq!(pool.shares, amt(100));
    assert_eq!(account1.principal, amt(100));
    assert_eq!(account1.shares, amt(100));

    increase_balance(&mut pool, amt(100));
    assert_eq!(pool.balance, amt(200));
    assert_eq!(pool.shares, amt(100));
    assert_eq!(account1.principal, amt(100));
    assert_eq!(account1.shares, amt(100));
    assert_eq!(get_account_balance(&pool, account1), amt(200));

    add_shares(&mut pool, amt(50), &mut account2);
    assert_eq!(pool.balance, amt(300));
    assert_eq!(pool.shares, amt(150));
    assert_eq!(account2.principal, amt(100));
    assert_eq!(account2.shares, amt(50));

    remove_amount(&mut pool, amt(100), &mut account2);
    assert_eq!(pool.balance, amt(200));
    assert_eq!(pool.shares, amt(100));
    assert_eq!(account2.principal, amt(0));
    assert_eq!(account2.shares, amt(0));

    remove_shares(&mut pool, amt(100), &mut account2);
    assert_eq!(pool.balance, amt(200));
    assert_eq!(pool.shares, amt(100));
    assert_eq!(account2.principal, amt(0));
    assert_eq!(account2.shares, amt(0));
}

#[test]
fn proportionality_concrete() {
    // Floor rounding keeps the accounts' balances within the pool's.
    let pool = Pool { balance: amt(1000), shares: amt(7) };
    let accounts = [amt(1), amt(2), amt(3)].map(|shares| PoolAccount {
        principal: Amount::zero(),
        shares,
    });
    let total: u128 = accounts
        .iter()
        .map(|a| {
            let b = get_account_balance(&pool, *a);
            assert_eq!(b.l1, 0);
            b.l0 as u128
        })
        .sum();
    // 142 + 285 + 428 = 855 <= 1000
    assert_eq!(total, 855);
}

#[test]
fn full_withdrawal_zeroes_account() {
    // Withdrawing exactly the account's balance removes all shares, even
    // after the pool's balance moved.
    let mut pool = Pool { balance: amt(3), shares: amt(10) };
    let mut account = PoolAccount::default();
    add_amount(&mut pool, amt(7), &mut account);
    increase_balance(&mut pool, amt(13));
    let balance = get_account_balance(&pool, account);
    let resp = remove_amount(&mut pool, balance, &mut account);
    assert_eq!(resp.amount_removed, balance);
    assert_eq!(account.shares, Amount::zero());
    assert_eq!(get_account_balance(&pool, account), Amount::zero());
}

#[test]
fn remove_shares_empty_pool_short_circuits() {
    // A pool without shares has nothing to remove: no division, no change.
    let mut pool = Pool { balance: amt(5), shares: amt(0) };
    let mut account = PoolAccount::default();
    let resp = remove_shares(&mut pool, amt(3), &mut account);
    assert_eq!(resp.balance_removed, Amount::zero());
    assert_eq!(pool.balance, amt(5));
    assert_eq!(pool.shares, amt(0));
    assert_eq!(account, PoolAccount::default());
}
