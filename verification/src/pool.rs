//! Proportional pool-share accounting.
//!
//! A [`Pool`] is a shared bucket of `balance` (value) and `shares`
//! (ownership units); a [`PoolAccount`] is one depositor's stake. Every
//! conversion between the amount and the share domain is taken from the
//! current pool ratio at the moment of the operation and floored, so the
//! rounding error always favours the pool. The laws at the bottom of this
//! module state the two global guarantees: floor rounding never lets the
//! accounts' balances exceed the pool's, and withdrawing exactly the
//! account's balance leaves the account with zero shares.

use vstd::prelude::*;

use crate::amount::{amount_bound, spec_mul_div, Amount};

verus! {

/// A shared, fungible bucket of value with proportional ownership.
#[derive(Clone, Copy, Debug, PartialEq, Eq, Structural)]
pub struct Pool {
    pub balance: Amount,
    pub shares: Amount,
}

impl Default for Pool {
    /// A freshly created pool holds no value and no shares.
    fn default() -> (r: Self)
        ensures
            r.balance.val() == 0,
            r.shares.val() == 0,
    {
        Pool { balance: Amount::zero(), shares: Amount::zero() }
    }
}

/// One depositor's stake in a [`Pool`]: the net amount contributed
/// (book-keeping only, saturating at zero) and the owned shares.
#[derive(Clone, Copy, Debug, PartialEq, Eq, Structural)]
pub struct PoolAccount {
    pub principal: Amount,
    pub shares: Amount,
}

impl Default for PoolAccount {
    /// An account starts with no principal and no shares.
    fn default() -> (r: Self)
        ensures
            r.principal.val() == 0,
            r.shares.val() == 0,
    {
        PoolAccount { principal: Amount::zero(), shares: Amount::zero() }
    }
}

pub struct AddSharesResponse {
    pub balance_added: Amount,
}

pub struct AddAmountResponse {
    pub shares_added: Amount,
}

pub struct RemoveSharesResponse {
    pub balance_removed: Amount,
}

pub struct RemoveAmountResponse {
    pub amount_removed: Amount,
    pub shares_removed: Amount,
}

/// Shares issued for contributing `amount`: one to one while the pool is
/// empty of value, else scaled by the current shares-per-balance ratio.
pub open spec fn spec_shares_to_issue(pool: Pool, amount: Amount) -> int {
    if pool.balance.val() == 0 {
        amount.val()
    } else {
        spec_mul_div(amount.val(), pool.shares.val(), pool.balance.val())
    }
}

/// Balance credited for issuing `shares` at the current pool ratio.
pub open spec fn spec_balance_to_issue(pool: Pool, shares: Amount) -> int {
    spec_mul_div(shares.val(), pool.balance.val(), pool.shares.val())
}

/// The amount the account could withdraw right now: its share of the pool's
/// balance, floored; zero for a pool without shares, and zero in the
/// (unreachable under the share invariant) case that the conversion does
/// not fit 256 bits.
pub open spec fn spec_account_balance(pool: Pool, account: PoolAccount) -> int {
    if pool.shares.val() == 0 {
        0
    } else if spec_mul_div(account.shares.val(), pool.balance.val(), pool.shares.val())
        >= amount_bound() {
        0
    } else {
        spec_mul_div(account.shares.val(), pool.balance.val(), pool.shares.val())
    }
}

/// The `(amount_removed, shares_removed)` pair of [`remove_amount`]: nothing
/// moves for an empty pool or account; a request above the account's balance
/// is clamped to the whole position; otherwise the removed shares are scaled
/// from the requested amount, floored.
pub open spec fn spec_remove_amount_result(pool: Pool, amount: Amount, account: PoolAccount) -> (
    int,
    int,
) {
    let b = pool.balance.val();
    let s = pool.shares.val();
    let ash = account.shares.val();
    if b == 0 || s == 0 || ash == 0 {
        (0, 0)
    } else {
        let account_amount = spec_mul_div(ash, b, s);
        if amount.val() > account_amount {
            (account_amount, ash)
        } else {
            (amount.val(), spec_mul_div(ash, amount.val(), account_amount))
        }
    }
}

/// The `(amount_removed, shares_removed)` pair of [`remove_shares`]: a pool
/// without shares has nothing to remove; otherwise the request is clamped
/// to the account's shares and converted at the current pool ratio,
/// floored.
pub open spec fn spec_remove_shares_result(pool: Pool, shares: Amount, account: PoolAccount) -> (
    int,
    int,
) {
    let clamped = if shares.val() > account.shares.val() {
        account.shares.val()
    } else {
        shares.val()
    };
    if pool.shares.val() == 0 {
        (0, 0)
    } else {
        (spec_mul_div(clamped, pool.balance.val(), pool.shares.val()), clamped)
    }
}

/// `x <= s` and `s > 0` bound the scaled floor division: `x * b / s <= b`.
proof fn lemma_mul_div_le(x: int, b: int, s: int)
    requires
        0 <= x <= s,
        0 <= b,
        0 < s,
    ensures
        0 <= spec_mul_div(x, b, s) <= b,
{
    vstd::arithmetic::mul::lemma_mul_inequality(x, s, b);
    vstd::arithmetic::div_mod::lemma_div_is_ordered(x * b, s * b, s);
    vstd::arithmetic::mul::lemma_mul_is_commutative(s, b);
    vstd::arithmetic::div_mod::lemma_div_multiples_vanish(b, s);
    vstd::arithmetic::mul::lemma_mul_nonnegative(x, b);
    vstd::arithmetic::div_mod::lemma_div_pos_is_pos(x * b, s);
}

/// Adds a balance to an account; shares are issued at the pool ratio
/// captured before any mutation (one to one for a pool whose balance is
/// zero), and pool and account grow symmetrically.
pub fn add_amount(pool: &mut Pool, amount: Amount, account: &mut PoolAccount) -> (r:
    AddAmountResponse)
    requires
        spec_shares_to_issue(*old(pool), amount) < amount_bound(),
        old(pool).balance.val() + amount.val() < amount_bound(),
        old(pool).shares.val() + spec_shares_to_issue(*old(pool), amount) < amount_bound(),
        old(account).principal.val() + amount.val() < amount_bound(),
        old(account).shares.val() + spec_shares_to_issue(*old(pool), amount) < amount_bound(),
    ensures
        r.shares_added.val() == spec_shares_to_issue(*old(pool), amount),
        final(pool).balance.val() == old(pool).balance.val() + amount.val(),
        final(pool).shares.val() == old(pool).shares.val() + r.shares_added.val(),
        final(account).principal.val() == old(account).principal.val() + amount.val(),
        final(account).shares.val() == old(account).shares.val() + r.shares_added.val(),
{
    let shares_to_issue = if pool.balance.is_zero() {
        amount
    } else {
        amount.multiply_ratio(pool.shares, pool.balance)
    };
    account.shares = account.shares.add_amt(shares_to_issue);
    account.principal = account.principal.add_amt(amount);
    pool.shares = pool.shares.add_amt(shares_to_issue);
    pool.balance = pool.balance.add_amt(amount);
    AddAmountResponse { shares_added: shares_to_issue }
}

/// Issues an exact number of shares to an account and credits the
/// corresponding balance at the pool ratio captured before any mutation.
pub fn add_shares(pool: &mut Pool, shares: Amount, account: &mut PoolAccount) -> (r:
    AddSharesResponse)
    requires
        old(pool).shares.val() != 0,
        spec_balance_to_issue(*old(pool), shares) < amount_bound(),
        old(pool).balance.val() + spec_balance_to_issue(*old(pool), shares) < amount_bound(),
        old(pool).shares.val() + shares.val() < amount_bound(),
        old(account).principal.val() + spec_balance_to_issue(*old(pool), shares) < amount_bound(),
        old(account).shares.val() + shares.val() < amount_bound(),
    ensures
        r.balance_added.val() == spec_balance_to_issue(*old(pool), shares),
        final(pool).balance.val() == old(pool).balance.val() + r.balance_added.val(),
        final(pool).shares.val() == old(pool).shares.val() + shares.val(),
        final(account).principal.val() == old(account).principal.val() + r.balance_added.val(),
        final(account).shares.val() == old(account).shares.val() + shares.val(),
{
    let balance_to_issue = shares.multiply_ratio(pool.balance, pool.shares);
    account.shares = account.shares.add_amt(shares);
    account.principal = account.principal.add_amt(balance_to_issue);
    pool.shares = pool.shares.add_amt(shares);
    pool.balance = pool.balance.add_amt(balance_to_issue);
    AddSharesResponse { balance_added: balance_to_issue }
}

/// Removes shares from an account (clamped to what it owns) and returns the
/// corresponding balance, floored. The account's principal is reduced with
/// saturation, never below zero. A pool without shares has nothing to
/// remove, so the call short-circuits instead of dividing by zero.
pub fn remove_shares(pool: &mut Pool, shares: Amount, account: &mut PoolAccount) -> (r:
    RemoveSharesResponse)
    requires
        old(account).shares.val() <= old(pool).shares.val(),
    ensures
        r.balance_removed.val() == spec_remove_shares_result(*old(pool), shares, *old(account)).0,
        final(pool).balance.val() == old(pool).balance.val() - r.balance_removed.val(),
        final(pool).shares.val() == old(pool).shares.val() - spec_remove_shares_result(
            *old(pool),
            shares,
            *old(account),
        ).1,
        final(account).shares.val() == old(account).shares.val() - spec_remove_shares_result(
            *old(pool),
            shares,
            *old(account),
        ).1,
        final(account).principal.val() == if old(account).principal.val() >= r.balance_removed.val() {
            old(account).principal.val() - r.balance_removed.val()
        } else {
            0
        },
{
    if pool.shares.is_zero() {
        return RemoveSharesResponse { balance_removed: Amount::zero() };
    }
    let shares_to_remove = if shares.lt(&account.shares) {
        shares
    } else {
        account.shares
    };
    proof {
        lemma_mul_div_le(shares_to_remove.val(), pool.balance.val(), pool.shares.val());
    }
    let amount_to_remove = shares_to_remove.multiply_ratio(pool.balance, pool.shares);
    account.shares = account.shares.sub_amt(shares_to_remove);
    account.principal = account.principal.saturating_sub(amount_to_remove);
    pool.shares = pool.shares.sub_amt(shares_to_remove);
    pool.balance = pool.balance.sub_amt(amount_to_remove);
    RemoveSharesResponse { balance_removed: amount_to_remove }
}

/// Withdraws up to `amount` from an account. A request above the account's
/// current balance removes the whole position — all of its shares — so the
/// floor rounding of a partial withdrawal can never strand dust; otherwise
/// the removed shares are scaled from the requested amount, floored.
pub fn remove_amount(pool: &mut Pool, amount: Amount, account: &mut PoolAccount) -> (r:
    RemoveAmountResponse)
    requires
        old(account).shares.val() <= old(pool).shares.val(),
        // the one input on which the original arithmetic has no value: a
        // zero request against a position whose floored balance is zero
        (old(pool).balance.val() == 0 || old(pool).shares.val() == 0 || old(
            account,
        ).shares.val() == 0) || amount.val() > 0 || spec_mul_div(
            old(account).shares.val(),
            old(pool).balance.val(),
            old(pool).shares.val(),
        ) > 0,
    ensures
        r.amount_removed.val() == spec_remove_amount_result(*old(pool), amount, *old(account)).0,
        r.shares_removed.val() == spec_remove_amount_result(*old(pool), amount, *old(account)).1,
        final(pool).balance.val() == old(pool).balance.val() - r.amount_removed.val(),
        final(pool).shares.val() == old(pool).shares.val() - r.shares_removed.val(),
        final(account).shares.val() == old(account).shares.val() - r.shares_removed.val(),
        final(account).principal.val() == if old(account).principal.val() >= r.amount_removed.val() {
            old(account).principal.val() - r.amount_removed.val()
        } else {
            0
        },
{
    if pool.balance.is_zero() || pool.shares.is_zero() || account.shares.is_zero() {
        return RemoveAmountResponse {
            amount_removed: Amount::zero(),
            shares_removed: Amount::zero(),
        };
    }
    proof {
        lemma_mul_div_le(account.shares.val(), pool.balance.val(), pool.shares.val());
    }
    let account_amount = account.shares.multiply_ratio(pool.balance, pool.shares);
    let amount_to_remove: Amount;
    let shares_to_remove: Amount;
    if account_amount.lt(&amount) {
        amount_to_remove = account_amount;
        shares_to_remove = account.shares;
    } else {
        proof {
            lemma_mul_div_le(amount.val(), account.shares.val(), account_amount.val());
        }
        amount_to_remove = amount;
        shares_to_remove = account.shares.multiply_ratio(amount, account_amount);
    }
    account.shares = account.shares.sub_amt(shares_to_remove);
    account.principal = account.principal.saturating_sub(amount_to_remove);
    pool.shares = pool.shares.sub_amt(shares_to_remove);
    pool.balance = pool.balance.sub_amt(amount_to_remove);
    RemoveAmountResponse { amount_removed: amount_to_remove, shares_removed: shares_to_remove }
}

/// Injects value into the pool without touching any account's shares.
pub fn increase_balance(pool: &mut Pool, amount: Amount)
    requires
        old(pool).balance.val() + amount.val() < amount_bound(),
    ensures
        final(pool).balance.val() == old(pool).balance.val() + amount.val(),
        final(pool).shares == old(pool).shares,
{
    pool.balance = pool.balance.add_amt(amount);
}

/// Removes value from the pool without touching any account's shares,
/// saturating at zero.
pub fn decrease_balance(pool: &mut Pool, amount: Amount)
    ensures
        final(pool).balance.val() == if old(pool).balance.val() >= amount.val() {
            old(pool).balance.val() - amount.val()
        } else {
            0
        },
        final(pool).shares == old(pool).shares,
{
    pool.balance = pool.balance.saturating_sub(amount);
}

/// The balance an account could withdraw right now.
pub fn get_account_balance(pool: &Pool, account: PoolAccount) -> (r: Amount)
    ensures
        r.val() == spec_account_balance(*pool, account),
{
    match account.shares.checked_multiply_ratio(pool.balance, pool.shares) {
        Ok(v) => v,
        Err(_) => Amount::zero(),
    }
}

} // verus!

verus! {

/// Sum of the accounts' share counts.
pub open spec fn spec_sum_shares(accounts: Seq<PoolAccount>) -> int
    decreases accounts.len(),
{
    if accounts.len() == 0 {
        0
    } else {
        accounts.first().shares.val() + spec_sum_shares(accounts.drop_first())
    }
}

/// Sum of the accounts' withdrawable balances against one pool state.
pub open spec fn spec_sum_account_balances(pool: Pool, accounts: Seq<PoolAccount>) -> int
    decreases accounts.len(),
{
    if accounts.len() == 0 {
        0
    } else {
        spec_account_balance(pool, accounts.first()) + spec_sum_account_balances(
            pool,
            accounts.drop_first(),
        )
    }
}

/// Floored quotients never gain from being summed: `x/d + y/d <= (x+y)/d`.
proof fn lemma_div_add_le(x: int, y: int, d: int)
    requires
        0 <= x,
        0 <= y,
        0 < d,
    ensures
        x / d + y / d <= (x + y) / d,
{
    vstd::arithmetic::div_mod::lemma_fundamental_div_mod(x, d);
    vstd::arithmetic::div_mod::lemma_fundamental_div_mod(y, d);
    vstd::arithmetic::div_mod::lemma_mod_bound(x, d);
    vstd::arithmetic::div_mod::lemma_mod_bound(y, d);
    let q = x / d + y / d;
    vstd::arithmetic::mul::lemma_mul_is_distributive_add(d, x / d, y / d);
    assert(d * q <= x + y);
    vstd::arithmetic::div_mod::lemma_div_is_ordered(d * q, x + y, d);
    vstd::arithmetic::div_mod::lemma_div_multiples_vanish(q, d);
}

/// The accounts' summed balances stay within the scaled sum of their shares.
proof fn lemma_sum_balances_le(pool: Pool, accounts: Seq<PoolAccount>)
    requires
        pool.shares.val() > 0,
    ensures
        spec_sum_account_balances(pool, accounts) <= spec_mul_div(
            spec_sum_shares(accounts),
            pool.balance.val(),
            pool.shares.val(),
        ),
    decreases accounts.len(),
{
    let b = pool.balance.val();
    let s = pool.shares.val();
    if accounts.len() == 0 {
        vstd::arithmetic::div_mod::lemma_div_pos_is_pos(0, s);
        assert(spec_mul_div(0, b, s) == 0 * b / s);
        assert(0 * b == 0) by (nonlinear_arith);
    } else {
        let a0 = accounts.first();
        let rest = accounts.drop_first();
        lemma_sum_balances_le(pool, rest);
        lemma_sum_shares_nonneg(rest);
        vstd::arithmetic::mul::lemma_mul_nonnegative(a0.shares.val(), b);
        vstd::arithmetic::mul::lemma_mul_nonnegative(spec_sum_shares(rest), b);
        vstd::arithmetic::div_mod::lemma_div_pos_is_pos(a0.shares.val() * b, s);
        lemma_div_add_le(a0.shares.val() * b, spec_sum_shares(rest) * b, s);
        vstd::arithmetic::mul::lemma_mul_is_distributive_add_other_way(
            b,
            a0.shares.val(),
            spec_sum_shares(rest),
        );
    }
}

/// Sums of share counts are non-negative.
proof fn lemma_sum_shares_nonneg(accounts: Seq<PoolAccount>)
    ensures
        spec_sum_shares(accounts) >= 0,
    decreases accounts.len(),
{
    if accounts.len() > 0 {
        lemma_sum_shares_nonneg(accounts.drop_first());
    }
}

/// Proportionality: for any pool state and any family of accounts whose
/// shares together do not exceed the pool's total shares, the sum of the
/// accounts' withdrawable balances never exceeds the pool's balance — floor
/// rounding loses value to the pool, never mints it.
pub proof fn lemma_proportionality(pool: Pool, accounts: Seq<PoolAccount>)
    requires
        spec_sum_shares(accounts) <= pool.shares.val(),
    ensures
        spec_sum_account_balances(pool, accounts) <= pool.balance.val(),
{
    let b = pool.balance.val();
    let s = pool.shares.val();
    if s == 0 {
        lemma_sum_balances_zero_shares(pool, accounts);
    } else {
        lemma_sum_balances_le(pool, accounts);
        lemma_sum_shares_nonneg(accounts);
        vstd::arithmetic::mul::lemma_mul_inequality(spec_sum_shares(accounts), s, b);
        vstd::arithmetic::div_mod::lemma_div_is_ordered(spec_sum_shares(accounts) * b, s * b, s);
        vstd::arithmetic::mul::lemma_mul_is_commutative(s, b);
        vstd::arithmetic::div_mod::lemma_div_multiples_vanish(b, s);
    }
}

/// Against a pool without shares every balance reads zero.
proof fn lemma_sum_balances_zero_shares(pool: Pool, accounts: Seq<PoolAccount>)
    requires
        pool.shares.val() == 0,
    ensures
        spec_sum_account_balances(pool, accounts) == 0,
    decreases accounts.len(),
{
    if accounts.len() > 0 {
        lemma_sum_balances_zero_shares(pool, accounts.drop_first());
    }
}

/// An account without shares has no withdrawable balance, whatever the pool.
pub proof fn lemma_zero_shares_zero_balance(pool: Pool, account: PoolAccount)
    requires
        account.shares.val() == 0,
    ensures
        spec_account_balance(pool, account) == 0,
{
    if pool.shares.val() != 0 {
        assert(0 * pool.balance.val() == 0) by (nonlinear_arith);
        vstd::arithmetic::div_mod::lemma_div_pos_is_pos(0, pool.shares.val());
        vstd::arithmetic::div_mod::lemma_div_is_ordered(0, 0, pool.shares.val());
        assert(spec_mul_div(0, pool.balance.val(), pool.shares.val()) == 0int / pool.shares.val());
        assert(0int / pool.shares.val() == 0) by {
            vstd::arithmetic::div_mod::lemma_div_of0(pool.shares.val());
        }
    }
}

/// Round-trip conservation: withdrawing exactly the account's current
/// positive balance removes the whole position — all of the account's
/// shares and exactly the requested amount — so afterwards the account
/// holds zero shares and, by [`lemma_zero_shares_zero_balance`], a balance
/// of exactly zero, however the pool's balance moved in between.
pub proof fn lemma_full_withdrawal_zeroes_account(pool: Pool, amount: Amount, account: PoolAccount)
    requires
        account.shares.val() <= pool.shares.val(),
        amount.val() == spec_account_balance(pool, account),
        amount.val() > 0,
    ensures
        spec_remove_amount_result(pool, amount, account).0 == amount.val(),
        spec_remove_amount_result(pool, amount, account).1 == account.shares.val(),
{
    let b = pool.balance.val();
    let s = pool.shares.val();
    let ash = account.shares.val();
    let aa = spec_mul_div(ash, b, s);
    assert(s != 0);
    assert(b != 0) by {
        if b == 0 {
            assert(ash * 0 == 0) by (nonlinear_arith);
            vstd::arithmetic::div_mod::lemma_div_of0(s);
        }
    }
    assert(ash != 0) by {
        if ash == 0 {
            lemma_zero_shares_zero_balance(pool, account);
        }
    }
    assert(amount.val() == aa);
    vstd::arithmetic::mul::lemma_mul_is_commutative(ash, aa);
    vstd::arithmetic::div_mod::lemma_div_multiples_vanish(ash, aa);
}

} // verus!
