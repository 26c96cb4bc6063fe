//! Time-weighted accumulation on top of the pool engine.
//!
//! An [`AccumulatedPool`] wraps a [`Pool`] together with the namespace of a
//! persistent time series: an append-only log mapping nanosecond timestamps
//! to the cumulative per-share accrual up to that moment. The store is
//! passed in explicitly as a [`TimeSeries`] value, so the engine itself is
//! storage-agnostic. [`AccumulatedPool::accumulate`] advances the global
//! checkpoint for the current time and settles the calling account's earned
//! accrual since its last checkpoint.

use vstd::prelude::*;

use crate::amount::{amount_bound, spec_mul_div, Amount};
use crate::error::{NeptuneError, NeptuneResult};
use crate::pool::Pool;
use crate::pool::PoolAccount;
use crate::ratio::{ratio_scale, Ratio};

verus! {

/// An append-only log of `(timestamp, cumulative per-share accrual)`
/// checkpoints, strictly increasing in time and non-decreasing in value.
pub struct TimeSeries(Vec<(u64, Ratio)>);

impl View for TimeSeries {
    type V = Seq<(u64, Ratio)>;

    closed spec fn view(&self) -> Seq<(u64, Ratio)> {
        self.0@
    }
}

impl TimeSeries {
    /// Timestamps strictly increase and accumulation values never decrease
    /// along the log.
    pub open spec fn wf(self) -> bool {
        forall|i: int, j: int|
            0 <= i < j < self@.len() ==> self@[i].0 < self@[j].0 && self@[i].1.val()
                <= self@[j].1.val()
    }

    /// Whether a checkpoint exists at exactly `t`.
    pub open spec fn spec_contains_time(self, t: u64) -> bool {
        exists|i: int| 0 <= i < self@.len() && self@[i].0 == t
    }

    /// The index of the checkpoint at `t`; unique under [`TimeSeries::wf`].
    pub open spec fn spec_index_of_time(self, t: u64) -> int {
        choose|i: int| 0 <= i < self@.len() && self@[i].0 == t
    }

    /// The accumulation recorded at exactly `t`.
    pub open spec fn spec_value_at(self, t: u64) -> Ratio {
        self@[self.spec_index_of_time(t)].1
    }

    proof fn lemma_time_index_unique(self, t: u64, i: int, j: int)
        requires
            self.wf(),
            0 <= i < self@.len(),
            0 <= j < self@.len(),
            self@[i].0 == t,
            self@[j].0 == t,
        ensures
            i == j,
    {
        if i < j {
            assert(self@[i].0 < self@[j].0);
        } else if j < i {
            assert(self@[j].0 < self@[i].0);
        }
    }

    /// The empty log.
    pub fn new() -> (r: Self)
        ensures
            r@.len() == 0,
            r.wf(),
    {
        TimeSeries(Vec::new())
    }

    /// The log holding exactly the given checkpoints; the caller keeps them
    /// ordered.
    pub fn from_entries(entries: Vec<(u64, Ratio)>) -> (r: Self)
        requires
            forall|i: int, j: int|
                0 <= i < j < entries@.len() ==> entries@[i].0 < entries@[j].0
                    && entries@[i].1.val() <= entries@[j].1.val(),
        ensures
            r@ == entries@,
            r.wf(),
    {
        TimeSeries(entries)
    }

    /// How many checkpoints the log holds.
    pub fn len(&self) -> (r: usize)
        ensures
            r == self@.len(),
    {
        self.0.len()
    }

    /// A read of the checkpoint at a position, for walking the log in order.
    pub fn entry_at(&self, i: usize) -> (r: (u64, Ratio))
        requires
            i < self@.len(),
        ensures
            r == self@[i as int],
    {
        self.0[i]
    }

    /// The latest checkpoint, if any.
    pub fn last(&self) -> (r: Option<(u64, Ratio)>)
        ensures
            self@.len() == 0 ==> r is None,
            self@.len() > 0 ==> (r matches Some(p) && p == self@.last()),
    {
        let n = self.0.len();
        if n == 0 {
            None
        } else {
            Some(self.0[n - 1])
        }
    }

    /// Appends a checkpoint; time must advance strictly and the value must
    /// not decrease, which keeps the log well-formed.
    pub fn save(&mut self, time: u64, value: Ratio)
        requires
            old(self).wf(),
            old(self)@.len() > 0 ==> time > old(self)@.last().0 && value.val() >= old(
                self,
            )@.last().1.val(),
        ensures
            final(self)@ == old(self)@.push((time, value)),
            final(self).wf(),
    {
        self.0.push((time, value));
        proof {
            let s = self@;
            let n = s.len();
            assert forall|i: int, j: int|
                0 <= i < j < n implies s[i].0 < s[j].0 && s[i].1.val() <= s[j].1.val() by {
                if j < n - 1 {
                    assert(old(self)@[i].0 < old(self)@[j].0);
                } else {
                    assert(s[j] == (time, value));
                    if i < n - 2 {
                        assert(old(self)@[i].0 < old(self)@[n - 2].0 && old(self)@[i].1.val()
                            <= old(self)@[n - 2].1.val());
                    }
                }
            }
        }
    }

    /// The accumulation recorded at exactly `t`, or `KeyNotFound`: a point
    /// lookup, not a nearest match.
    pub fn load_at(&self, t: u64) -> (r: NeptuneResult<Ratio>)
        requires
            self.wf(),
        ensures
            self.spec_contains_time(t) ==> (r matches Ok(v) && v == self.spec_value_at(t)),
            !self.spec_contains_time(t) ==> (r matches Err(e) && e is KeyNotFound),
    {
        let n = self.0.len();
        let mut i: usize = 0;
        while i < n
            invariant
                n == self@.len(),
                i <= n,
                self.wf(),
                forall|j: int| 0 <= j < i ==> self@[j].0 != t,
            decreases n - i,
        {
            if self.0[i].0 == t {
                proof {
                    self.lemma_time_index_unique(t, i as int, self.spec_index_of_time(t));
                }
                return Ok(self.0[i].1);
            }
            i += 1;
        }
        Err(NeptuneError::KeyNotFound)
    }
}

/// A pool whose value accrues to shareholders over time, identified by the
/// namespace of its persistent checkpoint log.
#[derive(Clone, Debug, PartialEq, Eq)]
pub struct AccumulatedPool {
    pub pool: Pool,
    pub namespace: String,
}

/// One depositor's stake in an [`AccumulatedPool`]: the underlying pool
/// account, the accrual settled so far, and the time of the last
/// settlement (`None` before the first).
#[derive(Clone, Copy, Debug, PartialEq, Eq)]
pub struct AccumulatedPoolAccount {
    pub pool_account: PoolAccount,
    pub accumulator: Amount,
    pub last_accumulation: Option<u64>,
}

/// The cumulative accrual the log will record for `time`: the latest value,
/// advanced — unless `time` matches the latest checkpoint — by the pool's
/// balance per share integrated over the elapsed nanoseconds.
pub open spec fn spec_new_accum(pool: Pool, s: Seq<(u64, Ratio)>, time: u64) -> int {
    if s.len() == 0 {
        0
    } else if s.last().0 == time {
        s.last().1.val()
    } else {
        s.last().1.val() + spec_mul_div(
            pool.balance.val() * (time - s.last().0),
            ratio_scale(),
            pool.shares.val(),
        )
    }
}

/// Whether the checkpoint step appends a new entry for `time`.
pub open spec fn spec_appends(s: Seq<(u64, Ratio)>, time: u64) -> bool {
    s.len() == 0 || s.last().0 != time
}

/// The one input family outside the accumulator's domain: a fully diluted
/// pool — shares all gone — at a time that demands a fresh checkpoint. The
/// per-share accrual would divide by zero, so the call reports it as a
/// defined error instead.
pub open spec fn spec_zero_share_advance(pool: Pool, s: Seq<(u64, Ratio)>, time: u64) -> bool {
    s.len() > 0 && s.last().0 != time && pool.shares.val() == 0
}

/// The accumulation recorded at `t` once the checkpoint for `time` is in
/// place: an existing entry, the freshly appended one, or none.
pub open spec fn spec_lookup_after(series: TimeSeries, pool: Pool, time: u64, t: u64) -> Option<
    int,
> {
    if series.spec_contains_time(t) {
        Some(series.spec_value_at(t).val())
    } else if spec_appends(series@, time) && t == time {
        Some(spec_new_accum(pool, series@, time))
    } else {
        None
    }
}

/// The checkpoint the account settles against: the log entry at its last
/// settlement time, as the log stands after the checkpoint step; `None`
/// before the account's first settlement, and `None` when the recorded
/// time has no checkpoint (the data-consistency fault).
pub open spec fn spec_account_lookup(
    series: TimeSeries,
    pool: Pool,
    time: u64,
    account: AccumulatedPoolAccount,
) -> Option<int> {
    match account.last_accumulation {
        Some(t) => spec_lookup_after(series, pool, time, t),
        None => None,
    }
}

impl AccumulatedPool {
    /// Advances the pool's checkpoint log to `time` and settles the
    /// account's accrual since its last settlement, weighted by the
    /// account's current shares. Must be called before any
    /// balance-affecting operation on the account. Errs with
    /// `DivideByZero`, touching nothing, when a fresh checkpoint is due
    /// but the pool holds no shares; errs with `KeyNotFound` exactly when
    /// the account's recorded settlement time has no checkpoint — a
    /// data-consistency fault, since settlement times are only ever taken
    /// from the log itself.
    pub fn accumulate(
        &mut self,
        series: &mut TimeSeries,
        time: u64,
        account: &mut AccumulatedPoolAccount,
    ) -> (r: NeptuneResult<()>)
        requires
            old(series).wf(),
            old(series)@.len() > 0 ==> time >= old(series)@.last().0,
            old(series)@.len() > 0 && old(series)@.last().0 != time && old(
                self,
            ).pool.shares.val() != 0 ==> old(self).pool.balance.val() * (time - old(
                series,
            )@.last().0) < amount_bound() && spec_new_accum(old(self).pool, old(series)@, time)
                < amount_bound(),
            (!spec_zero_share_advance(old(self).pool, old(series)@, time) && spec_account_lookup(
                *old(series),
                old(self).pool,
                time,
                *old(account),
            ) is Some) ==> ({
                let v = spec_account_lookup(
                    *old(series),
                    old(self).pool,
                    time,
                    *old(account),
                )->Some_0;
                spec_mul_div(
                    old(account).pool_account.shares.val(),
                    spec_new_accum(old(self).pool, old(series)@, time) - v,
                    ratio_scale(),
                ) < amount_bound() && old(account).accumulator.val() + spec_mul_div(
                    old(account).pool_account.shares.val(),
                    spec_new_accum(old(self).pool, old(series)@, time) - v,
                    ratio_scale(),
                ) < amount_bound()
            }),
        ensures
            *final(self) == *old(self),
            final(series).wf(),
            spec_zero_share_advance(old(self).pool, old(series)@, time) ==> ({
                &&& r matches Err(e) && e is DivideByZero
                &&& final(series)@ == old(series)@
                &&& *final(account) == *old(account)
            }),
            (!spec_zero_share_advance(old(self).pool, old(series)@, time) && spec_appends(
                old(series)@,
                time,
            )) ==> final(series)@.len() == old(series)@.len() + 1 && final(series)@.drop_last()
                == old(series)@ && final(series)@.last().0 == time
                && final(series)@.last().1.val() == spec_new_accum(
                old(self).pool,
                old(series)@,
                time,
            ),
            !spec_appends(old(series)@, time) ==> final(series)@ == old(series)@,
            final(account).pool_account == old(account).pool_account,
            (!spec_zero_share_advance(old(self).pool, old(series)@, time) && old(
                account,
            ).last_accumulation is None) ==> ({
                &&& r is Ok
                &&& final(account).accumulator == old(account).accumulator
                &&& final(account).last_accumulation == Some(time)
            }),
            (!spec_zero_share_advance(old(self).pool, old(series)@, time) && spec_account_lookup(
                *old(series),
                old(self).pool,
                time,
                *old(account),
            ) is Some) ==> ({
                let v = spec_account_lookup(
                    *old(series),
                    old(self).pool,
                    time,
                    *old(account),
                )->Some_0;
                &&& r is Ok
                &&& final(account).accumulator.val() == old(account).accumulator.val()
                    + spec_mul_div(
                    old(account).pool_account.shares.val(),
                    spec_new_accum(old(self).pool, old(series)@, time) - v,
                    ratio_scale(),
                )
                &&& final(account).last_accumulation == Some(time)
            }),
            (!spec_zero_share_advance(old(self).pool, old(series)@, time) && old(
                account,
            ).last_accumulation is Some && spec_account_lookup(
                *old(series),
                old(self).pool,
                time,
                *old(account),
            ) is None) ==> ({
                &&& r matches Err(e) && e is KeyNotFound
                &&& *final(account) == *old(account)
            }),
    {
        let ghost old_series = *series;
        let ghost na = spec_new_accum(self.pool, series@, time);
        // Advance the global checkpoint.
        let accumulation: Ratio;
        match series.last() {
            Some(last_entry) => {
                let duration = time - last_entry.0;
                if duration == 0 {
                    accumulation = last_entry.1;
                } else {
                    if self.pool.shares.is_zero() {
                        return Err(NeptuneError::DivideByZero);
                    }
                    let dur_amount = Amount::from_u128(duration as u128);
                    let product = match self.pool.balance.checked_mul(dur_amount) {
                        Ok(p) => p,
                        Err(_) => Amount::zero(),
                    };
                    let delta = Ratio::from_ratio(product, self.pool.shares);
                    proof {
                        vstd::arithmetic::mul::lemma_mul_nonnegative(
                            self.pool.balance.val(),
                            time - last_entry.0,
                        );
                        vstd::arithmetic::mul::lemma_mul_nonnegative(
                            product.val(),
                            ratio_scale(),
                        );
                        vstd::arithmetic::div_mod::lemma_div_pos_is_pos(
                            product.val() * ratio_scale(),
                            self.pool.shares.val(),
                        );
                    }
                    accumulation = last_entry.1.add_ratio(delta);
                    series.save(time, accumulation);
                }
            },
            None => {
                accumulation = Ratio::zero();
                series.save(time, accumulation);
            },
        }
        proof {
            assert(accumulation.val() == na);
        }
        // Settle the account against its last checkpoint.
        match account.last_accumulation {
            Some(t) => {
                proof {
                    if old_series.spec_contains_time(t) {
                        let it = old_series.spec_index_of_time(t);
                        assert(series@[it] == old_series@[it]);
                        series.lemma_time_index_unique(t, it, series.spec_index_of_time(t));
                    }
                    if !old_series.spec_contains_time(t) && !(spec_appends(old_series@, time) && t
                        == time) && series.spec_contains_time(t) {
                        let it = series.spec_index_of_time(t);
                        if it < old_series@.len() {
                            assert(old_series@[it].0 == t);
                        } else {
                            assert(series@[it].0 == time);
                        }
                    }
                }
                match series.load_at(t) {
                    Ok(looked_up) => {
                        proof {
                            // the looked-up value never exceeds the new accumulation
                            let it = series.spec_index_of_time(t);
                            if it < series@.len() - 1 {
                                assert(series@[it].1.val() <= series@[series@.len() - 1].1.val());
                            }
                            assert(series@.last().1.val() == na);
                        }
                        let diff = accumulation.sub_ratio(looked_up);
                        let credit = account.pool_account.shares.multiply_ratio(
                            diff.atomics,
                            Ratio::scale_amount(),
                        );
                        account.accumulator = account.accumulator.add_amt(credit);
                        account.last_accumulation = Some(time);
                        Ok(())
                    },
                    Err(e) => {
                        return Err(e);
                    },
                }
            },
            None => {
                account.last_accumulation = Some(time);
                Ok(())
            },
        }
    }
}

} // verus!
