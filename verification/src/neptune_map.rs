//! The keyed accounting container.
//!
//! A [`NeptuneMap`] is a vector of `(key, value)` pairs in insertion order
//! with at most one entry per key, where two keys name the same entry
//! exactly when their views agree ([`MapKey`]). The element-wise arithmetic
//! over amount-valued maps lives at the bottom of the module: addition and
//! subtraction fill missing keys with the default, multiplication of two
//! maps intersects their key sets, and `mul_all` demands the right map to
//! cover the left.

use vstd::pervasive::VecAdditionalExecFns;
use vstd::prelude::*;

use crate::amount::{amount_bound, spec_mul_div, Amount};
use crate::error::{CommonError, CommonResult};
use crate::ratio::{ratio_scale, Ratio};
use crate::traits::{DefaultValue, MapKey, Zeroed};

verus! {

/// An associative container over unique keys, keeping insertion order.
#[derive(Clone, Debug, PartialEq, Eq)]
pub struct NeptuneMap<K, V>(Vec<(K, V)>);

impl<K, V> View for NeptuneMap<K, V> {
    type V = Seq<(K, V)>;

    closed spec fn view(&self) -> Seq<(K, V)> {
        self.0@
    }
}

impl<K: MapKey, V> NeptuneMap<K, V> {
    /// Well-formed: no two entries share a key.
    pub open spec fn wf(self) -> bool {
        forall|i: int, j: int| 0 <= i < j < self@.len() ==> self@[i].0@ != self@[j].0@
    }

    /// Whether some entry is named `k`.
    pub open spec fn spec_contains_key(self, k: <K as View>::V) -> bool {
        exists|i: int| 0 <= i < self@.len() && self@[i].0@ == k
    }

    /// The index of the entry named `k`; unique under [`NeptuneMap::wf`].
    pub open spec fn spec_index_of(self, k: <K as View>::V) -> int {
        choose|i: int| 0 <= i < self@.len() && self@[i].0@ == k
    }

    /// The value stored under `k`.
    pub open spec fn spec_get(self, k: <K as View>::V) -> V {
        self@[self.spec_index_of(k)].1
    }

    /// Two entries matching the same key are the same entry.
    proof fn lemma_key_index_unique(self, k: <K as View>::V, i: int, j: int)
        requires
            self.wf(),
            0 <= i < self@.len(),
            0 <= j < self@.len(),
            self@[i].0@ == k,
            self@[j].0@ == k,
        ensures
            i == j,
    {
        if i < j {
            assert(self@[i].0@ != self@[j].0@);
        } else if j < i {
            assert(self@[j].0@ != self@[i].0@);
        }
    }

    /// The index of the entry named by `key`, if any.
    fn position_of_key(&self, key: &K) -> (r: Option<usize>)
        ensures
            r matches Some(i) ==> 0 <= i < self@.len() && self@[i as int].0@ == key@,
            r is Some <==> self.spec_contains_key(key@),
    {
        let n = self.0.len();
        let mut i: usize = 0;
        while i < n
            invariant
                n == self@.len(),
                i <= n,
                forall|j: int| 0 <= j < i ==> self@[j].0@ != key@,
            decreases n - i,
    {
            if self.0[i].0.key_eq(key) {
                return Some(i);
            }
            i += 1;
        }
        None
    }

    /// The empty map.
    pub fn new() -> (r: Self)
        ensures
            r@.len() == 0,
            r.wf(),
    {
        NeptuneMap(Vec::new())
    }

    /// The map holding exactly the given pairs; the caller keeps the keys
    /// unique.
    pub fn from_pairs(pairs: Vec<(K, V)>) -> (r: Self)
        requires
            forall|i: int, j: int| 0 <= i < j < pairs@.len() ==> pairs@[i].0@ != pairs@[j].0@,
        ensures
            r@ == pairs@,
            r.wf(),
    {
        NeptuneMap(pairs)
    }

    /// The pairs, in insertion order.
    pub fn into_pairs(self) -> (r: Vec<(K, V)>)
        ensures
            r@ == self@,
    {
        self.0
    }

    /// How many entries the map holds.
    pub fn len(&self) -> (r: usize)
        ensures
            r == self@.len(),
    {
        self.0.len()
    }

    /// A read of the entry at a position, for walking the map in order.
    pub fn entry_at(&self, i: usize) -> (r: &(K, V))
        requires
            i < self@.len(),
        ensures
            *r == self@[i as int],
    {
        &self.0[i]
    }

    /// Replaces the value under `key` and returns the previous one, or
    /// appends a new entry and returns `None`.
    pub fn insert(&mut self, key: K, value: V) -> (r: Option<V>)
        requires
            old(self).wf(),
        ensures
            final(self).wf(),
            old(self).spec_contains_key(key@) ==> (r matches Some(v) && v == old(self).spec_get(
                key@,
            ) && final(self)@ == old(self)@.update(old(self).spec_index_of(key@), (key, value))),
            !old(self).spec_contains_key(key@) ==> r is None && final(self)@ == old(self)@.push(
                (key, value),
            ),
    {
        match self.position_of_key(&key) {
            Some(i) => {
                proof {
                    old(self).lemma_key_index_unique(
                        key@,
                        i as int,
                        old(self).spec_index_of(key@),
                    );
                }
                let mut pair = (key, value);
                self.0.set_and_swap(i, &mut pair);
                proof {
                    assert forall|a: int, b: int|
                        0 <= a < b < self@.len() implies self@[a].0@ != self@[b].0@ by {
                        assert(self@[a].0@ == old(self)@[a].0@);
                        assert(self@[b].0@ == old(self)@[b].0@);
                    }
                }
                Some(pair.1)
            },
            None => {
                self.0.push((key, value));
                proof {
                    assert forall|a: int, b: int|
                        0 <= a < b < self@.len() implies self@[a].0@ != self@[b].0@ by {
                        if b < self@.len() - 1 {
                            assert(old(self)@[a].0@ != old(self)@[b].0@);
                        } else {
                            assert(self@[b].0@ == key@);
                            assert(old(self)@[a].0@ != key@) by {
                                if old(self)@[a].0@ == key@ {
                                    assert(old(self).spec_contains_key(key@));
                                }
                            }
                        }
                    }
                }
                None
            },
        }
    }

    /// Whether the map holds an entry named by `key`.
    pub fn contains_key(&self, key: &K) -> (r: bool)
        ensures
            r == self.spec_contains_key(key@),
    {
        self.position_of_key(key).is_some()
    }

    /// The value under `key`, if any.
    pub fn get(&self, key: &K) -> (r: Option<&V>)
        requires
            self.wf(),
        ensures
            self.spec_contains_key(key@) ==> (r matches Some(v) && *v == self.spec_get(key@)),
            !self.spec_contains_key(key@) ==> r is None,
    {
        match self.position_of_key(key) {
            Some(i) => {
                proof {
                    self.lemma_key_index_unique(key@, i as int, self.spec_index_of(key@));
                }
                Some(&self.0[i].1)
            },
            None => None,
        }
    }

    /// The value under `key`, or `KeyNotFound`.
    pub fn must_get(&self, key: &K) -> (r: CommonResult<&V>)
        requires
            self.wf(),
        ensures
            self.spec_contains_key(key@) ==> (r matches Ok(v) && *v == self.spec_get(key@)),
            !self.spec_contains_key(key@) ==> (r matches Err(e) && e is KeyNotFound),
    {
        match self.get(key) {
            Some(v) => Ok(v),
            None => Err(CommonError::KeyNotFound),
        }
    }

    /// Exclusive access to the value under `key`, if any; only that value
    /// changes through it.
    pub fn get_mut(&mut self, key: &K) -> (r: Option<&mut V>)
        requires
            old(self).wf(),
        ensures
            final(self).wf(),
            old(self).spec_contains_key(key@) ==> (r matches Some(v) && *v == old(self).spec_get(
                key@,
            ) && final(self)@ == old(self)@.update(
                old(self).spec_index_of(key@),
                (old(self)@[old(self).spec_index_of(key@)].0, *final(v)),
            )),
            !old(self).spec_contains_key(key@) ==> r is None && final(self)@ == old(self)@,
    {
        match self.position_of_key(key) {
            Some(i) => {
                proof {
                    old(self).lemma_key_index_unique(
                        key@,
                        i as int,
                        old(self).spec_index_of(key@),
                    );
                }
                Some(&mut self.0[i].1)
            },
            None => None,
        }
    }

    /// Exclusive access to the value under `key`, or `KeyNotFound`.
    pub fn must_get_mut(&mut self, key: &K) -> (r: CommonResult<&mut V>)
        requires
            old(self).wf(),
        ensures
            final(self).wf(),
            old(self).spec_contains_key(key@) ==> (r matches Ok(v) && *v == old(self).spec_get(
                key@,
            ) && final(self)@ == old(self)@.update(
                old(self).spec_index_of(key@),
                (old(self)@[old(self).spec_index_of(key@)].0, *final(v)),
            )),
            !old(self).spec_contains_key(key@) ==> ({
                &&& r matches Err(e) && e is KeyNotFound
                &&& final(self)@ == old(self)@
            }),
    {
        match self.get_mut(key) {
            Some(v) => Ok(v),
            None => Err(CommonError::KeyNotFound),
        }
    }
}

impl<K: MapKey, V: DefaultValue> NeptuneMap<K, V> {
    /// Exclusive access to the value under `key`, inserting the default
    /// first when the key is new.
    pub fn get_mut_or_default(&mut self, key: &K) -> (r: &mut V)
        requires
            old(self).wf(),
        ensures
            final(self).wf(),
            old(self).spec_contains_key(key@) ==> *r == old(self).spec_get(key@) && final(self)@
                == old(self)@.update(
                old(self).spec_index_of(key@),
                (old(self)@[old(self).spec_index_of(key@)].0, *final(r)),
            ),
            !old(self).spec_contains_key(key@) ==> *r == V::spec_default() && final(self)@.len()
                == old(self)@.len() + 1 && final(self)@.subrange(0, old(self)@.len() as int) == old(
                self,
            )@ && final(self)@.last().0@ == key@ && final(self)@.last().1 == *final(r),
    {
        match self.position_of_key(key) {
            Some(i) => {
                proof {
                    old(self).lemma_key_index_unique(
                        key@,
                        i as int,
                        old(self).spec_index_of(key@),
                    );
                }
                &mut self.0[i].1
            },
            None => {
                self.0.push((key.key_clone(), V::default_value()));
                let n = self.0.len();
                &mut self.0[n - 1].1
            },
        }
    }
}

} // verus!

verus! {

/// The mathematical content of an amount-valued map: each entry as its
/// key's view paired with the amount's integer value.
pub open spec fn amount_pairs_model<K: View>(s: Seq<(K, Amount)>) -> Seq<(<K as View>::V, int)> {
    s.map_values(|p: (K, Amount)| (p.0@, p.1.val()))
}

/// Whether the model holds an entry named `k`.
pub open spec fn model_contains<KV>(s: Seq<(KV, int)>, k: KV) -> bool {
    exists|i: int| 0 <= i < s.len() && s[i].0 == k
}

/// The index of the entry named `k`; unique under [`model_wf`].
pub open spec fn model_index_of<KV>(s: Seq<(KV, int)>, k: KV) -> int {
    choose|i: int| 0 <= i < s.len() && s[i].0 == k
}

/// The value stored under `k`.
pub open spec fn model_get<KV>(s: Seq<(KV, int)>, k: KV) -> int {
    s[model_index_of(s, k)].1
}

/// The value stored under `k`, with the default zero filled in for a
/// missing key.
pub open spec fn model_get_or_zero<KV>(s: Seq<(KV, int)>, k: KV) -> int {
    if model_contains(s, k) {
        model_get(s, k)
    } else {
        0
    }
}

/// Keys are unique in the model.
pub open spec fn model_wf<KV>(s: Seq<(KV, int)>) -> bool {
    forall|i: int, j: int| 0 <= i < j < s.len() ==> s[i].0 != s[j].0
}

/// All values lie in the representable amount range.
pub open spec fn model_vals_fit<KV>(s: Seq<(KV, int)>) -> bool {
    forall|i: int| 0 <= i < s.len() ==> 0 <= #[trigger] s[i].1 < amount_bound()
}

/// One step of element-wise map addition or subtraction (`sign` is `1` or
/// `-1`): combine `p` into the matching entry, or append it (scaled by the
/// sign) for a fresh key.
pub open spec fn spec_merge_pair<KV>(s: Seq<(KV, int)>, p: (KV, int), sign: int) -> Seq<(KV, int)> {
    if model_contains(s, p.0) {
        let i = model_index_of(s, p.0);
        s.update(i, (s[i].0, s[i].1 + sign * p.1))
    } else {
        s.push((p.0, sign * p.1))
    }
}

/// Element-wise map addition or subtraction: fold every right-hand entry
/// into the left map, filling missing keys with the default.
pub open spec fn spec_merge_seq<KV>(s: Seq<(KV, int)>, rhs: Seq<(KV, int)>, sign: int) -> Seq<
    (KV, int),
>
    decreases rhs.len(),
{
    if rhs.len() == 0 {
        s
    } else {
        spec_merge_seq(spec_merge_pair(s, rhs.first(), sign), rhs.drop_first(), sign)
    }
}

proof fn lemma_model_index_unique<KV>(s: Seq<(KV, int)>, k: KV, i: int, j: int)
    requires
        model_wf(s),
        0 <= i < s.len(),
        0 <= j < s.len(),
        s[i].0 == k,
        s[j].0 == k,
    ensures
        i == j,
{
    if i < j {
        assert(s[i].0 != s[j].0);
    } else if j < i {
        assert(s[j].0 != s[i].0);
    }
}

/// What one merge step does: well-formedness is kept, the touched key's
/// value moves by `sign * p.1`, every other key is untouched.
proof fn lemma_merge_pair_props<KV>(s: Seq<(KV, int)>, p: (KV, int), sign: int)
    requires
        model_wf(s),
    ensures
        model_wf(spec_merge_pair(s, p, sign)),
        forall|x: KV| #[trigger]
            model_contains(spec_merge_pair(s, p, sign), x) <==> (model_contains(s, x) || x == p.0),
        forall|x: KV|
            x != p.0 ==> #[trigger] model_get_or_zero(spec_merge_pair(s, p, sign), x)
                == model_get_or_zero(s, x),
        model_get_or_zero(spec_merge_pair(s, p, sign), p.0) == model_get_or_zero(s, p.0) + sign
            * p.1,
{
    let t = spec_merge_pair(s, p, sign);
    if model_contains(s, p.0) {
        let i = model_index_of(s, p.0);
        assert(0 <= i < s.len() && s[i].0 == p.0);
        assert(forall|j: int| 0 <= j < t.len() ==> t[j].0 == s[j].0);
        assert forall|x: KV| #[trigger] model_contains(t, x) implies (model_contains(s, x) || x
            == p.0) by {
            let j = choose|j: int| 0 <= j < t.len() && t[j].0 == x;
            assert(s[j].0 == x);
        }
        assert forall|x: KV| model_contains(s, x) implies #[trigger] model_contains(t, x) by {
            let j = choose|j: int| 0 <= j < s.len() && s[j].0 == x;
            assert(t[j].0 == x);
        }
        assert forall|x: KV|
            x != p.0 && model_contains(s, x) implies #[trigger] model_get_or_zero(t, x)
            == model_get_or_zero(s, x) by {
            let j = model_index_of(s, x);
            assert(0 <= j < s.len() && s[j].0 == x);
            assert(j != i);
            assert(t[j].0 == x && t[j].1 == s[j].1);
            let j2 = model_index_of(t, x);
            assert(0 <= j2 < t.len() && t[j2].0 == x);
            lemma_model_index_unique(t, x, j, j2);
        }
        let i2 = model_index_of(t, p.0);
        assert(t[i].0 == p.0);
        assert(0 <= i2 < t.len() && t[i2].0 == p.0);
        lemma_model_index_unique(t, p.0, i, i2);
        assert(model_get(t, p.0) == s[i].1 + sign * p.1);
        lemma_model_index_unique(s, p.0, i, model_index_of(s, p.0));
    } else {
        assert(t == s.push((p.0, sign * p.1)));
        assert forall|a: int, b: int| 0 <= a < b < t.len() implies t[a].0 != t[b].0 by {
            if b < t.len() - 1 {
                assert(s[a].0 != s[b].0);
            } else {
                assert(t[b].0 == p.0);
                if t[a].0 == p.0 {
                    assert(s[a].0 == p.0);
                    assert(model_contains(s, p.0));
                }
            }
        }
        assert forall|x: KV| #[trigger] model_contains(t, x) implies (model_contains(s, x) || x
            == p.0) by {
            let j = choose|j: int| 0 <= j < t.len() && t[j].0 == x;
            if j < t.len() - 1 {
                assert(s[j].0 == x);
            }
        }
        assert forall|x: KV| model_contains(s, x) implies #[trigger] model_contains(t, x) by {
            let j = choose|j: int| 0 <= j < s.len() && s[j].0 == x;
            assert(t[j].0 == x);
        }
        assert(t[t.len() - 1].0 == p.0);
        assert forall|x: KV|
            x != p.0 && model_contains(s, x) implies #[trigger] model_get_or_zero(t, x)
            == model_get_or_zero(s, x) by {
            let j = model_index_of(s, x);
            assert(0 <= j < s.len() && s[j].0 == x);
            assert(t[j].0 == x && t[j].1 == s[j].1);
            let j2 = model_index_of(t, x);
            assert(0 <= j2 < t.len() && t[j2].0 == x);
            lemma_model_index_unique(t, x, j, j2);
        }
        let i2 = model_index_of(t, p.0);
        assert(0 <= i2 < t.len() && t[i2].0 == p.0);
        lemma_model_index_unique(t, p.0, t.len() - 1, i2);
        assert(model_get(t, p.0) == sign * p.1);
    }
}

/// Folding one more pair at the end equals one merge step after the fold.
proof fn lemma_merge_seq_push<KV>(s: Seq<(KV, int)>, rhs: Seq<(KV, int)>, p: (KV, int), sign: int)
    ensures
        spec_merge_seq(s, rhs.push(p), sign) == spec_merge_pair(
            spec_merge_seq(s, rhs, sign),
            p,
            sign,
        ),
    decreases rhs.len(),
{
    let one = rhs.push(p);
    if rhs.len() == 0 {
        assert(one.first() == p);
        assert(one.drop_first() =~= Seq::<(KV, int)>::empty());
        assert(spec_merge_seq(s, one, sign) == spec_merge_seq(
            spec_merge_pair(s, p, sign),
            one.drop_first(),
            sign,
        ));
        assert(spec_merge_seq(spec_merge_pair(s, p, sign), one.drop_first(), sign)
            == spec_merge_pair(s, p, sign));
    } else {
        assert(one.first() == rhs.first());
        assert(one.drop_first() =~= rhs.drop_first().push(p));
        assert(spec_merge_seq(s, one, sign) == spec_merge_seq(
            spec_merge_pair(s, rhs.first(), sign),
            rhs.drop_first().push(p),
            sign,
        ));
        lemma_merge_seq_push(spec_merge_pair(s, rhs.first(), sign), rhs.drop_first(), p, sign);
        assert(spec_merge_seq(s, rhs, sign) == spec_merge_seq(
            spec_merge_pair(s, rhs.first(), sign),
            rhs.drop_first(),
            sign,
        ));
    }
}

/// Dropping the first entry of a well-formed model leaves every other key's
/// entry alone.
proof fn lemma_model_drop_first<KV>(s: Seq<(KV, int)>, x: KV)
    requires
        model_wf(s),
        s.len() > 0,
        x != s.first().0,
    ensures
        model_contains(s.drop_first(), x) <==> model_contains(s, x),
        model_get_or_zero(s.drop_first(), x) == model_get_or_zero(s, x),
        model_wf(s.drop_first()),
{
    let t = s.drop_first();
    assert(forall|j: int| 0 <= j < t.len() ==> t[j] == s[j + 1]);
    if model_contains(t, x) {
        let j = choose|j: int| 0 <= j < t.len() && t[j].0 == x;
        assert(s[j + 1].0 == x);
    }
    if model_contains(s, x) {
        let j = choose|j: int| 0 <= j < s.len() && s[j].0 == x;
        assert(j != 0);
        assert(t[j - 1].0 == x);
        let j2 = model_index_of(t, x);
        assert(0 <= j2 < t.len() && t[j2].0 == x);
        let js = model_index_of(s, x);
        assert(0 <= js < s.len() && s[js].0 == x);
        lemma_model_index_unique(s, x, j, js);
        lemma_model_index_unique(t, x, j - 1, j2);
        assert(model_get(t, x) == s[j].1);
    }
}

/// The law of element-wise addition and subtraction: key sets unite, and
/// each key's value is the combination of the two sides' values, a missing
/// side counting as the default zero.
pub proof fn lemma_merge_seq_props<KV>(s: Seq<(KV, int)>, rhs: Seq<(KV, int)>, sign: int)
    requires
        model_wf(s),
        model_wf(rhs),
    ensures
        model_wf(spec_merge_seq(s, rhs, sign)),
        forall|x: KV| #[trigger]
            model_contains(spec_merge_seq(s, rhs, sign), x) <==> (model_contains(s, x)
                || model_contains(rhs, x)),
        forall|x: KV| #[trigger]
            model_get_or_zero(spec_merge_seq(s, rhs, sign), x) == model_get_or_zero(s, x) + sign
                * model_get_or_zero(rhs, x),
    decreases rhs.len(),
{
    if rhs.len() == 0 {
        assert forall|x: KV| #[trigger]
            model_get_or_zero(spec_merge_seq(s, rhs, sign), x) == model_get_or_zero(s, x) + sign
                * model_get_or_zero(rhs, x) by {
            assert(!model_contains(rhs, x));
            assert(sign * 0 == 0) by (nonlinear_arith);
        }
    } else {
        let p = rhs.first();
        let s1 = spec_merge_pair(s, p, sign);
        lemma_merge_pair_props(s, p, sign);
        assert forall|x: KV| x != p.0 implies (model_contains(rhs.drop_first(), x)
            <==> model_contains(rhs, x)) && model_get_or_zero(rhs.drop_first(), x)
            == model_get_or_zero(rhs, x) by {
            lemma_model_drop_first(rhs, x);
        }
        lemma_model_drop_first_wf(rhs);
        lemma_merge_seq_props(s1, rhs.drop_first(), sign);
        let r = spec_merge_seq(s, rhs, sign);
        assert(r == spec_merge_seq(s1, rhs.drop_first(), sign));
        assert forall|x: KV| #[trigger]
            model_get_or_zero(r, x) == model_get_or_zero(s, x) + sign * model_get_or_zero(rhs, x)
            by {
            if x == p.0 {
                assert(!model_contains(rhs.drop_first(), p.0)) by {
                    if model_contains(rhs.drop_first(), p.0) {
                        let j = choose|j: int|
                            0 <= j < rhs.drop_first().len() && rhs.drop_first()[j].0 == p.0;
                        assert(rhs[j + 1].0 == p.0);
                        assert(rhs[0].0 != rhs[j + 1].0);
                    }
                };
                assert(model_get_or_zero(r, x) == model_get_or_zero(s1, x) + sign * 0);
                assert(sign * 0 == 0) by (nonlinear_arith);
                assert(model_get_or_zero(rhs, p.0) == p.1) by {
                    assert(rhs[0].0 == p.0);
                    let j = model_index_of(rhs, p.0);
                    assert(0 <= j < rhs.len() && rhs[j].0 == p.0);
                    lemma_model_index_unique(rhs, p.0, 0, j);
                    assert(rhs[0].1 == p.1);
                };
            }
        }
    }
}

/// Dropping the first entry keeps the model well-formed.
proof fn lemma_model_drop_first_wf<KV>(s: Seq<(KV, int)>)
    requires
        model_wf(s),
        s.len() > 0,
    ensures
        model_wf(s.drop_first()),
{
    let t = s.drop_first();
    assert forall|i: int, j: int| 0 <= i < j < t.len() implies t[i].0 != t[j].0 by {
        assert(s[i + 1].0 != s[j + 1].0);
    }
}

} // verus!


verus! {

/// A well-formed model's prefix is well-formed, and no key of the rest
/// occurs in it.
proof fn lemma_model_take_wf<KV>(s: Seq<(KV, int)>, i: int)
    requires
        model_wf(s),
        0 <= i <= s.len(),
    ensures
        model_wf(s.take(i)),
        forall|j: int| i <= j < s.len() ==> !model_contains(s.take(i), #[trigger] s[j].0),
{
    let t = s.take(i);
    assert(forall|a: int| 0 <= a < i ==> t[a] == s[a]);
    assert forall|j: int| i <= j < s.len() implies !model_contains(t, #[trigger] s[j].0) by {
        if model_contains(t, s[j].0) {
            let a = choose|a: int| 0 <= a < t.len() && t[a].0 == s[j].0;
            assert(s[a].0 != s[j].0);
        }
    }
}

/// The entry at a position of a well-formed model is the entry its key
/// names.
proof fn lemma_model_get_at<KV>(s: Seq<(KV, int)>, i: int)
    requires
        model_wf(s),
        0 <= i < s.len(),
    ensures
        model_contains(s, s[i].0),
        model_index_of(s, s[i].0) == i,
        model_get(s, s[i].0) == s[i].1,
{
    let j = model_index_of(s, s[i].0);
    assert(0 <= j < s.len() && s[j].0 == s[i].0);
    lemma_model_index_unique(s, s[i].0, i, j);
}

impl<K: MapKey> NeptuneMap<K, Amount> {
    /// A well-formed map and its model agree on keys, indices and values.
    proof fn lemma_model_bridge(self)
        requires
            self.wf(),
        ensures
            model_wf(amount_pairs_model(self@)),
            amount_pairs_model(self@).len() == self@.len(),
            forall|k: <K as View>::V| #[trigger]
                model_contains(amount_pairs_model(self@), k) <==> self.spec_contains_key(k),
            forall|k: <K as View>::V|
                self.spec_contains_key(k) ==> #[trigger] model_index_of(
                    amount_pairs_model(self@),
                    k,
                ) == self.spec_index_of(k) && model_get(amount_pairs_model(self@), k)
                    == self.spec_get(k).val(),
    {
        let m = amount_pairs_model(self@);
        assert(forall|i: int| 0 <= i < m.len() ==> m[i] == (self@[i].0@, self@[i].1.val()));
        assert forall|k: <K as View>::V| #[trigger]
            model_contains(m, k) implies self.spec_contains_key(k) by {
            let i = choose|i: int| 0 <= i < m.len() && m[i].0 == k;
            assert(self@[i].0@ == k);
        }
        assert forall|k: <K as View>::V|
            self.spec_contains_key(k) implies #[trigger] model_contains(m, k) by {
            let i = choose|i: int| 0 <= i < self@.len() && self@[i].0@ == k;
            assert(m[i].0 == k);
        }
        assert forall|k: <K as View>::V| self.spec_contains_key(k) implies #[trigger] model_index_of(
            m,
            k,
        ) == self.spec_index_of(k) && model_get(m, k) == self.spec_get(k).val() by {
            let im = model_index_of(m, k);
            let i = self.spec_index_of(k);
            assert(0 <= i < self@.len() && self@[i].0@ == k);
            assert(m[i].0 == k);
            assert(0 <= im < m.len() && m[im].0 == k);
            assert(self@[im].0@ == k);
            self.lemma_key_index_unique(k, i, im);
        }
    }

    /// Element-wise addition: every right-hand entry is added to the entry
    /// its key names, in place; a key missing on the left starts from the
    /// default zero and is appended in right-hand order. No key of either
    /// side is dropped.
    pub fn add(self, rhs: Self) -> (r: Self)
        requires
            self.wf(),
            rhs.wf(),
            model_vals_fit(
                spec_merge_seq(amount_pairs_model(self@), amount_pairs_model(rhs@), 1),
            ),
        ensures
            r.wf(),
            amount_pairs_model(r@) == spec_merge_seq(
                amount_pairs_model(self@),
                amount_pairs_model(rhs@),
                1,
            ),
    {
        let ghost lhs0 = amount_pairs_model(self@);
        let ghost rm = amount_pairs_model(rhs@);
        proof {
            self.lemma_model_bridge();
            rhs.lemma_model_bridge();
            assert(rm.take(0) =~= Seq::<(<K as View>::V, int)>::empty());
        }
        let mut this = self;
        let n = rhs.0.len();
        let mut i: usize = 0;
        while i < n
            invariant
                n == rhs@.len(),
                i <= n,
                this.wf(),
                rhs.wf(),
                rm == amount_pairs_model(rhs@),
                model_wf(lhs0),
                model_wf(rm),
                rm.len() == n,
                model_vals_fit(spec_merge_seq(lhs0, rm, 1)),
                amount_pairs_model(this@) == spec_merge_seq(lhs0, rm.take(i as int), 1),
            decreases n - i,
        {
            let ghost pre_map = this;
            let ghost pre = amount_pairs_model(this@);
            let ghost p = rm[i as int];
            proof {
                assert(p == (rhs@[i as int].0@, rhs@[i as int].1.val()));
                lemma_model_take_wf(rm, i as int);
                lemma_merge_seq_props(lhs0, rm.take(i as int), 1);
                lemma_merge_seq_props(lhs0, rm, 1);
                lemma_model_get_at(rm, i as int);
                pre_map.lemma_model_bridge();
                // the value this entry ends at, which the requires bounds
                let full = spec_merge_seq(lhs0, rm, 1);
                assert(model_contains(full, p.0));
                let fi = model_index_of(full, p.0);
                assert(0 <= fi < full.len() && full[fi].0 == p.0);
                assert(0 <= full[fi].1 < amount_bound());
                lemma_model_get_at(full, fi);
                assert(model_get_or_zero(full, p.0) == model_get_or_zero(lhs0, p.0) + 1
                    * model_get_or_zero(rm, p.0));
                // this key has not been touched yet
                assert(model_get_or_zero(rm.take(i as int), p.0) == 0);
                assert(model_get_or_zero(pre, p.0) == model_get_or_zero(lhs0, p.0) + 1 * 0);
            }
            let key_ref = &rhs.0[i].0;
            let v = rhs.0[i].1;
            let slot = this.get_mut_or_default(key_ref);
            let cur = *slot;
            proof {
                if pre_map.spec_contains_key(p.0) {
                    assert(cur.val() == model_get(pre, p.0));
                } else {
                    assert(cur == <Amount as DefaultValue>::spec_default());
                }
                assert(cur.val() == model_get_or_zero(pre, p.0));
            }
            let new_amt = cur.add_amt(v);
            *slot = new_amt;
            proof {
                let post = amount_pairs_model(this@);
                if pre_map.spec_contains_key(p.0) {
                    let im = pre_map.spec_index_of(p.0);
                    assert(this@ == pre_map@.update(im, (pre_map@[im].0, new_amt)));
                    assert(post =~= spec_merge_pair(pre, p, 1)) by {
                        assert(model_index_of(pre, p.0) == im);
                        assert(forall|j: int|
                            0 <= j < post.len() ==> post[j] == (this@[j].0@, this@[j].1.val()));
                    };
                } else {
                    assert(post =~= spec_merge_pair(pre, p, 1)) by {
                        assert(forall|j: int|
                            0 <= j < post.len() ==> post[j] == (this@[j].0@, this@[j].1.val()));
                        assert(forall|j: int|
                            0 <= j < pre.len() ==> this@[j] == pre_map@.subrange(
                                0,
                                pre_map@.len() as int,
                            )[j]);
                        assert(forall|j: int| 0 <= j < pre.len() ==> this@[j] == pre_map@[j]);
                        assert(this@.last().0@ == p.0);
                        assert(this@.last().1.val() == 1 * p.1);
                    };
                }
                assert(rm.take(i + 1) =~= rm.take(i as int).push(p));
                lemma_merge_seq_push(lhs0, rm.take(i as int), p, 1);
            }
            i += 1;
        }
        proof {
            assert(rm.take(n as int) =~= rm);
        }
        this
    }
}

} // verus!

verus! {

/// The mathematical content of a ratio-valued map: each entry as its key's
/// view paired with the ratio's atomic count.
pub open spec fn ratio_pairs_model<K: View>(s: Seq<(K, Ratio)>) -> Seq<(<K as View>::V, int)> {
    s.map_values(|p: (K, Ratio)| (p.0@, p.1.val()))
}

/// Sum of the amounts stored in the map.
pub open spec fn spec_sum_values<K>(s: Seq<(K, Amount)>) -> int
    decreases s.len(),
{
    if s.len() == 0 {
        0
    } else {
        s.first().1.val() + spec_sum_values(s.drop_first())
    }
}

proof fn lemma_sum_values_nonneg<K>(s: Seq<(K, Amount)>)
    ensures
        spec_sum_values(s) >= 0,
    decreases s.len(),
{
    if s.len() > 0 {
        lemma_sum_values_nonneg(s.drop_first());
    }
}

proof fn lemma_sum_values_skip<K>(s: Seq<(K, Amount)>, i: int)
    requires
        0 <= i < s.len(),
    ensures
        spec_sum_values(s.skip(i)) == s[i].1.val() + spec_sum_values(s.skip(i + 1)),
{
    assert(s.skip(i).first() == s[i]);
    assert(s.skip(i).drop_first() =~= s.skip(i + 1));
}

/// Element-wise multiplication of two maps: a key kept exactly when both
/// sides hold it, its amount scaled by the right map's ratio, floored; the
/// left map's order is kept.
pub open spec fn spec_mul_models<KV>(s: Seq<(KV, int)>, rhs: Seq<(KV, int)>) -> Seq<(KV, int)>
    decreases s.len(),
{
    if s.len() == 0 {
        s
    } else {
        let rest = spec_mul_models(s.drop_first(), rhs);
        if model_contains(rhs, s.first().0) {
            seq![(s.first().0, spec_mul_div(s.first().1, model_get(rhs, s.first().0), ratio_scale()))]
                + rest
        } else {
            rest
        }
    }
}

proof fn lemma_mul_models_concat<KV>(a: Seq<(KV, int)>, b: Seq<(KV, int)>, rhs: Seq<(KV, int)>)
    ensures
        spec_mul_models(a + b, rhs) == spec_mul_models(a, rhs) + spec_mul_models(b, rhs),
    decreases a.len(),
{
    if a.len() == 0 {
        assert(a + b =~= b);
        assert(spec_mul_models(a, rhs) + spec_mul_models(b, rhs) =~= spec_mul_models(b, rhs));
    } else {
        assert((a + b).len() > 0);
        assert((a + b).first() == a.first());
        assert((a + b).drop_first() =~= a.drop_first() + b);
        lemma_mul_models_concat(a.drop_first(), b, rhs);
        if model_contains(rhs, a.first().0) {
            assert(seq![
                (a.first().0, spec_mul_div(a.first().1, model_get(rhs, a.first().0), ratio_scale())),
            ] + (spec_mul_models(a.drop_first(), rhs) + spec_mul_models(b, rhs)) =~= (seq![
                (a.first().0, spec_mul_div(a.first().1, model_get(rhs, a.first().0), ratio_scale())),
            ] + spec_mul_models(a.drop_first(), rhs)) + spec_mul_models(b, rhs));
        }
    }
}

/// The intersecting multiplication keeps only left keys and keeps them
/// unique.
proof fn lemma_mul_models_props<KV>(s: Seq<(KV, int)>, rhs: Seq<(KV, int)>)
    requires
        model_wf(s),
    ensures
        model_wf(spec_mul_models(s, rhs)),
        forall|k: KV| model_contains(spec_mul_models(s, rhs), k) ==> #[trigger] model_contains(
            s,
            k,
        ),
    decreases s.len(),
{
    let res = spec_mul_models(s, rhs);
    if s.len() > 0 {
        lemma_model_drop_first_wf(s);
        lemma_mul_models_props(s.drop_first(), rhs);
        let rest = spec_mul_models(s.drop_first(), rhs);
        assert forall|k: KV| model_contains(rest, k) implies #[trigger] model_contains(s, k) by {
            if model_contains(rest, k) {
                assert(model_contains(s.drop_first(), k));
                let j = choose|j: int|
                    0 <= j < s.drop_first().len() && s.drop_first()[j].0 == k;
                assert(s[j + 1].0 == k);
            }
        }
        if model_contains(rhs, s.first().0) {
            let single = seq![
                (s.first().0, spec_mul_div(s.first().1, model_get(rhs, s.first().0), ratio_scale())),
            ];
            assert(res == single + rest);
            assert(forall|j: int| 0 <= j < rest.len() ==> res[j + 1] == rest[j]);
            assert forall|a: int, b: int| 0 <= a < b < res.len() implies res[a].0 != res[b].0 by {
                if a == 0 {
                    assert(res[b] == rest[b - 1]);
                    assert(model_contains(rest, rest[b - 1].0) ==> model_contains(
                        s.drop_first(),
                        rest[b - 1].0,
                    ));
                    if res[b].0 == s.first().0 {
                        assert(model_contains(rest, res[b].0));
                        assert(model_contains(s.drop_first(), s.first().0));
                        let j = choose|j: int|
                            0 <= j < s.drop_first().len() && s.drop_first()[j].0 == s.first().0;
                        assert(s[j + 1].0 == s[0].0);
                    }
                } else {
                    assert(res[a] == rest[a - 1] && res[b] == rest[b - 1]);
                }
            }
            assert forall|k: KV| model_contains(res, k) implies #[trigger] model_contains(s, k) by {
                let j = choose|j: int| 0 <= j < res.len() && res[j].0 == k;
                if j == 0 {
                    assert(s[0].0 == k);
                } else {
                    assert(rest[j - 1].0 == k);
                    assert(model_contains(rest, k));
                }
            }
        }
    }
}

impl<K: MapKey> NeptuneMap<K, Amount> {
    /// Element-wise subtraction: every right-hand entry is subtracted from
    /// the entry its key names; a key missing on the left counts as the
    /// default zero (and is appended with value zero rather than dropped).
    /// The fit condition demands that no entry would go below zero — the
    /// stored amounts cannot underflow.
    pub fn sub(self, rhs: Self) -> (r: Self)
        requires
            self.wf(),
            rhs.wf(),
            model_vals_fit(
                spec_merge_seq(amount_pairs_model(self@), amount_pairs_model(rhs@), -1),
            ),
        ensures
            r.wf(),
            amount_pairs_model(r@) == spec_merge_seq(
                amount_pairs_model(self@),
                amount_pairs_model(rhs@),
                -1,
            ),
    {
        let ghost lhs0 = amount_pairs_model(self@);
        let ghost rm = amount_pairs_model(rhs@);
        proof {
            self.lemma_model_bridge();
            rhs.lemma_model_bridge();
            assert(rm.take(0) =~= Seq::<(<K as View>::V, int)>::empty());
        }
        let mut this = self;
        let n = rhs.0.len();
        let mut i: usize = 0;
        while i < n
            invariant
                n == rhs@.len(),
                i <= n,
                this.wf(),
                rhs.wf(),
                rm == amount_pairs_model(rhs@),
                model_wf(lhs0),
                model_wf(rm),
                rm.len() == n,
                model_vals_fit(spec_merge_seq(lhs0, rm, -1)),
                amount_pairs_model(this@) == spec_merge_seq(lhs0, rm.take(i as int), -1),
            decreases n - i,
        {
            let ghost pre_map = this;
            let ghost pre = amount_pairs_model(this@);
            let ghost p = rm[i as int];
            proof {
                assert(p == (rhs@[i as int].0@, rhs@[i as int].1.val()));
                lemma_model_take_wf(rm, i as int);
                lemma_merge_seq_props(lhs0, rm.take(i as int), -1);
                lemma_merge_seq_props(lhs0, rm, -1);
                lemma_model_get_at(rm, i as int);
                pre_map.lemma_model_bridge();
                let full = spec_merge_seq(lhs0, rm, -1);
                assert(model_contains(full, p.0));
                let fi = model_index_of(full, p.0);
                assert(0 <= fi < full.len() && full[fi].0 == p.0);
                assert(0 <= full[fi].1 < amount_bound());
                lemma_model_get_at(full, fi);
                assert(model_get_or_zero(full, p.0) == model_get_or_zero(lhs0, p.0) + (-1)
                    * model_get_or_zero(rm, p.0));
                assert(model_get_or_zero(rm.take(i as int), p.0) == 0);
                assert(model_get_or_zero(pre, p.0) == model_get_or_zero(lhs0, p.0) + (-1) * 0);
            }
            let key_ref = &rhs.0[i].0;
            let v = rhs.0[i].1;
            let slot = this.get_mut_or_default(key_ref);
            let cur = *slot;
            proof {
                if pre_map.spec_contains_key(p.0) {
                    assert(cur.val() == model_get(pre, p.0));
                } else {
                    assert(cur == <Amount as DefaultValue>::spec_default());
                }
                assert(cur.val() == model_get_or_zero(pre, p.0));
            }
            let new_amt = cur.sub_amt(v);
            *slot = new_amt;
            proof {
                let post = amount_pairs_model(this@);
                if pre_map.spec_contains_key(p.0) {
                    let im = pre_map.spec_index_of(p.0);
                    assert(this@ == pre_map@.update(im, (pre_map@[im].0, new_amt)));
                    assert(post =~= spec_merge_pair(pre, p, -1)) by {
                        assert(model_index_of(pre, p.0) == im);
                        assert(forall|j: int|
                            0 <= j < post.len() ==> post[j] == (this@[j].0@, this@[j].1.val()));
                    };
                } else {
                    assert(post =~= spec_merge_pair(pre, p, -1)) by {
                        assert(forall|j: int|
                            0 <= j < post.len() ==> post[j] == (this@[j].0@, this@[j].1.val()));
                        assert(forall|j: int|
                            0 <= j < pre.len() ==> this@[j] == pre_map@.subrange(
                                0,
                                pre_map@.len() as int,
                            )[j]);
                        assert(forall|j: int| 0 <= j < pre.len() ==> this@[j] == pre_map@[j]);
                        assert(this@.last().0@ == p.0);
                        assert(this@.last().1.val() == (-1) * p.1);
                    };
                }
                assert(rm.take(i + 1) =~= rm.take(i as int).push(p));
                lemma_merge_seq_push(lhs0, rm.take(i as int), p, -1);
            }
            i += 1;
        }
        proof {
            assert(rm.take(n as int) =~= rm);
        }
        this
    }

    /// Folds all stored amounts with addition, starting from zero.
    pub fn sum(&self) -> (r: Amount)
        requires
            spec_sum_values(self@) < amount_bound(),
        ensures
            r.val() == spec_sum_values(self@),
    {
        let ghost total = spec_sum_values(self@);
        let n = self.0.len();
        let mut acc = Amount::zero();
        let mut i: usize = 0;
        proof {
            assert(self@.skip(0) =~= self@);
        }
        while i < n
            invariant
                n == self@.len(),
                i <= n,
                total == spec_sum_values(self@),
                total < amount_bound(),
                acc.val() + spec_sum_values(self@.skip(i as int)) == total,
            decreases n - i,
        {
            proof {
                lemma_sum_values_skip(self@, i as int);
                lemma_sum_values_nonneg(self@.skip(i as int + 1));
            }
            acc = acc.add_amt(self.0[i].1);
            i += 1;
        }
        proof {
            assert(self@.skip(n as int) =~= Seq::<(K, Amount)>::empty());
        }
        acc
    }

    /// Multiplies every entry with the ratio its key names in `rhs`, which
    /// must cover every left key; extra right keys are ignored. Errs with
    /// `KeyNotFound` exactly when some left key is missing on the right.
    #[verifier::rlimit(30)]
    pub fn mul_all(&self, rhs: &NeptuneMap<K, Ratio>) -> (r: CommonResult<NeptuneMap<K, Amount>>)
        requires
            self.wf(),
            rhs.wf(),
            forall|i: int|
                0 <= i < self@.len() && rhs.spec_contains_key(#[trigger] self@[i].0@)
                    ==> spec_mul_div(
                    self@[i].1.val(),
                    rhs.spec_get(self@[i].0@).val(),
                    ratio_scale(),
                ) < amount_bound(),
        ensures
            (forall|i: int| 0 <= i < self@.len() ==> rhs.spec_contains_key(#[trigger] self@[i].0@))
                ==> ({
                &&& r matches Ok(m)
                &&& m@.len() == self@.len()
                &&& forall|i: int|
                    0 <= i < self@.len() ==> #[trigger] m@[i].0@ == self@[i].0@ && m@[i].1.val()
                        == spec_mul_div(
                        self@[i].1.val(),
                        rhs.spec_get(self@[i].0@).val(),
                        ratio_scale(),
                    )
                &&& m.wf()
            }),
            (exists|i: int|
                0 <= i < self@.len() && !rhs.spec_contains_key(#[trigger] self@[i].0@)) ==> (
            r matches Err(e) && e is KeyNotFound),
    {
        let n = self.0.len();
        let mut out: Vec<(K, Amount)> = Vec::new();
        let mut i: usize = 0;
        while i < n
            invariant
                n == self@.len(),
                i <= n,
                self.wf(),
                rhs.wf(),
                forall|j: int|
                    0 <= j < self@.len() && rhs.spec_contains_key(#[trigger] self@[j].0@)
                        ==> spec_mul_div(
                        self@[j].1.val(),
                        rhs.spec_get(self@[j].0@).val(),
                        ratio_scale(),
                    ) < amount_bound(),
                out@.len() == i,
                forall|j: int|
                    0 <= j < i ==> rhs.spec_contains_key(#[trigger] self@[j].0@),
                forall|j: int|
                    0 <= j < i ==> #[trigger] out@[j].0@ == self@[j].0@ && out@[j].1.val()
                        == spec_mul_div(
                        self@[j].1.val(),
                        rhs.spec_get(self@[j].0@).val(),
                        ratio_scale(),
                    ),
            decreases n - i,
        {
            let key_ref = &self.0[i].0;
            let value = self.0[i].1;
            match rhs.get(key_ref) {
                Some(rv) => {
                    out.push((key_ref.key_clone(), value.mul_ratio(*rv)));
                },
                None => {
                    return Err(CommonError::KeyNotFound);
                },
            }
            i += 1;
        }
        proof {
            assert forall|a: int, b: int|
                0 <= a < b < out@.len() implies out@[a].0@ != out@[b].0@ by {
                assert(self@[a].0@ != self@[b].0@);
            }
        }
        let result = NeptuneMap(out);
        proof {
            assert(result.wf());
            assert(result@.len() == self@.len());
            assert forall|j: int| 0 <= j < self@.len() implies #[trigger] result@[j].0@
                == self@[j].0@ && result@[j].1.val() == spec_mul_div(
                self@[j].1.val(),
                rhs.spec_get(self@[j].0@).val(),
                ratio_scale(),
            ) by {}
        }
        Ok(result)
    }

    /// Multiplies two maps together: a key is kept exactly when both sides
    /// hold it — a key missing on either side is dropped, unlike the
    /// default-filling addition — and its amount is scaled by the right
    /// ratio, floored. The left map's order is kept.
    pub fn mul(&self, rhs: &NeptuneMap<K, Ratio>) -> (r: NeptuneMap<K, Amount>)
        requires
            self.wf(),
            rhs.wf(),
            forall|i: int|
                0 <= i < self@.len() && rhs.spec_contains_key(#[trigger] self@[i].0@)
                    ==> spec_mul_div(
                    self@[i].1.val(),
                    rhs.spec_get(self@[i].0@).val(),
                    ratio_scale(),
                ) < amount_bound(),
        ensures
            r.wf(),
            amount_pairs_model(r@) == spec_mul_models(
                amount_pairs_model(self@),
                ratio_pairs_model(rhs@),
            ),
    {
        let ghost sm = amount_pairs_model(self@);
        let ghost rm = ratio_pairs_model(rhs@);
        let n = self.0.len();
        let mut out: Vec<(K, Amount)> = Vec::new();
        let mut i: usize = 0;
        proof {
            assert(sm.take(0) =~= Seq::<(<K as View>::V, int)>::empty());
        }
        while i < n
            invariant
                n == self@.len(),
                i <= n,
                self.wf(),
                rhs.wf(),
                sm == amount_pairs_model(self@),
                rm == ratio_pairs_model(rhs@),
                forall|j: int|
                    0 <= j < self@.len() && rhs.spec_contains_key(#[trigger] self@[j].0@)
                        ==> spec_mul_div(
                        self@[j].1.val(),
                        rhs.spec_get(self@[j].0@).val(),
                        ratio_scale(),
                    ) < amount_bound(),
                amount_pairs_model(out@) == spec_mul_models(sm.take(i as int), rm),
            decreases n - i,
        {
            let ghost pre_out = amount_pairs_model(out@);
            let key_ref = &self.0[i].0;
            let value = self.0[i].1;
            proof {
                lemma_ratio_model_bridge(*rhs);
                assert(sm.take(i + 1) =~= sm.take(i as int) + seq![sm[i as int]]);
                lemma_mul_models_concat(sm.take(i as int), seq![sm[i as int]], rm);
                assert(seq![sm[i as int]].drop_first() =~= Seq::<(<K as View>::V, int)>::empty());
                assert(spec_mul_models(seq![sm[i as int]].drop_first(), rm) =~= Seq::<
                    (<K as View>::V, int),
                >::empty());
                assert(sm[i as int] == (self@[i as int].0@, self@[i as int].1.val()));
            }
            match rhs.get(key_ref) {
                Some(rv) => {
                    out.push((key_ref.key_clone(), value.mul_ratio(*rv)));
                    proof {
                        assert(model_contains(rm, sm[i as int].0));
                        assert(model_get(rm, sm[i as int].0) == rhs.spec_get(self@[i as int].0@).val());
                        assert(spec_mul_models(seq![sm[i as int]], rm) =~= seq![
                            (
                                sm[i as int].0,
                                spec_mul_div(sm[i as int].1, model_get(rm, sm[i as int].0), ratio_scale()),
                            ),
                        ]);
                        assert(amount_pairs_model(out@) =~= spec_mul_models(sm.take(i + 1), rm)) by {
                            assert(forall|j: int|
                                0 <= j < out@.len() ==> amount_pairs_model(out@)[j] == (
                                out@[j].0@,
                                out@[j].1.val(),
                                ));
                        };
                    }
                },
                None => {
                    proof {
                        assert(!model_contains(rm, sm[i as int].0));
                        assert(spec_mul_models(seq![sm[i as int]], rm) =~= Seq::<
                            (<K as View>::V, int),
                        >::empty());
                        assert(amount_pairs_model(out@) =~= spec_mul_models(sm.take(i + 1), rm));
                    }
                },
            }
            i += 1;
        }
        let result = NeptuneMap(out);
        proof {
            assert(sm.take(n as int) =~= sm);
            self.lemma_model_bridge();
            lemma_mul_models_props(sm, rm);
            assert forall|a: int, b: int|
                0 <= a < b < result@.len() implies result@[a].0@ != result@[b].0@ by {
                let m = amount_pairs_model(result@);
                assert(m[a].0 == result@[a].0@ && m[b].0 == result@[b].0@);
            }
        }
        result
    }
}

/// A well-formed ratio map and its model agree on keys and values.
proof fn lemma_ratio_model_bridge<K: MapKey>(m: NeptuneMap<K, Ratio>)
    requires
        m.wf(),
    ensures
        model_wf(ratio_pairs_model(m@)),
        ratio_pairs_model(m@).len() == m@.len(),
        forall|k: <K as View>::V| #[trigger]
            model_contains(ratio_pairs_model(m@), k) <==> m.spec_contains_key(k),
        forall|k: <K as View>::V|
            m.spec_contains_key(k) ==> #[trigger] model_get(ratio_pairs_model(m@), k)
                == m.spec_get(k).val(),
{
    let s = ratio_pairs_model(m@);
    assert(forall|i: int| 0 <= i < s.len() ==> s[i] == (m@[i].0@, m@[i].1.val()));
    assert forall|k: <K as View>::V| #[trigger]
        model_contains(s, k) implies m.spec_contains_key(k) by {
        let i = choose|i: int| 0 <= i < s.len() && s[i].0 == k;
        assert(m@[i].0@ == k);
    }
    assert forall|k: <K as View>::V|
        m.spec_contains_key(k) implies #[trigger] model_contains(s, k) by {
        let i = choose|i: int| 0 <= i < m@.len() && m@[i].0@ == k;
        assert(s[i].0 == k);
    }
    assert forall|k: <K as View>::V| m.spec_contains_key(k) implies #[trigger] model_get(s, k)
        == m.spec_get(k).val() by {
        let im = model_index_of(s, k);
        let i = m.spec_index_of(k);
        assert(0 <= i < m@.len() && m@[i].0@ == k);
        assert(s[i].0 == k);
        assert(0 <= im < s.len() && s[im].0 == k);
        assert(m@[im].0@ == k);
        m.lemma_key_index_unique(k, i, im);
    }
}

} // verus!

verus! {

/// Keeps the entries whose value has not zeroed out.
pub open spec fn spec_not_zeroed<K, V: Zeroed>() -> spec_fn((K, V)) -> bool {
    |p: (K, V)| !p.1.spec_zeroed()
}

/// Every value with its own zeroed parts dropped, keys untouched.
pub open spec fn spec_clean_entries<K, V: Zeroed>(s: Seq<(K, V)>) -> Seq<(K, V)> {
    s.map_values(|p: (K, V)| (p.0, p.1.spec_remove_zeroed()))
}

/// Elements of a filtered sequence come from the sequence.
proof fn lemma_filter_subset<A>(s: Seq<A>, pred: spec_fn(A) -> bool, x: A)
    requires
        s.filter(pred).contains(x),
    ensures
        s.contains(x),
    decreases s.len(),
{
    reveal(Seq::filter);
    if s.len() > 0 {
        if s.filter(pred) =~= s.drop_last().filter(pred) {
            lemma_filter_subset(s.drop_last(), pred, x);
            let i = choose|i: int| 0 <= i < s.drop_last().len() && s.drop_last()[i] == x;
            assert(s[i] == x);
        } else {
            let f = s.filter(pred);
            let i = choose|i: int| 0 <= i < f.len() && f[i] == x;
            if i < f.len() - 1 {
                assert(s.drop_last().filter(pred)[i] == x);
                lemma_filter_subset(s.drop_last(), pred, x);
                let j = choose|j: int|
                    0 <= j < s.drop_last().len() && s.drop_last()[j] == x;
                assert(s[j] == x);
            } else {
                assert(f.last() == s.last());
                assert(s[s.len() - 1] == x);
            }
        }
    }
}

/// Filtering a sequence of entries with distinct keys leaves the keys
/// distinct.
proof fn lemma_filter_keeps_distinct_keys<K: MapKey, V>(
    s: Seq<(K, V)>,
    pred: spec_fn((K, V)) -> bool,
)
    requires
        forall|a: int, b: int| 0 <= a < b < s.len() ==> s[a].0@ != s[b].0@,
    ensures
        forall|a: int, b: int|
            0 <= a < b < s.filter(pred).len() ==> s.filter(pred)[a].0@ != s.filter(pred)[b].0@,
    decreases s.len(),
{
    reveal(Seq::filter);
    if s.len() > 0 {
        let sub = s.drop_last();
        assert(forall|a: int, b: int| 0 <= a < b < sub.len() ==> sub[a].0@ != sub[b].0@) by {
            assert(forall|a: int| 0 <= a < sub.len() ==> sub[a] == s[a]);
        }
        lemma_filter_keeps_distinct_keys(sub, pred);
        let f = s.filter(pred);
        let fsub = sub.filter(pred);
        if pred(s.last()) {
            assert(f == fsub.push(s.last()));
            assert forall|a: int, b: int| 0 <= a < b < f.len() implies f[a].0@ != f[b].0@ by {
                if b < f.len() - 1 {
                    assert(f[a] == fsub[a] && f[b] == fsub[b]);
                } else {
                    assert(f[b] == s.last());
                    assert(f[a] == fsub[a]);
                    lemma_filter_subset(sub, pred, fsub[a]);
                    let ia = choose|ia: int| 0 <= ia < sub.len() && sub[ia] == fsub[a];
                    assert(s[ia] == fsub[a]);
                    assert(s[ia].0@ != s[s.len() - 1].0@);
                }
            }
        }
    }
}

impl<K: MapKey, V: Zeroed> NeptuneMap<K, V> {
    /// Whether every value in the map reports itself zeroed; the empty map
    /// counts as zeroed.
    pub fn is_zeroed(&self) -> (r: bool)
        ensures
            r <==> (forall|i: int| 0 <= i < self@.len() ==> (#[trigger] self@[i].1).spec_zeroed()),
    {
        let n = self.0.len();
        let mut i: usize = 0;
        while i < n
            invariant
                i <= n,
                n == self@.len(),
                forall|j: int| 0 <= j < i ==> (#[trigger] self@[j].1).spec_zeroed(),
            decreases n - i,
        {
            if !self.0[i].1.is_zeroed() {
                return false;
            }
            i += 1;
        }
        true
    }

    /// The dust collection pass: first lets every value drop its own
    /// zeroed parts, then deletes every entry whose cleaned value reports
    /// itself zeroed, keeping the other entries in order.
    pub fn remove_zeroed(&mut self)
        requires
            old(self).wf(),
        ensures
            final(self)@ == spec_clean_entries(old(self)@).filter(spec_not_zeroed::<K, V>()),
            final(self).wf(),
    {
        let ghost pred = spec_not_zeroed::<K, V>();
        let mut rest: Vec<(K, V)> = Vec::new();
        core::mem::swap(&mut self.0, &mut rest);
        proof {
            reveal(Seq::filter);
            assert(rest@.take(0) =~= Seq::<(K, V)>::empty());
        }
        let ghost orig = rest@;
        let ghost cleaned = spec_clean_entries(orig);
        proof {
            assert(cleaned.take(0) =~= Seq::<(K, V)>::empty());
            assert(Seq::<(K, V)>::empty().filter(pred) =~= Seq::<(K, V)>::empty());
        }
        let n = rest.len();
        let mut i: usize = 0;
        while i < n
            invariant
                i <= n,
                n == orig.len(),
                pred == spec_not_zeroed::<K, V>(),
                orig == old(self)@,
                cleaned == spec_clean_entries(orig),
                cleaned.len() == n,
                forall|j: int|
                    0 <= j < n ==> #[trigger] cleaned[j] == (orig[j].0, orig[j].1.spec_remove_zeroed()),
                forall|a: int, b: int| 0 <= a < b < n ==> cleaned[a].0@ != cleaned[b].0@,
                rest@ == orig.skip(i as int),
                self@ == cleaned.take(i as int).filter(pred),
            decreases n - i,
        {
            let mut pair = rest.remove(0);
            proof {
                assert(pair == orig[i as int]);
                assert(rest@ =~= orig.skip(i + 1));
            }
            pair.1.remove_zeroed();
            let keep = !pair.1.is_zeroed();
            if keep {
                self.0.push(pair);
            }
            proof {
                reveal(Seq::filter);
                assert(pair == cleaned[i as int]);
                assert(cleaned.take(i + 1).drop_last() =~= cleaned.take(i as int));
                assert(cleaned.take(i + 1).last() == cleaned[i as int]);
                assert(keep == pred(cleaned[i as int]));
                assert(self@ == cleaned.take(i + 1).filter(pred));
            }
            i += 1;
        }
        proof {
            assert(cleaned.take(n as int) =~= cleaned);
            assert(self@ == spec_clean_entries(old(self)@).filter(spec_not_zeroed::<K, V>()));
            lemma_filter_keeps_distinct_keys(cleaned, pred);
        }
    }
}

impl<K: MapKey, V> NeptuneMap<K, V> {
    /// The keys, in entry order.
    pub fn key_vec(&self) -> (r: Vec<K>)
        ensures
            r@.len() == self@.len(),
            forall|i: int| 0 <= i < self@.len() ==> (#[trigger] r@[i])@ == self@[i].0@,
    {
        let n = self.0.len();
        let mut out: Vec<K> = Vec::new();
        let mut i: usize = 0;
        while i < n
            invariant
                i <= n,
                n == self@.len(),
                out@.len() == i,
                forall|j: int| 0 <= j < i ==> (#[trigger] out@[j])@ == self@[j].0@,
            decreases n - i,
        {
            out.push(self.0[i].0.key_clone());
            i += 1;
        }
        out
    }
}

impl<K: MapKey> NeptuneMap<K, Amount> {
    /// Multiplies every value with a scalar ratio, floored, in place.
    pub fn mul_ratio(self, rhs: Ratio) -> (r: Self)
        requires
            forall|i: int|
                0 <= i < self@.len() ==> spec_mul_div(
                    (#[trigger] self@[i]).1.val(),
                    rhs.val(),
                    ratio_scale(),
                ) < amount_bound(),
        ensures
            r@.len() == self@.len(),
            forall|i: int| 0 <= i < self@.len() ==> #[trigger] r@[i].0 == self@[i].0
                && r@[i].1.val() == spec_mul_div(self@[i].1.val(), rhs.val(), ratio_scale()),
    {
        let mut this = self;
        let n = this.0.len();
        let mut i: usize = 0;
        while i < n
            invariant
                i <= n,
                n == this@.len(),
                this@.len() == self@.len(),
                forall|j: int|
                    0 <= j < self@.len() ==> spec_mul_div(
                        (#[trigger] self@[j]).1.val(),
                        rhs.val(),
                        ratio_scale(),
                    ) < amount_bound(),
                forall|j: int| i <= j < n ==> #[trigger] this@[j] == self@[j],
                forall|j: int| 0 <= j < i ==> #[trigger] this@[j].0 == self@[j].0
                    && this@[j].1.val() == spec_mul_div(self@[j].1.val(), rhs.val(), ratio_scale()),
            decreases n - i,
        {
            let cur = this.0[i].1;
            let scaled = cur.mul_ratio(rhs);
            let ghost pre = this@;
            let slot = &mut this.0[i].1;
            *slot = scaled;
            proof {
                assert(this@ =~= pre.update(i as int, (pre[i as int].0, scaled)));
                assert forall|j: int|
                    0 <= j < i + 1 implies this@[j].0 == self@[j].0 && this@[j].1.val()
                    == spec_mul_div(self@[j].1.val(), rhs.val(), ratio_scale()) by {
                    if j < i {
                        assert(this@[j] == pre[j]);
                        assert(pre[j].0 == self@[j].0);
                    } else {
                        assert(this@[j] == (pre[i as int].0, scaled));
                        assert(pre[i as int] == self@[i as int]);
                    }
                }
            }
            i += 1;
        }
        this
    }

    /// Divides every value by a scalar ratio, floored, in place; the zero
    /// ratio is excluded, as the original division has no value there.
    pub fn div_ratio(self, rhs: Ratio) -> (r: Self)
        requires
            rhs.val() != 0,
            forall|i: int|
                0 <= i < self@.len() ==> spec_mul_div(
                    (#[trigger] self@[i]).1.val(),
                    ratio_scale(),
                    rhs.val(),
                ) < amount_bound(),
        ensures
            r@.len() == self@.len(),
            forall|i: int| 0 <= i < self@.len() ==> #[trigger] r@[i].0 == self@[i].0
                && r@[i].1.val() == spec_mul_div(self@[i].1.val(), ratio_scale(), rhs.val()),
    {
        let mut this = self;
        let n = this.0.len();
        let mut i: usize = 0;
        while i < n
            invariant
                i <= n,
                n == this@.len(),
                this@.len() == self@.len(),
                rhs.val() != 0,
                forall|j: int|
                    0 <= j < self@.len() ==> spec_mul_div(
                        (#[trigger] self@[j]).1.val(),
                        ratio_scale(),
                        rhs.val(),
                    ) < amount_bound(),
                forall|j: int| i <= j < n ==> #[trigger] this@[j] == self@[j],
                forall|j: int| 0 <= j < i ==> #[trigger] this@[j].0 == self@[j].0
                    && this@[j].1.val() == spec_mul_div(self@[j].1.val(), ratio_scale(), rhs.val()),
            decreases n - i,
        {
            let cur = this.0[i].1;
            let scaled = match cur.checked_div_ratio(rhs) {
                Ok(v) => v,
                Err(_) => Amount::zero(),
            };
            let ghost pre = this@;
            let slot = &mut this.0[i].1;
            *slot = scaled;
            proof {
                assert(this@ =~= pre.update(i as int, (pre[i as int].0, scaled)));
                assert forall|j: int|
                    0 <= j < i + 1 implies this@[j].0 == self@[j].0 && this@[j].1.val()
                    == spec_mul_div(self@[j].1.val(), ratio_scale(), rhs.val()) by {
                    if j < i {
                        assert(this@[j] == pre[j]);
                        assert(pre[j].0 == self@[j].0);
                    } else {
                        assert(this@[j] == (pre[i as int].0, scaled));
                        assert(pre[i as int] == self@[i as int]);
                    }
                }
            }
            i += 1;
        }
        this
    }
}

} // verus!

verus! {

impl<K: MapKey, V> NeptuneMap<K, V> {
    /// A map with the same keys whose values are `f` of the old values.
    pub fn map<O, F: Fn(&V) -> O>(&self, f: F) -> (r: NeptuneMap<K, O>)
        requires
            self.wf(),
            forall|i: int| 0 <= i < self@.len() ==> call_requires(f, (&(#[trigger] self@[i]).1,)),
        ensures
            r.wf(),
            r@.len() == self@.len(),
            forall|i: int|
                0 <= i < self@.len() ==> (#[trigger] r@[i]).0@ == self@[i].0@ && call_ensures(
                    f,
                    (&self@[i].1,),
                    r@[i].1,
                ),
    {
        let n = self.0.len();
        let mut out: Vec<(K, O)> = Vec::new();
        let mut i: usize = 0;
        while i < n
            invariant
                i <= n,
                n == self@.len(),
                self.wf(),
                forall|j: int|
                    0 <= j < self@.len() ==> call_requires(f, (&(#[trigger] self@[j]).1,)),
                out@.len() == i,
                forall|j: int|
                    0 <= j < i ==> (#[trigger] out@[j]).0@ == self@[j].0@ && call_ensures(
                        f,
                        (&self@[j].1,),
                        out@[j].1,
                    ),
            decreases n - i,
        {
            let value = f(&self.0[i].1);
            out.push((self.0[i].0.key_clone(), value));
            i += 1;
        }
        let result = NeptuneMap(out);
        proof {
            assert forall|a: int, b: int|
                0 <= a < b < result@.len() implies result@[a].0@ != result@[b].0@ by {
                assert(self@[a].0@ != self@[b].0@);
            }
        }
        result
    }

    /// A map with the same keys whose values are `f` of the old values,
    /// stopping at `f`'s first error.
    pub fn map_result_val<O, E, F: Fn(&V) -> Result<O, E>>(&self, f: F) -> (r: Result<
        NeptuneMap<K, O>,
        E,
    >)
        requires
            self.wf(),
            forall|i: int| 0 <= i < self@.len() ==> call_requires(f, (&(#[trigger] self@[i]).1,)),
        ensures
            r matches Ok(m) ==> m.wf() && m@.len() == self@.len() && (forall|i: int|
                0 <= i < self@.len() ==> (#[trigger] m@[i]).0@ == self@[i].0@ && call_ensures(
                    f,
                    (&self@[i].1,),
                    Ok(m@[i].1),
                )),
            r matches Err(e) ==> exists|i: int|
                0 <= i < self@.len() && call_ensures(f, (&(#[trigger] self@[i]).1,), Err(e)),
    {
        let n = self.0.len();
        let mut out: Vec<(K, O)> = Vec::new();
        let mut i: usize = 0;
        while i < n
            invariant
                i <= n,
                n == self@.len(),
                self.wf(),
                forall|j: int|
                    0 <= j < self@.len() ==> call_requires(f, (&(#[trigger] self@[j]).1,)),
                out@.len() == i,
                forall|j: int|
                    0 <= j < i ==> (#[trigger] out@[j]).0@ == self@[j].0@ && call_ensures(
                        f,
                        (&self@[j].1,),
                        Ok(out@[j].1),
                    ),
            decreases n - i,
        {
            match f(&self.0[i].1) {
                Ok(value) => {
                    out.push((self.0[i].0.key_clone(), value));
                },
                Err(e) => {
                    return Err(e);
                },
            }
            i += 1;
        }
        let result = NeptuneMap(out);
        proof {
            assert forall|a: int, b: int|
                0 <= a < b < result@.len() implies result@[a].0@ != result@[b].0@ by {
                assert(self@[a].0@ != self@[b].0@);
            }
        }
        Ok(result)
    }
}

} // verus!

verus! {

/// The law of map-by-map multiplication: exactly the keys present on both
/// sides survive, and each surviving key's value is the left amount scaled
/// by the right ratio, floored. Keys present on only one side are dropped —
/// the deliberate opposite of the default-filling addition law.
pub proof fn lemma_mul_models_pointwise<KV>(s: Seq<(KV, int)>, rhs: Seq<(KV, int)>)
    requires
        model_wf(s),
        model_wf(rhs),
    ensures
        forall|k: KV| #[trigger]
            model_contains(spec_mul_models(s, rhs), k) <==> (model_contains(s, k)
                && model_contains(rhs, k)),
        forall|k: KV|
            model_contains(s, k) && model_contains(rhs, k) ==> #[trigger] model_get(
                spec_mul_models(s, rhs),
                k,
            ) == spec_mul_div(model_get(s, k), model_get(rhs, k), ratio_scale()),
    decreases s.len(),
{
    let res = spec_mul_models(s, rhs);
    lemma_mul_models_props(s, rhs);
    if s.len() == 0 {
    } else {
        let p = s.first();
        let rest_s = s.drop_first();
        lemma_model_drop_first_wf(s);
        lemma_mul_models_pointwise(rest_s, rhs);
        lemma_mul_models_props(rest_s, rhs);
        let rest = spec_mul_models(rest_s, rhs);
        lemma_model_get_at(s, 0);
        if model_contains(rhs, p.0) {
            let single = seq![(p.0, spec_mul_div(p.1, model_get(rhs, p.0), ratio_scale()))];
            assert(res == single + rest);
            assert(forall|j: int| 0 <= j < rest.len() ==> res[j + 1] == rest[j]);
            assert(res[0] == single[0]);
            assert forall|k: KV| #[trigger]
                model_contains(res, k) <==> (model_contains(s, k) && model_contains(rhs, k)) by {
                if model_contains(res, k) {
                    let j = choose|j: int| 0 <= j < res.len() && res[j].0 == k;
                    if j == 0 {
                        assert(k == p.0);
                    } else {
                        assert(rest[j - 1].0 == k);
                        assert(model_contains(rest, k));
                        assert(model_contains(rest_s, k));
                        let i = choose|i: int| 0 <= i < rest_s.len() && rest_s[i].0 == k;
                        assert(s[i + 1].0 == k);
                    }
                }
                if model_contains(s, k) && model_contains(rhs, k) {
                    if k == p.0 {
                        assert(res[0].0 == k);
                    } else {
                        lemma_model_drop_first(s, k);
                        assert(model_contains(rest, k));
                        let j = choose|j: int| 0 <= j < rest.len() && rest[j].0 == k;
                        assert(res[j + 1].0 == k);
                    }
                }
            }
            assert forall|k: KV|
                model_contains(s, k) && model_contains(rhs, k) implies #[trigger] model_get(
                res,
                k,
            ) == spec_mul_div(model_get(s, k), model_get(rhs, k), ratio_scale()) by {
                if k == p.0 {
                    let j = model_index_of(res, k);
                    assert(model_contains(res, k));
                    assert(0 <= j < res.len() && res[j].0 == k);
                    lemma_model_index_unique(res, k, 0, j);
                    assert(model_get(res, k) == res[0].1);
                    assert(model_get(s, p.0) == p.1);
                } else {
                    lemma_model_drop_first(s, k);
                    assert(model_contains(rest, k));
                    let jr = model_index_of(rest, k);
                    assert(0 <= jr < rest.len() && rest[jr].0 == k);
                    let j = model_index_of(res, k);
                    assert(model_contains(res, k));
                    assert(0 <= j < res.len() && res[j].0 == k);
                    assert(res[jr + 1].0 == k);
                    lemma_model_index_unique(res, k, jr + 1, j);
                    assert(model_get(res, k) == rest[jr].1);
                    assert(model_get(rest, k) == rest[jr].1);
                }
            }
        } else {
            assert(res == rest);
            assert forall|k: KV| #[trigger]
                model_contains(res, k) <==> (model_contains(s, k) && model_contains(rhs, k)) by {
                if k == p.0 {
                    assert(!model_contains(rhs, k));
                    if model_contains(res, k) {
                        assert(model_contains(rest_s, k) && model_contains(rhs, k));
                    }
                } else {
                    lemma_model_drop_first(s, k);
                }
            }
            assert forall|k: KV|
                model_contains(s, k) && model_contains(rhs, k) implies #[trigger] model_get(
                res,
                k,
            ) == spec_mul_div(model_get(s, k), model_get(rhs, k), ratio_scale()) by {
                assert(k != p.0);
                lemma_model_drop_first(s, k);
            }
        }
    }
}

} // verus!

verus! {

/// Whether `m` is the position of the first entry holding a minimal value.
pub open spec fn spec_first_min_pred<K>(s: Seq<(K, Amount)>, m: int) -> bool {
    &&& 0 <= m < s.len()
    &&& forall|l: int| 0 <= l < s.len() ==> s[m].1.val() <= (#[trigger] s[l]).1.val()
    &&& forall|l: int| 0 <= l < m ==> (#[trigger] s[l]).1.val() > s[m].1.val()
}

pub open spec fn spec_first_min_index<K>(s: Seq<(K, Amount)>) -> int {
    choose|m: int| spec_first_min_pred(s, m)
}

proof fn lemma_first_min_unique<K>(s: Seq<(K, Amount)>, i: int, j: int)
    requires
        spec_first_min_pred(s, i),
        spec_first_min_pred(s, j),
    ensures
        i == j,
{
    if i < j {
        assert(s[i].1.val() > s[j].1.val());
        assert(s[i].1.val() <= s[j].1.val());
    } else if j < i {
        assert(s[j].1.val() > s[i].1.val());
        assert(s[j].1.val() <= s[i].1.val());
    }
}

/// The stable sort by value: repeatedly extract the first entry holding a
/// minimal value. Entries with equal values therefore keep their relative
/// order.
pub open spec fn spec_sort_by_val_seq<K>(s: Seq<(K, Amount)>) -> Seq<(K, Amount)>
    decreases s.len(),
{
    if s.len() == 0 {
        s
    } else {
        let m = spec_first_min_index(s);
        if 0 <= m < s.len() {
            seq![s[m]] + spec_sort_by_val_seq(s.remove(m))
        } else {
            s
        }
    }
}

impl<K: MapKey> NeptuneMap<K, Amount> {
    /// Sorts the entries by value, ascending and stably: afterwards the
    /// map is exactly [`spec_sort_by_val_seq`] of the old entries — the
    /// same entries (also stated as a multiset) with the amounts in
    /// non-decreasing order, entries of equal amount keeping their
    /// relative order.
    pub fn sort_by_val(&mut self)
        requires
            old(self).wf(),
        ensures
            final(self)@ == spec_sort_by_val_seq(old(self)@),
            final(self)@.to_multiset() == old(self)@.to_multiset(),
            forall|i: int, j: int|
                0 <= i < j < final(self)@.len() ==> final(self)@[i].1.val()
                    <= final(self)@[j].1.val(),
            final(self).wf(),
    {
        let mut src: Vec<(K, Amount)> = Vec::new();
        core::mem::swap(&mut self.0, &mut src);
        let ghost orig = src@;
        proof {
            broadcast use vstd::seq_lib::group_to_multiset_ensures;

            assert(self@.to_multiset() =~= vstd::multiset::Multiset::<(K, Amount)>::empty());
            assert(self@.to_multiset().add(src@.to_multiset()) =~= orig.to_multiset());
            assert(spec_sort_by_val_seq(orig) =~= self@ + spec_sort_by_val_seq(src@));
        }
        while src.len() > 0
            invariant
                orig.len() == self@.len() + src@.len(),
                spec_sort_by_val_seq(orig) == self@ + spec_sort_by_val_seq(src@),
                self@.to_multiset().add(src@.to_multiset()) == orig.to_multiset(),
                forall|i: int, j: int|
                    0 <= i < j < self@.len() ==> self@[i].1.val() <= self@[j].1.val(),
                forall|a: int, b: int|
                    0 <= a < self@.len() && 0 <= b < src@.len() ==> (#[trigger] self@[a]).1.val()
                        <= (#[trigger] src@[b]).1.val(),
            decreases src@.len(),
        {
            let n = src.len();
            let mut m: usize = 0;
            let mut j: usize = 1;
            while j < n
                invariant
                    m < j <= n,
                    n == src@.len(),
                    forall|l: int| 0 <= l < j ==> src@[m as int].1.val() <= (#[trigger] src@[l]).1.val(),
                    forall|l: int| 0 <= l < m ==> (#[trigger] src@[l]).1.val() > src@[m as int].1.val(),
                decreases n - j,
            {
                if src[j].1.lt(&src[m].1) {
                    m = j;
                }
                j += 1;
            }
            proof {
                assert(spec_first_min_pred(src@, m as int));
                lemma_first_min_unique(src@, m as int, spec_first_min_index(src@));
            }
            let ghost pre_out = self@;
            let ghost pre_src = src@;
            let pair = src.remove(m);
            self.0.push(pair);
            proof {
                broadcast use vstd::seq_lib::group_to_multiset_ensures;

                assert(pair == pre_src[m as int]);
                assert(src@.to_multiset() =~= pre_src.to_multiset().remove(pair));
                assert(self@.to_multiset() =~= pre_out.to_multiset().insert(pair));
                assert(pre_src.to_multiset().count(pair) > 0);
                assert(self@.to_multiset().add(src@.to_multiset()) =~= pre_out.to_multiset().add(
                    pre_src.to_multiset(),
                ));
                assert(forall|l: int| 0 <= l < src@.len() ==> #[trigger] src@[l] == if l
                    < m { pre_src[l] } else { pre_src[l + 1] });
                assert(src@ =~= pre_src.remove(m as int));
                assert(spec_sort_by_val_seq(pre_src) == seq![pair] + spec_sort_by_val_seq(src@));
                assert(self@ =~= pre_out + seq![pair]);
                assert(pre_out + (seq![pair] + spec_sort_by_val_seq(src@)) =~= (pre_out
                    + seq![pair]) + spec_sort_by_val_seq(src@));
            }
        }
        proof {
            broadcast use vstd::seq_lib::group_to_multiset_ensures;

            assert(src@.to_multiset() =~= vstd::multiset::Multiset::<(K, Amount)>::empty());
            assert(self@.to_multiset() =~= orig.to_multiset());
            assert(self@ + spec_sort_by_val_seq(src@) =~= self@);
            assert(self@ == spec_sort_by_val_seq(orig));
            // entries are pairwise distinct, so distinct positions of the
            // sorted map still never share a key
            assert(orig == old(self)@);
            assert(forall|i: int, j: int|
                0 <= i < j < orig.len() ==> orig[i].0@ != orig[j].0@);
            assert(orig.no_duplicates()) by {
                assert forall|i: int, j: int|
                    0 <= i < orig.len() && 0 <= j < orig.len() && i != j implies orig[i]
                    != orig[j] by {
                    if i < j {
                        assert(orig[i].0@ != orig[j].0@);
                    } else {
                        assert(orig[j].0@ != orig[i].0@);
                    }
                }
            }
            orig.lemma_multiset_has_no_duplicates();
            self@.lemma_multiset_has_no_duplicates_conv();
            assert forall|a: int, b: int|
                0 <= a < b < self@.len() implies self@[a].0@ != self@[b].0@ by {
                if self@[a].0@ == self@[b].0@ {
                    let e1 = self@[a];
                    let e2 = self@[b];
                    assert(e1 != e2);
                    assert(self@.to_multiset().count(e1) > 0) by {
                        assert(self@.contains(e1));
                    }
                    assert(self@.to_multiset().count(e2) > 0) by {
                        assert(self@.contains(e2));
                    }
                    assert(orig.contains(e1) && orig.contains(e2));
                    let i1 = choose|i: int| 0 <= i < orig.len() && orig[i] == e1;
                    let i2 = choose|i: int| 0 <= i < orig.len() && orig[i] == e2;
                    if i1 < i2 {
                        assert(orig[i1].0@ != orig[i2].0@);
                    } else if i2 < i1 {
                        assert(orig[i2].0@ != orig[i1].0@);
                    }
                }
            }
        }
    }
}

} // verus!
