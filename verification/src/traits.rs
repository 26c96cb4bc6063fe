//! Traits shared by the accounting containers and their values.

use vstd::prelude::*;

use crate::amount::Amount;
use crate::pool::PoolAccount;
use crate::ratio::Ratio;

verus! {

/// A key of a keyed accounting container. Two keys name the same entry
/// exactly when their views agree, and cloning preserves the view.
pub trait MapKey: View + Sized {
    /// Equality of the keys' views, decided executably.
    fn key_eq(&self, other: &Self) -> (r: bool)
        ensures
            r <==> self@ == other@,
    ;

    /// A copy that names the same entry.
    fn key_clone(&self) -> (r: Self)
        ensures
            r@ == self@,
    ;
}

impl MapKey for u64 {
    fn key_eq(&self, other: &Self) -> (r: bool) {
        *self == *other
    }

    fn key_clone(&self) -> (r: Self) {
        *self
    }
}

impl MapKey for String {
    fn key_eq(&self, other: &Self) -> (r: bool) {
        *self == *other
    }

    fn key_clone(&self) -> (r: Self) {
        self.clone()
    }
}

/// A value with a distinguished default, the starting point of
/// get-or-insert-default slots and of element-wise map arithmetic.
pub trait DefaultValue: Sized {
    /// The default, as a spec-level value.
    spec fn spec_default() -> Self;

    /// The default, constructed.
    fn default_value() -> (r: Self)
        ensures
            r == Self::spec_default(),
    ;
}

impl DefaultValue for Amount {
    open spec fn spec_default() -> Self {
        Amount { l0: 0, l1: 0, l2: 0, l3: 0 }
    }

    fn default_value() -> (r: Self) {
        Amount::zero()
    }
}

impl DefaultValue for Ratio {
    open spec fn spec_default() -> Self {
        Ratio { atomics: Amount { l0: 0, l1: 0, l2: 0, l3: 0 } }
    }

    fn default_value() -> (r: Self) {
        Ratio::zero()
    }
}

impl DefaultValue for u64 {
    open spec fn spec_default() -> Self {
        0
    }

    fn default_value() -> (r: Self) {
        0
    }
}

/// Similar to is-empty, but counting zeroed entries as absent: a value
/// reports whether it is dust, and a collection can drop its dust.
pub trait Zeroed: Sized {
    /// Whether the value counts as zeroed.
    spec fn spec_zeroed(&self) -> bool;

    /// What the value becomes once its own zeroed parts are dropped; a
    /// scalar is already clean and stays itself.
    spec fn spec_remove_zeroed(&self) -> Self;

    /// Decides [`Zeroed::spec_zeroed`] executably.
    fn is_zeroed(&self) -> (r: bool)
        ensures
            r == self.spec_zeroed(),
    ;

    /// Removes zeroed elements inside the value; whether the whole value is
    /// zeroed does not change.
    fn remove_zeroed(&mut self)
        ensures
            *final(self) == old(self).spec_remove_zeroed(),
            final(self).spec_zeroed() == old(self).spec_zeroed(),
    ;
}

impl Zeroed for Amount {
    open spec fn spec_zeroed(&self) -> bool {
        self.val() == 0
    }

    open spec fn spec_remove_zeroed(&self) -> Self {
        *self
    }

    fn is_zeroed(&self) -> (r: bool) {
        self.is_zero()
    }

    fn remove_zeroed(&mut self) {
    }
}

impl Zeroed for PoolAccount {
    /// An account is reclaimable dust once it holds no shares.
    open spec fn spec_zeroed(&self) -> bool {
        self.shares.val() == 0
    }

    open spec fn spec_remove_zeroed(&self) -> Self {
        *self
    }

    fn is_zeroed(&self) -> (r: bool) {
        self.shares.is_zero()
    }

    fn remove_zeroed(&mut self) {
    }
}

/// How to read a collection's keys out as a vector.
pub trait KeyVec<K> {
    fn key_vec(&self) -> Vec<K>;
}

} // verus!

verus! {

/// All keys of a family of key vectors, flattened in order.
pub open spec fn spec_flat_keys(vs: Seq<Vec<u64>>) -> Seq<u64>
    decreases vs.len(),
{
    if vs.len() == 0 {
        Seq::empty()
    } else {
        spec_flat_keys(vs.drop_last()) + vs.last()@
    }
}

/// Flattens the key vectors into one strictly sorted list of the distinct
/// keys they hold.
pub fn extract_keys(vecs: &Vec<Vec<u64>>) -> (r: Vec<u64>)
    ensures
        forall|i: int, j: int| 0 <= i < j < r@.len() ==> r@[i] < r@[j],
        forall|k: u64| r@.contains(k) <==> spec_flat_keys(vecs@).contains(k),
{
    let mut out: Vec<u64> = Vec::new();
    let na = vecs.len();
    let mut a: usize = 0;
    proof {
        assert(vecs@.take(0) =~= Seq::<Vec<u64>>::empty());
    }
    while a < na
        invariant
            a <= na,
            na == vecs@.len(),
            forall|i: int, j: int| 0 <= i < j < out@.len() ==> out@[i] < out@[j],
            forall|k: u64|
                out@.contains(k) <==> spec_flat_keys(vecs@.take(a as int)).contains(k),
        decreases na - a,
    {
        let ghost flat_before = spec_flat_keys(vecs@.take(a as int));
        let nb = vecs[a].len();
        let mut bi: usize = 0;
        proof {
            assert(flat_before + vecs@[a as int]@.take(0) =~= flat_before);
        }
        while bi < nb
            invariant
                bi <= nb,
                a < na,
                na == vecs@.len(),
                nb == vecs@[a as int]@.len(),
                flat_before == spec_flat_keys(vecs@.take(a as int)),
                forall|i: int, j: int| 0 <= i < j < out@.len() ==> out@[i] < out@[j],
                forall|k: u64|
                    out@.contains(k) <==> (flat_before + vecs@[a as int]@.take(
                        bi as int,
                    )).contains(k),
            decreases nb - bi,
        {
            let ghost processed = flat_before + vecs@[a as int]@.take(bi as int);
            let x = vecs[a][bi];
            let olen = out.len();
            let mut p: usize = 0;
            while p < olen && out[p] < x
                invariant
                    p <= olen,
                    olen == out@.len(),
                    forall|m: int| 0 <= m < p ==> out@[m] < x,
                decreases olen - p,
            {
                p += 1;
            }
            let ghost pre_out = out@;
            let present = p < olen && out[p] == x;
            if !present {
                out.insert(p, x);
            }
            proof {
                assert(processed.push(x) =~= flat_before + vecs@[a as int]@.take(bi + 1)) by {
                    assert(vecs@[a as int]@.take(bi + 1) =~= vecs@[a as int]@.take(
                        bi as int,
                    ).push(vecs@[a as int]@[bi as int]));
                };
                assert forall|k: u64|
                    processed.push(x).contains(k) <==> (processed.contains(k) || k == x) by {
                    if processed.push(x).contains(k) {
                        let m = choose|m: int|
                            0 <= m < processed.push(x).len() && processed.push(x)[m] == k;
                        if m < processed.len() {
                            assert(processed[m] == k);
                        }
                    }
                    if processed.contains(k) {
                        let m = choose|m: int| 0 <= m < processed.len() && processed[m] == k;
                        assert(processed.push(x)[m] == k);
                    }
                    assert(processed.push(x)[processed.len() as int] == x);
                }
                if present {
                    assert(out@.contains(x)) by {
                        assert(out@[p as int] == x);
                    }
                } else {
                    assert(out@ == pre_out.insert(p as int, x));
                    assert(forall|m: int| 0 <= m < p ==> out@[m] == pre_out[m]);
                    assert(out@[p as int] == x);
                    assert(forall|m: int|
                        p < m < out@.len() ==> out@[m] == pre_out[m - 1]);
                    assert forall|i: int, j: int|
                        0 <= i < j < out@.len() implies out@[i] < out@[j] by {
                        if j < p {
                        } else if j == p {
                            assert(out@[i] == pre_out[i] && pre_out[i] < x);
                        } else if i == p {
                            assert(out@[j] == pre_out[j - 1]);
                            assert(!(pre_out[j - 1] < x) || j - 1 >= p);
                            if j - 1 == p {
                                assert(pre_out[p as int] != x);
                                assert(!(pre_out[p as int] < x));
                            } else {
                                assert(!(pre_out[p as int] < x));
                                assert(pre_out[p as int] != x);
                                assert(pre_out[p as int] < pre_out[j - 1]);
                            }
                        } else if i < p {
                            if j - 1 == i {
                                assert(out@[i] == pre_out[i] && pre_out[i] < x);
                                assert(out@[j] == pre_out[i]);
                                assert(false);
                            } else {
                                assert(out@[i] == pre_out[i] && out@[j] == pre_out[j - 1]);
                            }
                        } else {
                            assert(out@[i] == pre_out[i - 1] && out@[j] == pre_out[j - 1]);
                        }
                    }
                    assert forall|k: u64|
                        out@.contains(k) <==> (pre_out.contains(k) || k == x) by {
                        if out@.contains(k) {
                            let m = choose|m: int| 0 <= m < out@.len() && out@[m] == k;
                            if m < p {
                                assert(pre_out[m] == k);
                            } else if m > p {
                                assert(pre_out[m - 1] == k);
                            }
                        }
                        if pre_out.contains(k) {
                            let m = choose|m: int| 0 <= m < pre_out.len() && pre_out[m] == k;
                            if m < p {
                                assert(out@[m] == k);
                            } else {
                                assert(out@[m + 1] == k);
                            }
                        }
                        assert(out@[p as int] == x);
                    }
                }
            }
            proof {
                assert forall|k: u64|
                    out@.contains(k) <==> (flat_before + vecs@[a as int]@.take(bi + 1)).contains(
                        k,
                    ) by {
                    assert(processed.push(x).contains(k) <==> (processed.contains(k) || k == x));
                    if present {
                        assert(out@.contains(x));
                    } else {
                        assert(out@.contains(k) <==> (pre_out.contains(k) || k == x));
                    }
                }
            }
            bi += 1;
        }
        proof {
            assert(vecs@[a as int]@.take(nb as int) =~= vecs@[a as int]@);
            assert(vecs@.take(a + 1).drop_last() =~= vecs@.take(a as int));
            assert(vecs@.take(a + 1).last() == vecs@[a as int]);
            assert(spec_flat_keys(vecs@.take(a + 1)) == flat_before + vecs@[a as int]@);
        }
        a += 1;
    }
    proof {
        assert(vecs@.take(na as int) =~= vecs@);
    }
    out
}

} // verus!
