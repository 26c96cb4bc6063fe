//! Multi-key searches over pair vectors, and key extraction.
//!
//! `find_map_many` and `find_many` locate several keys in one pass: each
//! element of the collection can satisfy at most one requested key, the
//! first still-unserved key it matches, so duplicate keys pick up distinct
//! matching elements in collection order. They return the matched indices
//! (the original handed out mutable references, which the verifier does
//! not allow in arrays).

use vstd::prelude::*;

use crate::traits::MapKey;

verus! {

/// The views of a sequence of keys.
pub open spec fn key_views<K: MapKey>(s: Seq<K>) -> Seq<<K as View>::V> {
    s.map_values(|k: K| k@)
}

/// The views of the keys of a sequence of pairs.
pub open spec fn pair_key_views<K: MapKey, V>(s: Seq<(K, V)>) -> Seq<<K as View>::V> {
    s.map_values(|p: (K, V)| p.0@)
}

/// An executable slot vector in its mathematical form.
pub open spec fn lift_slot(o: Option<usize>) -> Option<int> {
    match o {
        Some(u) => Some(u as int),
        None => None,
    }
}

pub open spec fn lift_slots(s: Seq<Option<usize>>) -> Seq<Option<int>> {
    s.map_values(|o: Option<usize>| lift_slot(o))
}

/// Whether slot `j` is the first still-empty slot whose key is `k`.
pub open spec fn spec_slot_pred<KV>(
    slots: Seq<Option<int>>,
    keys: Seq<KV>,
    k: KV,
    j: int,
) -> bool {
    &&& 0 <= j < keys.len()
    &&& slots[j] is None
    &&& keys[j] == k
    &&& forall|l: int| 0 <= l < j ==> !(slots[l] is None && keys[l] == k)
}

/// Whether some still-empty slot asks for `k`.
pub open spec fn spec_has_slot<KV>(slots: Seq<Option<int>>, keys: Seq<KV>, k: KV) -> bool {
    exists|j: int| spec_slot_pred(slots, keys, k, j)
}

/// One element visits the slots: the first empty slot asking for the
/// element's key receives the element's index; with none, nothing changes.
pub open spec fn spec_assign<KV>(
    slots: Seq<Option<int>>,
    keys: Seq<KV>,
    k: KV,
    idx: int,
) -> Seq<Option<int>> {
    if spec_has_slot(slots, keys, k) {
        slots.update(choose|j: int| spec_slot_pred(slots, keys, k, j), Some(idx))
    } else {
        slots
    }
}

/// All elements visit the slots in collection order, the first visitor
/// carrying element index `base`.
pub open spec fn spec_fill<KV>(
    slots: Seq<Option<int>>,
    keys: Seq<KV>,
    item_keys: Seq<KV>,
    base: int,
) -> Seq<Option<int>>
    decreases item_keys.len(),
{
    if item_keys.len() == 0 {
        slots
    } else {
        spec_fill(
            spec_assign(slots, keys, item_keys.first(), base),
            keys,
            item_keys.drop_first(),
            base + 1,
        )
    }
}

/// Whether every requested key has been served.
pub open spec fn spec_all_filled(slots: Seq<Option<int>>) -> bool {
    forall|j: int| 0 <= j < slots.len() ==> (#[trigger] slots[j]) is Some
}

/// The empty slots, one per requested key.
pub open spec fn spec_empty_slots(n: int) -> Seq<Option<int>> {
    Seq::new(n as nat, |i: int| None)
}

/// The slots after every element of `collection` has visited them: the
/// whole result of a multi-key search.
pub open spec fn spec_find_result<K: MapKey, V>(collection: Seq<(K, V)>, keys: Seq<K>) -> Seq<
    Option<int>,
> {
    spec_fill(spec_empty_slots(keys.len() as int), key_views(keys), pair_key_views(collection), 0)
}

proof fn lemma_slot_unique<KV>(slots: Seq<Option<int>>, keys: Seq<KV>, k: KV, i: int, j: int)
    requires
        spec_slot_pred(slots, keys, k, i),
        spec_slot_pred(slots, keys, k, j),
    ensures
        i == j,
{
    if i < j {
        assert(!(slots[i] is None && keys[i] == k));
    } else if j < i {
        assert(!(slots[j] is None && keys[j] == k));
    }
}

/// Filling with one more trailing element is one visit after the fill.
proof fn lemma_fill_push<KV>(
    slots: Seq<Option<int>>,
    keys: Seq<KV>,
    item_keys: Seq<KV>,
    k: KV,
    base: int,
)
    ensures
        spec_fill(slots, keys, item_keys.push(k), base) == spec_assign(
            spec_fill(slots, keys, item_keys, base),
            keys,
            k,
            base + item_keys.len(),
        ),
    decreases item_keys.len(),
{
    let one = item_keys.push(k);
    if item_keys.len() == 0 {
        assert(one.first() == k);
        assert(one.drop_first() =~= Seq::<KV>::empty());
        assert(spec_fill(slots, keys, one, base) == spec_fill(
            spec_assign(slots, keys, k, base),
            keys,
            one.drop_first(),
            base + 1,
        ));
    } else {
        assert(one.first() == item_keys.first());
        assert(one.drop_first() =~= item_keys.drop_first().push(k));
        assert(spec_fill(slots, keys, one, base) == spec_fill(
            spec_assign(slots, keys, item_keys.first(), base),
            keys,
            item_keys.drop_first().push(k),
            base + 1,
        ));
        lemma_fill_push(
            spec_assign(slots, keys, item_keys.first(), base),
            keys,
            item_keys.drop_first(),
            k,
            base + 1,
        );
        assert(spec_fill(slots, keys, item_keys, base) == spec_fill(
            spec_assign(slots, keys, item_keys.first(), base),
            keys,
            item_keys.drop_first(),
            base + 1,
        ));
    }
}

/// Finds each requested key's element in a vector of key-value pairs,
/// first-come first-served in collection order, and returns the matched
/// positions (one per requested key, in key order); `None` unless every
/// requested key found a distinct element.
pub fn find_map_many<K: MapKey, V>(collection: &Vec<(K, V)>, keys: &Vec<K>) -> (r: Option<
    Vec<usize>,
>)
    ensures
        ({
            let fin = spec_find_result(collection@, keys@);
            &&& (r is None <==> !spec_all_filled(fin))
            &&& (r matches Some(out) ==> out@.len() == keys@.len() && (forall|j: int|
                0 <= j < fin.len() ==> (#[trigger] out@[j]) as int == fin[j]->Some_0 && out@[j]
                    < collection@.len()))
        }),
{
    let ghost kv = key_views(keys@);
    let ghost iv = pair_key_views(collection@);
    let klen = keys.len();
    let n = collection.len();
    let mut slots: Vec<Option<usize>> = Vec::new();
    let mut s: usize = 0;
    while s < klen
        invariant
            s <= klen,
            slots@.len() == s,
            forall|j: int| 0 <= j < s ==> slots@[j] is None,
        decreases klen - s,
    {
        slots.push(None);
        s += 1;
    }
    proof {
        assert(lift_slots(slots@) =~= spec_empty_slots(kv.len() as int));
        assert(iv.take(0) =~= Seq::<<K as View>::V>::empty());
    }
    let mut i: usize = 0;
    while i < n
        invariant
            i <= n,
            n == collection@.len(),
            klen == keys@.len(),
            kv == key_views(keys@),
            iv == pair_key_views(collection@),
            iv.len() == n,
            slots@.len() == klen,
            forall|j: int| 0 <= j < klen ==> (#[trigger] slots@[j] matches Some(u) ==> u < i),
            lift_slots(slots@) == spec_fill(spec_empty_slots(klen as int), kv, iv.take(i as int), 0),
        decreases n - i,
    {
        let ghost pre = lift_slots(slots@);
        let ghost k = iv[i as int];
        let mut j: usize = 0;
        let mut assigned = false;
        while j < klen && !assigned
            invariant
                j <= klen,
                klen == keys@.len(),
                kv == key_views(keys@),
                i < n,
                n == collection@.len(),
                iv == pair_key_views(collection@),
                k == iv[i as int],
                slots@.len() == klen,
                forall|l: int|
                    0 <= l < klen ==> (#[trigger] slots@[l] matches Some(u) ==> u < i + 1),
                !assigned ==> lift_slots(slots@) == pre,
                !assigned ==> forall|l: int| 0 <= l < j ==> !(pre[l] is None && kv[l] == k),
                assigned ==> lift_slots(slots@) == spec_assign(pre, kv, k, i as int),
            decreases klen - j + (if assigned {
                0int
            } else {
                1int
            }),
        {
            let empty_here = slots[j].is_none();
            if empty_here && keys[j].key_eq(&collection[i].0) {
                proof {
                    assert(kv[j as int] == keys@[j as int]@);
                    assert(k == collection@[i as int].0@);
                    assert(pre[j as int] == lift_slot(slots@[j as int]));
                    assert(spec_slot_pred(pre, kv, k, j as int));
                    let jj = choose|l: int| spec_slot_pred(pre, kv, k, l);
                    lemma_slot_unique(pre, kv, k, j as int, jj);
                }
                slots.set(j, Some(i));
                assigned = true;
                proof {
                    assert(lift_slots(slots@) =~= spec_assign(pre, kv, k, i as int));
                }
            } else {
                proof {
                    assert(kv[j as int] == keys@[j as int]@);
                    assert(k == collection@[i as int].0@);
                    assert(pre[j as int] == lift_slot(slots@[j as int]));
                }
                j += 1;
            }
        }
        proof {
            if !assigned {
                assert(!spec_has_slot(pre, kv, k)) by {
                    if spec_has_slot(pre, kv, k) {
                        let l = choose|l: int| spec_slot_pred(pre, kv, k, l);
                        assert(!(pre[l] is None && kv[l] == k));
                    }
                }
                assert(lift_slots(slots@) == spec_assign(pre, kv, k, i as int));
            }
            assert(iv.take(i + 1) =~= iv.take(i as int).push(k));
            lemma_fill_push(spec_empty_slots(klen as int), kv, iv.take(i as int), k, 0);
            assert(iv.take(i as int).len() == i);
        }
        i += 1;
    }
    proof {
        assert(iv.take(n as int) =~= iv);
        assert(spec_empty_slots(klen as int) =~= spec_empty_slots(keys@.len() as int));
    }
    let ghost fin = spec_find_result(collection@, keys@);
    proof {
        assert(fin == spec_fill(spec_empty_slots(klen as int), kv, iv, 0));
    }
    let mut out: Vec<usize> = Vec::new();
    let mut j: usize = 0;
    while j < klen
        invariant
            j <= klen,
            klen == slots@.len(),
            fin == spec_find_result(collection@, keys@),
            fin == lift_slots(slots@),
            fin.len() == klen,
            n == collection@.len(),
            forall|l: int| 0 <= l < klen ==> (#[trigger] slots@[l] matches Some(u) ==> u < n),
            out@.len() == j,
            forall|l: int| 0 <= l < j ==> #[trigger] fin[l] is Some,
            forall|l: int| 0 <= l < j ==> (#[trigger] out@[l]) as int == fin[l]->Some_0,
            forall|l: int| 0 <= l < j ==> #[trigger] out@[l] < n,
        decreases klen - j,
    {
        match slots[j] {
            Some(idx) => {
                let ghost pre_out = out@;
                out.push(idx);
                proof {
                    assert(fin[j as int] == lift_slot(slots@[j as int]));
                    assert(slots@[j as int] == Some(idx));
                    assert(out@ == pre_out.push(idx));
                    assert forall|l: int|
                        0 <= l < j + 1 implies fin[l] is Some && (#[trigger] out@[l]) as int
                        == fin[l]->Some_0 && out@[l] < n by {
                        if l < j {
                            assert(out@[l] == pre_out[l]);
                        } else {
                            assert(out@[l] == idx);
                            assert(fin[l] == lift_slot(slots@[l]));
                        }
                    }
                }
            },
            None => {
                proof {
                    assert(fin[j as int] == lift_slot(slots@[j as int]));
                    assert((j as int) < fin.len() && fin[j as int] is None);
                    assert(!spec_all_filled(fin));
                }
                return None;
            },
        }
        j += 1;
    }
    proof {
        assert forall|l: int| 0 <= l < fin.len() implies (#[trigger] fin[l]) is Some by {}
        assert(spec_all_filled(fin));
    }
    Some(out)
}

/// Finds each requested key in a vector of keys, first-come first-served
/// in collection order, and returns the matched positions; `None` unless
/// every requested key found a distinct element.
pub fn find_many<K: MapKey>(collection: &Vec<K>, keys: &Vec<K>) -> (r: Option<Vec<usize>>)
    ensures
        ({
            let fin = spec_fill(
                spec_empty_slots(keys@.len() as int),
                key_views(keys@),
                key_views(collection@),
                0,
            );
            &&& (r is None <==> !spec_all_filled(fin))
            &&& (r matches Some(out) ==> out@.len() == keys@.len() && (forall|j: int|
                0 <= j < fin.len() ==> (#[trigger] out@[j]) as int == fin[j]->Some_0 && out@[j]
                    < collection@.len()))
        }),
{
    let n = collection.len();
    let mut pairs: Vec<(K, ())> = Vec::new();
    let mut i: usize = 0;
    while i < n
        invariant
            i <= n,
            n == collection@.len(),
            pairs@.len() == i,
            forall|l: int| 0 <= l < i ==> #[trigger] pairs@[l].0@ == collection@[l]@,
        decreases n - i,
    {
        pairs.push((collection[i].key_clone(), ()));
        i += 1;
    }
    proof {
        assert(pair_key_views(pairs@) =~= key_views(collection@));
    }
    find_map_many(&pairs, keys)
}

} // verus!

verus! {

/// The key views of a family of key vectors, flattened in order.
pub open spec fn spec_flat_views<K: MapKey>(vs: Seq<Vec<K>>) -> Seq<<K as View>::V>
    decreases vs.len(),
{
    if vs.len() == 0 {
        Seq::empty()
    } else {
        spec_flat_views(vs.drop_last()) + key_views(vs.last()@)
    }
}

/// First-seen deduplication: each value keeps its first occurrence's place.
pub open spec fn spec_dedup<KV>(s: Seq<KV>) -> Seq<KV>
    decreases s.len(),
{
    if s.len() == 0 {
        s
    } else if s.drop_last().contains(s.last()) {
        spec_dedup(s.drop_last())
    } else {
        spec_dedup(s.drop_last()).push(s.last())
    }
}

/// Deduplication keeps exactly the values that were there.
proof fn lemma_dedup_contains<KV>(s: Seq<KV>, x: KV)
    ensures
        spec_dedup(s).contains(x) <==> s.contains(x),
    decreases s.len(),
{
    if s.len() > 0 {
        lemma_dedup_contains(s.drop_last(), x);
        assert(s.contains(x) <==> (s.drop_last().contains(x) || s.last() == x)) by {
            if s.contains(x) {
                let i = choose|i: int| 0 <= i < s.len() && s[i] == x;
                if i < s.len() - 1 {
                    assert(s.drop_last()[i] == x);
                }
            }
            if s.drop_last().contains(x) {
                let i = choose|i: int| 0 <= i < s.drop_last().len() && s.drop_last()[i] == x;
                assert(s[i] == x);
            }
        }
        if !s.drop_last().contains(s.last()) {
            let d = spec_dedup(s.drop_last());
            assert(d.push(s.last()).contains(x) <==> (d.contains(x) || s.last() == x)) by {
                if d.push(s.last()).contains(x) {
                    let i = choose|i: int| 0 <= i < d.push(s.last()).len() && d.push(s.last())[i] == x;
                    if i < d.len() {
                        assert(d[i] == x);
                    }
                }
                if d.contains(x) {
                    let i = choose|i: int| 0 <= i < d.len() && d[i] == x;
                    assert(d.push(s.last())[i] == x);
                }
                assert(d.push(s.last())[d.len() as int] == s.last());
            }
        }
    }
}

/// Flattens the key vectors into one list of keys, keeping each key's
/// first occurrence and dropping later repeats.
pub fn extract_keys<K: MapKey>(vecs: &Vec<Vec<K>>) -> (r: Vec<K>)
    ensures
        key_views(r@) == spec_dedup(spec_flat_views(vecs@)),
{
    let mut out: Vec<K> = Vec::new();
    let na = vecs.len();
    let mut a: usize = 0;
    proof {
        assert(vecs@.take(0) =~= Seq::<Vec<K>>::empty());
        assert(key_views(out@) =~= Seq::<<K as View>::V>::empty());
    }
    while a < na
        invariant
            a <= na,
            na == vecs@.len(),
            key_views(out@) == spec_dedup(spec_flat_views(vecs@.take(a as int))),
        decreases na - a,
    {
        let ghost flat_before = spec_flat_views(vecs@.take(a as int));
        let nb = vecs[a].len();
        let mut bi: usize = 0;
        while bi < nb
            invariant
                bi <= nb,
                a < na,
                na == vecs@.len(),
                nb == vecs@[a as int]@.len(),
                flat_before == spec_flat_views(vecs@.take(a as int)),
                key_views(out@) == spec_dedup(
                    flat_before + key_views(vecs@[a as int]@.take(bi as int)),
                ),
            decreases nb - bi,
        {
            let ghost processed = flat_before + key_views(vecs@[a as int]@.take(bi as int));
            let ghost xv = vecs@[a as int]@[bi as int]@;
            // does the output already hold this key?
            let x_ref = &vecs[a][bi];
            let mut seen = false;
            let mut l: usize = 0;
            let olen = out.len();
            while l < olen && !seen
                invariant
                    l <= olen,
                    olen == out@.len(),
                    xv == vecs@[a as int]@[bi as int]@,
                    x_ref@ == xv,
                    !seen ==> forall|m: int| 0 <= m < l ==> key_views(out@)[m] != xv,
                    seen ==> key_views(out@).contains(xv),
                decreases olen - l + (if seen {
                    0int
                } else {
                    1int
                }),
            {
                if out[l].key_eq(x_ref) {
                    proof {
                        assert(key_views(out@)[l as int] == xv);
                    }
                    seen = true;
                } else {
                    proof {
                        assert(key_views(out@)[l as int] == out@[l as int]@);
                    }
                    l += 1;
                }
            }
            proof {
                if !seen {
                    assert(!key_views(out@).contains(xv)) by {
                        if key_views(out@).contains(xv) {
                            let m = choose|m: int|
                                0 <= m < key_views(out@).len() && key_views(out@)[m] == xv;
                            assert(key_views(out@)[m] != xv);
                        }
                    }
                }
                lemma_dedup_contains(processed, xv);
                assert(processed.push(xv).drop_last() =~= processed);
                assert(processed.push(xv).last() == xv);
            }
            if !seen {
                out.push(x_ref.key_clone());
                proof {
                    assert(key_views(out@) =~= spec_dedup(processed).push(xv));
                }
            }
            proof {
                assert(vecs@[a as int]@.take(bi + 1) =~= vecs@[a as int]@.take(bi as int).push(
                    vecs@[a as int]@[bi as int],
                ));
                assert(flat_before + key_views(vecs@[a as int]@.take(bi + 1)) =~= processed.push(
                    xv,
                ));
            }
            bi += 1;
        }
        proof {
            assert(vecs@[a as int]@.take(nb as int) =~= vecs@[a as int]@);
            assert(vecs@.take(a + 1).drop_last() =~= vecs@.take(a as int));
            assert(vecs@.take(a + 1).last() == vecs@[a as int]);
            assert(spec_flat_views(vecs@.take(a + 1)) == flat_before + key_views(
                vecs@[a as int]@,
            ));
        }
        a += 1;
    }
    proof {
        assert(vecs@.take(na as int) =~= vecs@);
    }
    out
}

} // verus!
