//! Building a last-wins lookup from derived key to element.

use core::hash::Hash;
use std::collections::HashMap;

use vstd::prelude::*;
use vstd::std_specs::hash::obeys_key_model;

use crate::array::resolve::resolves;

verus! {

broadcast use vstd::std_specs::hash::group_hash_axioms;

/// The element of `xs` at the last position whose key — the entry of `ks` at
/// the same position — equals `k`.
pub open spec fn last_with<T, K>(xs: Seq<T>, ks: Seq<K>, k: K) -> T
    recommends
        ks.len() == xs.len(),
        ks.contains(k),
    decreases xs.len(),
{
    if xs.len() == 0 {
        arbitrary()
    } else if ks.last() == k {
        xs.last()
    } else {
        last_with(xs.drop_last(), ks.drop_last(), k)
    }
}

/// The last-wins lookup of `xs` keyed by `ks`: every key that occurs in `ks`
/// is mapped to the last element that carries it; keys that do not occur are
/// absent.
pub open spec fn keyed<T, K>(xs: Seq<T>, ks: Seq<K>) -> Map<K, T>
    recommends
        ks.len() == xs.len(),
{
    Map::new(|k: K| ks.contains(k), |k: K| last_with(xs, ks, k))
}

/// Appending one keyed element turns a lookup into the same lookup with that
/// key now bound to the new element, whatever it was bound to before.
proof fn lemma_keyed_push<T, K>(xs: Seq<T>, ks: Seq<K>, x: T, k: K)
    requires
        ks.len() == xs.len(),
    ensures
        keyed(xs.push(x), ks.push(k)) == keyed(xs, ks).insert(k, x),
{
    broadcast use vstd::seq_lib::lemma_seq_contains_after_push;

    let xs1 = xs.push(x);
    let ks1 = ks.push(k);
    assert(xs1.drop_last() =~= xs);
    assert(ks1.drop_last() =~= ks);
    assert forall|k2: K| ks1.contains(k2) implies #[trigger] last_with(xs1, ks1, k2) == (if k2 == k {
        x
    } else {
        last_with(xs, ks, k2)
    }) by {
        assert(ks1.last() == k && xs1.last() == x);
    }
    assert(keyed(xs1, ks1) =~= keyed(xs, ks).insert(k, x));
}

/// Last-wins, position by position: the value stored for a present key `k`
/// is the element at some position `i` with `ks[i] == k`, and no later
/// position carries `k` — later elements overwrite earlier ones.
pub proof fn lemma_keyed_last_wins<T, K>(xs: Seq<T>, ks: Seq<K>, k: K)
    requires
        ks.len() == xs.len(),
        ks.contains(k),
    ensures
        exists|i: int|
            0 <= i < xs.len() && ks[i] == k && xs[i] == keyed(xs, ks)[k] && (forall|j: int|
                i < j < xs.len() ==> ks[j] != k),
    decreases xs.len(),
{
    if ks.last() == k {
        let i = ks.len() - 1;
        assert(0 <= i < xs.len() && ks[i] == k && xs[i] == keyed(xs, ks)[k] && (forall|j: int|
            i < j < xs.len() ==> ks[j] != k));
    } else {
        let xs0 = xs.drop_last();
        let ks0 = ks.drop_last();
        assert(ks0.contains(k)) by {
            let ix = choose|ix: int| 0 <= ix < ks.len() && ks[ix] == k;
            assert(ks0[ix] == k);
        }
        lemma_keyed_last_wins(xs0, ks0, k);
        let i = choose|i: int|
            0 <= i < xs0.len() && ks0[i] == k && xs0[i] == keyed(xs0, ks0)[k] && (forall|j: int|
                i < j < xs0.len() ==> ks0[j] != k);
        assert(keyed(xs, ks)[k] == keyed(xs0, ks0)[k]);
        assert(ks[i] == ks0[i] && xs[i] == xs0[i]);
        assert(forall|j: int| 0 <= j < ks0.len() ==> ks[j] == ks0[j]);
        assert(0 <= i < xs.len() && ks[i] == k && xs[i] == keyed(xs, ks)[k] && (forall|j: int|
            i < j < xs.len() ==> ks[j] != k));
    }
}

/// Builds a last-wins lookup from `items` by derived key: a single pass that
/// computes each element's key once and binds the key to the element,
/// overwriting any earlier binding for the same key.
/// The key type must behave as a hash-table key — deterministic hashing,
/// equality that agrees with identity, a faithful `clone` — which is what
/// `obeys_key_model` states.
pub fn key_by<T, K: Eq + Hash, F: Fn(&T) -> K>(items: Vec<T>, key_resolver: F) -> (r: HashMap<
    K,
    T,
>)
    requires
        obeys_key_model::<K>(),
        forall|i: int| 0 <= i < items@.len() ==> key_resolver.requires((&items@[i],)),
    ensures
        exists|ks: Seq<K>|
            resolves(key_resolver, items@, ks) && r@ == keyed(items@, ks),
{
    let ghost xs = items@;
    let mut lookup: HashMap<K, T> = HashMap::new();
    let ghost mut ks: Seq<K> = Seq::empty();
    proof {
        assert(lookup@ =~= keyed(xs.take(0), ks));
    }
    for item in it: items.into_iter()
        invariant
            obeys_key_model::<K>(),
            it.seq() == xs,
            forall|i: int| 0 <= i < xs.len() ==> key_resolver.requires((&xs[i],)),
            ks.len() == it.index(),
            forall|i: int| 0 <= i < ks.len() ==> key_resolver.ensures((&xs[i],), ks[i]),
            lookup@ == keyed(xs.take(it.index() as int), ks),
    {
        let key = key_resolver(&item);
        let ghost kk = key;
        let ghost x = item;
        let ghost pre = xs.take(it.index() as int);
        lookup.insert(key, item);
        proof {
            lemma_keyed_push(pre, ks, x, kk);
            assert(pre.push(x) =~= xs.take(it.index() + 1));
            ks = ks.push(kk);
        }
    }
    proof {
        assert(xs.take(xs.len() as int) =~= xs);
        assert(resolves(key_resolver, xs, ks));
    }
    lookup
}

/// Fluent form of [`key_by`]: lets a lookup be built with `items.key_by(f)`.
pub trait KeyByExt<T>: View<V = Seq<T>> + Sized {
    /// Builds a last-wins lookup from the elements by a key derived from
    /// each one; elements later in the sequence overwrite earlier ones that
    /// share their key.
    fn key_by<K: Eq + Hash, F: Fn(&T) -> K>(self, key_resolver: F) -> (r: HashMap<K, T>)
        requires
            obeys_key_model::<K>(),
            forall|i: int| 0 <= i < self@.len() ==> key_resolver.requires((&self@[i],)),
        ensures
            exists|ks: Seq<K>|
                resolves(key_resolver, self@, ks) && r@ == keyed(self@, ks),
    ;
}

impl<T> KeyByExt<T> for Vec<T> {
    fn key_by<K: Eq + Hash, F: Fn(&T) -> K>(self, key_resolver: F) -> (r: HashMap<K, T>) {
        key_by(self, key_resolver)
    }
}

} // verus!
