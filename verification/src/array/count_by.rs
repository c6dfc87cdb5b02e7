//! Tallying elements per derived key.

use core::hash::Hash;
use std::collections::HashMap;

use vstd::prelude::*;
use vstd::std_specs::hash::obeys_key_model;

use crate::array::resolve::resolves;

verus! {

broadcast use vstd::std_specs::hash::group_hash_axioms;

/// The number of entries of `ks` equal to `k`.
pub open spec fn count_matching<K>(ks: Seq<K>, k: K) -> nat
    decreases ks.len(),
{
    if ks.len() == 0 {
        0
    } else {
        count_matching(ks.drop_last(), k) + (if ks.last() == k {
            1nat
        } else {
            0nat
        })
    }
}

/// The tally of a key sequence: every key that occurs in `ks` is mapped to
/// the number of its occurrences; keys that do not occur are absent.
pub open spec fn key_counts<K>(ks: Seq<K>) -> Map<K, nat> {
    Map::new(|k: K| ks.contains(k), |k: K| count_matching(ks, k))
}

/// A count is the length of the matching subsequence: `ks` holds as many
/// entries equal to `k` as a filter for `k` retains.
pub proof fn lemma_count_matching_is_filter<K>(ks: Seq<K>, k: K)
    ensures
        count_matching(ks, k) == ks.filter(|x: K| x == k).len(),
    decreases ks.len(),
{
    if ks.len() > 0 {
        let init = ks.drop_last();
        lemma_count_matching_is_filter(init, k);
        assert(init.push(ks.last()) =~= ks);
        init.lemma_filter_push(ks.last(), |x: K| x == k);
    }
}

/// A count never exceeds the number of keys tallied.
proof fn lemma_count_matching_le_len<K>(ks: Seq<K>, k: K)
    ensures
        count_matching(ks, k) <= ks.len(),
    decreases ks.len(),
{
    if ks.len() > 0 {
        lemma_count_matching_le_len(ks.drop_last(), k);
    }
}

/// A key that does not occur has count zero.
proof fn lemma_count_matching_absent<K>(ks: Seq<K>, k: K)
    requires
        !ks.contains(k),
    ensures
        count_matching(ks, k) == 0,
    decreases ks.len(),
{
    if ks.len() > 0 {
        assert(forall|i: int| 0 <= i < ks.len() - 1 ==> ks.drop_last()[i] == ks[i]);
        lemma_count_matching_absent(ks.drop_last(), k);
    }
}

/// The sum of the values of a finite map, taken in no particular order.
pub open spec fn values_total<K>(m: Map<K, nat>) -> int
    recommends
        m.dom().finite(),
    decreases m.dom().len(),
    when m.dom().finite()
{
    if m.dom().len() == 0 {
        0
    } else {
        proof {
            broadcast use vstd::set_lib::group_set_properties;

        }
        let k = m.dom().choose();
        m[k] + values_total(m.remove(k))
    }
}

/// Removing one entry takes exactly its value out of the total.
proof fn lemma_values_total_remove<K>(m: Map<K, nat>, k: K)
    requires
        m.dom().finite(),
        m.dom().contains(k),
    ensures
        values_total(m) == values_total(m.remove(k)) + m[k],
    decreases m.dom().len(),
{
    broadcast use vstd::set_lib::group_set_properties;

    let c = m.dom().choose();
    assert(m.dom().len() > 0);
    assert(m.dom().contains(c));
    if c == k {
    } else {
        let m1 = m.remove(c);
        lemma_values_total_remove(m1, k);
        lemma_values_total_remove(m.remove(k), c);
        assert(m1.remove(k) =~= m.remove(k).remove(c));
    }
}

/// Inserting a fresh entry adds exactly its value to the total.
proof fn lemma_values_total_insert<K>(m: Map<K, nat>, k: K, v: nat)
    requires
        m.dom().finite(),
        !m.dom().contains(k),
    ensures
        values_total(m.insert(k, v)) == values_total(m) + v,
{
    let mi = m.insert(k, v);
    lemma_values_total_remove(mi, k);
    assert(mi.remove(k) =~= m);
}

/// Overwriting an entry shifts the total by the difference of the values.
proof fn lemma_values_total_update<K>(m: Map<K, nat>, k: K, v: nat)
    requires
        m.dom().finite(),
        m.dom().contains(k),
    ensures
        values_total(m.insert(k, v)) == values_total(m) - m[k] + v,
{
    let mi = m.insert(k, v);
    lemma_values_total_remove(mi, k);
    lemma_values_total_remove(m, k);
    assert(mi.remove(k) =~= m.remove(k));
}

/// Extending a key sequence by one key turns its tally into the same tally
/// with that key's count one higher.
proof fn lemma_key_counts_push<K>(ks: Seq<K>, k: K)
    ensures
        key_counts(ks.push(k)) == key_counts(ks).insert(k, count_matching(ks, k) + 1),
{
    broadcast use vstd::seq_lib::lemma_seq_contains_after_push;

    let ks1 = ks.push(k);
    assert(ks1.drop_last() =~= ks);
    assert forall|k2: K| ks1.contains(k2) implies #[trigger] count_matching(ks1, k2)
        == count_matching(ks, k2) + (if k2 == k {
        1int
    } else {
        0int
    }) by {
        assert(ks1.last() == k);
    }
    assert(key_counts(ks1) =~= key_counts(ks).insert(k, count_matching(ks, k) + 1));
}

/// The counts in a tally add up to the number of keys tallied: summing the
/// values of `key_counts(ks)` gives the length of `ks`.
pub proof fn lemma_key_counts_total<K>(ks: Seq<K>)
    ensures
        values_total(key_counts(ks)) == ks.len(),
    decreases ks.len(),
{
    broadcast use vstd::seq_lib::seq_to_set_is_finite;

    assert(key_counts(ks).dom() =~= ks.to_set());
    if ks.len() == 0 {
        assert(key_counts(ks).dom() =~= Set::<K>::empty());
    } else {
        let init = ks.drop_last();
        let k = ks.last();
        assert(init.push(k) =~= ks);
        lemma_key_counts_total(init);
        lemma_key_counts_push(init, k);
        assert(key_counts(init).dom() =~= init.to_set());
        if init.contains(k) {
            lemma_values_total_update(key_counts(init), k, count_matching(init, k) + 1);
        } else {
            lemma_count_matching_absent(init, k);
            lemma_values_total_insert(key_counts(init), k, count_matching(init, k) + 1);
        }
    }
}

/// Tallies `items` by derived key: a single pass that computes each
/// element's key once and maps every key that appears to the number of
/// elements that produced it. Keys that no element produced are absent.
/// The key type must behave as a hash-table key — deterministic hashing,
/// equality that agrees with identity, a faithful `clone` — which is what
/// `obeys_key_model` states.
pub fn count_by<T, K: Eq + Hash, F: Fn(&T) -> K>(items: Vec<T>, key_resolver: F) -> (r: HashMap<
    K,
    usize,
>)
    requires
        obeys_key_model::<K>(),
        forall|i: int| 0 <= i < items@.len() ==> key_resolver.requires((&items@[i],)),
    ensures
        exists|ks: Seq<K>|
            resolves(key_resolver, items@, ks) && r@.map_values(|c: usize| c as nat) == key_counts(
                ks,
            ),
{
    let ghost xs = items@;
    let n = items.len();
    let mut tally: HashMap<K, usize> = HashMap::new();
    let ghost mut ks: Seq<K> = Seq::empty();
    proof {
        assert(tally@.map_values(|c: usize| c as nat) =~= key_counts(ks));
    }
    for item in it: items.into_iter()
        invariant
            obeys_key_model::<K>(),
            it.seq() == xs,
            xs.len() == n,
            forall|i: int| 0 <= i < xs.len() ==> key_resolver.requires((&xs[i],)),
            ks.len() == it.index(),
            forall|i: int| 0 <= i < ks.len() ==> key_resolver.ensures((&xs[i],), ks[i]),
            tally@.map_values(|c: usize| c as nat) == key_counts(ks),
    {
        let key = key_resolver(&item);
        let ghost kk = key;
        let ghost m0 = tally@;
        let count: usize = match tally.get(&key) {
            Some(c) => *c,
            None => 0,
        };
        proof {
            lemma_count_matching_le_len(ks, kk);
            assert(m0.map_values(|c: usize| c as nat).dom() =~= m0.dom());
            if m0.contains_key(kk) {
                assert(key_counts(ks)[kk] == count_matching(ks, kk));
                assert(count == count_matching(ks, kk));
            } else {
                assert(!ks.contains(kk));
                lemma_count_matching_absent(ks, kk);
            }
            assert(count as nat <= ks.len());
            assert(ks.len() < n);
        }
        tally.insert(key, count + 1);
        proof {
            lemma_key_counts_push(ks, kk);
            ks = ks.push(kk);
            assert(tally@.map_values(|c: usize| c as nat) =~= key_counts(ks));
        }
    }
    proof {
        assert(resolves(key_resolver, xs, ks));
    }
    tally
}

/// Fluent form of [`count_by`]: lets a sequence be tallied with
/// `items.count_by(f)`.
pub trait CountByExt<T>: View<V = Seq<T>> + Sized {
    /// Tallies the elements by a key derived from each one, mapping every
    /// key that appears to the number of elements that produced it.
    fn count_by<K: Eq + Hash, F: Fn(&T) -> K>(self, key_resolver: F) -> (r: HashMap<K, usize>)
        requires
            obeys_key_model::<K>(),
            forall|i: int| 0 <= i < self@.len() ==> key_resolver.requires((&self@[i],)),
        ensures
            exists|ks: Seq<K>|
                resolves(key_resolver, self@, ks) && r@.map_values(|c: usize| c as nat)
                    == key_counts(ks),
    ;
}

impl<T> CountByExt<T> for Vec<T> {
    fn count_by<K: Eq + Hash, F: Fn(&T) -> K>(self, key_resolver: F) -> (r: HashMap<K, usize>) {
        count_by(self, key_resolver)
    }
}

} // verus!
