//! Bucketing elements per derived key, preserving per-bucket order.

use core::hash::Hash;
use std::collections::HashMap;

use vstd::multiset::Multiset;
use vstd::prelude::*;
use vstd::std_specs::hash::obeys_key_model;

use crate::array::resolve::resolves;

verus! {

broadcast use vstd::std_specs::hash::group_hash_axioms;

/// The elements of `xs` whose key — the entry of `ks` at the same position —
/// equals `k`, in their original relative order.
pub open spec fn bucket<T, K>(xs: Seq<T>, ks: Seq<K>, k: K) -> Seq<T>
    recommends
        ks.len() == xs.len(),
    decreases xs.len(),
{
    if xs.len() == 0 {
        Seq::empty()
    } else {
        let rest = bucket(xs.drop_last(), ks.drop_last(), k);
        if ks.last() == k {
            rest.push(xs.last())
        } else {
            rest
        }
    }
}

/// The grouping of `xs` by the keys `ks`: every key that occurs in `ks` is
/// mapped to its bucket; keys that do not occur are absent.
pub open spec fn grouped<T, K>(xs: Seq<T>, ks: Seq<K>) -> Map<K, Seq<T>>
    recommends
        ks.len() == xs.len(),
{
    Map::new(|k: K| ks.contains(k), |k: K| bucket(xs, ks, k))
}

/// A key that does not occur has an empty bucket.
proof fn lemma_bucket_absent<T, K>(xs: Seq<T>, ks: Seq<K>, k: K)
    requires
        ks.len() == xs.len(),
        !ks.contains(k),
    ensures
        bucket(xs, ks, k) == Seq::<T>::empty(),
    decreases xs.len(),
{
    if xs.len() > 0 {
        assert(forall|i: int| 0 <= i < ks.len() - 1 ==> ks.drop_last()[i] == ks[i]);
        lemma_bucket_absent(xs.drop_last(), ks.drop_last(), k);
    }
}

/// Appending one keyed element turns a grouping into the same grouping with
/// the element appended to the end of its key's bucket, every other bucket
/// unchanged — so each bucket keeps the input's relative order.
pub proof fn lemma_grouped_push<T, K>(xs: Seq<T>, ks: Seq<K>, x: T, k: K)
    requires
        ks.len() == xs.len(),
    ensures
        grouped(xs.push(x), ks.push(k)) == grouped(xs, ks).insert(k, bucket(xs, ks, k).push(x)),
{
    broadcast use vstd::seq_lib::lemma_seq_contains_after_push;

    let xs1 = xs.push(x);
    let ks1 = ks.push(k);
    assert(xs1.drop_last() =~= xs);
    assert(ks1.drop_last() =~= ks);
    assert forall|k2: K| ks1.contains(k2) implies #[trigger] bucket(xs1, ks1, k2) == (if k2 == k {
        bucket(xs, ks, k2).push(x)
    } else {
        bucket(xs, ks, k2)
    }) by {
        assert(ks1.last() == k && xs1.last() == x);
    }
    assert(grouped(xs1, ks1) =~= grouped(xs, ks).insert(k, bucket(xs, ks, k).push(x)));
}

/// The multiset of all elements stored across the buckets of a finite map,
/// the buckets taken in no particular order.
pub open spec fn buckets_union<K, T>(m: Map<K, Seq<T>>) -> Multiset<T>
    recommends
        m.dom().finite(),
    decreases m.dom().len(),
    when m.dom().finite()
{
    if m.dom().len() == 0 {
        Multiset::empty()
    } else {
        proof {
            broadcast use vstd::set_lib::group_set_properties;

        }
        let k = m.dom().choose();
        m[k].to_multiset().add(buckets_union(m.remove(k)))
    }
}

/// Removing one bucket takes exactly its contents out of the union.
proof fn lemma_buckets_union_remove<K, T>(m: Map<K, Seq<T>>, k: K)
    requires
        m.dom().finite(),
        m.dom().contains(k),
    ensures
        buckets_union(m) == buckets_union(m.remove(k)).add(m[k].to_multiset()),
    decreases m.dom().len(),
{
    broadcast use vstd::set_lib::group_set_properties;

    let c = m.dom().choose();
    assert(m.dom().len() > 0);
    assert(m.dom().contains(c));
    if c == k {
        assert(m[k].to_multiset().add(buckets_union(m.remove(k))) =~= buckets_union(
            m.remove(k),
        ).add(m[k].to_multiset()));
    } else {
        let m1 = m.remove(c);
        lemma_buckets_union_remove(m1, k);
        lemma_buckets_union_remove(m.remove(k), c);
        assert(m1.remove(k) =~= m.remove(k).remove(c));
        assert(m[c].to_multiset().add(
            buckets_union(m.remove(k).remove(c)).add(m[k].to_multiset()),
        ) =~= (buckets_union(m.remove(k).remove(c)).add(m[c].to_multiset())).add(
            m[k].to_multiset(),
        ));
    }
}

/// The buckets of a grouping partition the elements grouped: the multiset
/// union of all buckets equals the multiset of the input sequence, so no
/// element is dropped, duplicated, or moved between buckets.
pub proof fn lemma_grouped_partitions<T, K>(xs: Seq<T>, ks: Seq<K>)
    requires
        ks.len() == xs.len(),
    ensures
        buckets_union(grouped(xs, ks)) == xs.to_multiset(),
    decreases xs.len(),
{
    broadcast use vstd::seq_lib::seq_to_set_is_finite;

    assert(grouped(xs, ks).dom() =~= ks.to_set());
    if xs.len() == 0 {
        assert(grouped(xs, ks).dom() =~= Set::<K>::empty());
        assert(buckets_union(grouped(xs, ks)) =~= Multiset::<T>::empty());
        assert(xs.to_multiset() =~= Multiset::<T>::empty()) by {
            xs.to_multiset_ensures();
        }
    } else {
        let xs0 = xs.drop_last();
        let ks0 = ks.drop_last();
        let x = xs.last();
        let k = ks.last();
        assert(xs0.push(x) =~= xs);
        assert(ks0.push(k) =~= ks);
        lemma_grouped_partitions(xs0, ks0);
        lemma_grouped_push(xs0, ks0, x, k);
        assert(grouped(xs0, ks0).dom() =~= ks0.to_set());
        let m0 = grouped(xs0, ks0);
        let b = bucket(xs0, ks0, k);
        let m1 = m0.insert(k, b.push(x));
        assert(m1.dom() =~= m0.dom().insert(k));
        lemma_buckets_union_remove(m1, k);
        assert(b.push(x).to_multiset() == b.to_multiset().insert(x)) by {
            b.to_multiset_ensures();
        }
        if ks0.contains(k) {
            lemma_buckets_union_remove(m0, k);
            assert(m1.remove(k) =~= m0.remove(k));
            assert(buckets_union(m0.remove(k)).add(b.to_multiset().insert(x))
                =~= (buckets_union(m0.remove(k)).add(b.to_multiset())).insert(x));
        } else {
            lemma_bucket_absent(xs0, ks0, k);
            assert(m1.remove(k) =~= m0);
            assert(b.to_multiset() =~= Multiset::<T>::empty()) by {
                b.to_multiset_ensures();
            }
            assert(buckets_union(m0).add(b.to_multiset().insert(x)) =~= buckets_union(
                m0,
            ).insert(x));
        }
        assert(xs.to_multiset() == xs0.to_multiset().insert(x)) by {
            xs0.to_multiset_ensures();
        }
    }
}

/// Groups `items` by derived key: a single pass that computes each element's
/// key once and appends the element to that key's bucket, so every element
/// lands in exactly one bucket and each bucket keeps the input's relative
/// order.
/// The key type must behave as a hash-table key — deterministic hashing,
/// equality that agrees with identity, a faithful `clone` — which is what
/// `obeys_key_model` states.
pub fn group_by<T, K: Eq + Hash, F: Fn(&T) -> K>(items: Vec<T>, key_resolver: F) -> (r: HashMap<
    K,
    Vec<T>,
>)
    requires
        obeys_key_model::<K>(),
        forall|i: int| 0 <= i < items@.len() ==> key_resolver.requires((&items@[i],)),
    ensures
        exists|ks: Seq<K>|
            resolves(key_resolver, items@, ks) && r@.map_values(|b: Vec<T>| b@) == grouped(
                items@,
                ks,
            ),
{
    let ghost xs = items@;
    let mut groups: HashMap<K, Vec<T>> = HashMap::new();
    let ghost mut ks: Seq<K> = Seq::empty();
    proof {
        assert(groups@.map_values(|b: Vec<T>| b@) =~= grouped(xs.take(0), ks));
    }
    for item in it: items.into_iter()
        invariant
            obeys_key_model::<K>(),
            it.seq() == xs,
            forall|i: int| 0 <= i < xs.len() ==> key_resolver.requires((&xs[i],)),
            ks.len() == it.index(),
            forall|i: int| 0 <= i < ks.len() ==> key_resolver.ensures((&xs[i],), ks[i]),
            groups@.map_values(|b: Vec<T>| b@) == grouped(xs.take(it.index() as int), ks),
    {
        let key = key_resolver(&item);
        let ghost kk = key;
        let ghost x = item;
        let ghost m0 = groups@;
        let ghost pre = xs.take(it.index() as int);
        let mut b: Vec<T> = match groups.remove(&key) {
            Some(b) => b,
            None => Vec::new(),
        };
        proof {
            assert(m0.map_values(|b: Vec<T>| b@).dom() =~= m0.dom());
            if m0.contains_key(kk) {
                assert(m0[kk] == b);
                assert(m0.map_values(|v: Vec<T>| v@).contains_key(kk));
                assert(grouped(pre, ks).contains_key(kk));
                assert(ks.contains(kk));
                assert(grouped(pre, ks)[kk] == bucket(pre, ks, kk));
                assert(m0.map_values(|v: Vec<T>| v@)[kk] == m0[kk]@);
                assert(b@ == bucket(pre, ks, kk));
            } else {
                assert(!ks.contains(kk));
                lemma_bucket_absent(pre, ks, kk);
            }
        }
        b.push(item);
        groups.insert(key, b);
        proof {
            lemma_grouped_push(pre, ks, x, kk);
            assert(pre.push(x) =~= xs.take(it.index() + 1));
            ks = ks.push(kk);
            assert(groups@.map_values(|b: Vec<T>| b@) =~= grouped(xs.take(it.index() + 1), ks));
        }
    }
    proof {
        assert(xs.take(xs.len() as int) =~= xs);
        assert(resolves(key_resolver, xs, ks));
    }
    groups
}

/// Fluent form of [`group_by`]: lets a sequence be grouped with
/// `items.group_by(f)`.
pub trait GroupByExt<T>: View<V = Seq<T>> + Sized {
    /// Groups the elements by a key derived from each one, mapping every key
    /// that appears to the bucket of elements that produced it, in input
    /// order.
    fn group_by<K: Eq + Hash, F: Fn(&T) -> K>(self, key_resolver: F) -> (r: HashMap<K, Vec<T>>)
        requires
            obeys_key_model::<K>(),
            forall|i: int| 0 <= i < self@.len() ==> key_resolver.requires((&self@[i],)),
        ensures
            exists|ks: Seq<K>|
                resolves(key_resolver, self@, ks) && r@.map_values(|b: Vec<T>| b@) == grouped(
                    self@,
                    ks,
                ),
    ;
}

impl<T> GroupByExt<T> for Vec<T> {
    fn group_by<K: Eq + Hash, F: Fn(&T) -> K>(self, key_resolver: F) -> (r: HashMap<K, Vec<T>>) {
        group_by(self, key_resolver)
    }
}

} // verus!
