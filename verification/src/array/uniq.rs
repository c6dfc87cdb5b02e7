//! Removing duplicate elements while preserving first-occurrence order.

use core::hash::Hash;
use std::collections::HashSet;

use vstd::prelude::*;
use vstd::std_specs::hash::obeys_key_model;

verus! {

broadcast use vstd::std_specs::hash::group_hash_axioms;

/// `xs` with every repeated element removed: each distinct element is kept
/// exactly once, at the position of its first occurrence.
pub open spec fn deduped<T>(xs: Seq<T>) -> Seq<T>
    decreases xs.len(),
{
    if xs.len() == 0 {
        Seq::empty()
    } else {
        let rest = deduped(xs.drop_last());
        if xs.drop_last().contains(xs.last()) {
            rest
        } else {
            rest.push(xs.last())
        }
    }
}

/// The position of the first entry of `xs` equal to `x`.
pub open spec fn first_index<T>(xs: Seq<T>, x: T) -> int
    recommends
        xs.contains(x),
    decreases xs.len(),
{
    if xs.len() == 0 {
        0
    } else if xs.drop_last().contains(x) {
        first_index(xs.drop_last(), x)
    } else {
        xs.len() - 1
    }
}

/// `first_index` finds the first occurrence: the sequence holds `x` there
/// and nowhere earlier.
pub proof fn lemma_first_index_ensures<T>(xs: Seq<T>, x: T)
    requires
        xs.contains(x),
    ensures
        0 <= first_index(xs, x) < xs.len(),
        xs[first_index(xs, x)] == x,
        forall|j: int| 0 <= j < first_index(xs, x) ==> xs[j] != x,
    decreases xs.len(),
{
    let init = xs.drop_last();
    if init.contains(x) {
        lemma_first_index_ensures(init, x);
        assert(forall|j: int| 0 <= j < init.len() ==> xs[j] == init[j]);
    } else {
        assert(xs.last() == x) by {
            let ix = choose|ix: int| 0 <= ix < xs.len() && xs[ix] == x;
            if ix < xs.len() - 1 {
                assert(init[ix] == x);
            }
        }
        assert(forall|j: int| 0 <= j < xs.len() - 1 ==> xs[j] == init[j] && xs[j] != x);
    }
}

/// A deduplicated sequence has no duplicate elements, and holds exactly the
/// elements of the sequence it came from.
pub proof fn lemma_deduped_distinct<T>(xs: Seq<T>)
    ensures
        deduped(xs).no_duplicates(),
        forall|x: T| deduped(xs).contains(x) <==> xs.contains(x),
    decreases xs.len(),
{
    broadcast use vstd::seq_lib::lemma_seq_contains_after_push;

    if xs.len() > 0 {
        let init = xs.drop_last();
        let x = xs.last();
        lemma_deduped_distinct(init);
        assert(init.push(x) =~= xs);
        if init.contains(x) {
            assert(deduped(xs) == deduped(init));
        } else {
            let d0 = deduped(init);
            let d1 = d0.push(x);
            assert(deduped(xs) == d1);
            assert(!d0.contains(x));
            assert forall|i: int, j: int|
                0 <= i < d1.len() && 0 <= j < d1.len() && i != j implies d1[i] != d1[j] by {
                if i < d0.len() && j < d0.len() {
                } else if j == d0.len() {
                    assert(d0.contains(d0[i]));
                } else {
                    assert(d0.contains(d0[j]));
                }
            }
        }
    }
}

/// Deduplicating a sequence that already has no duplicates changes nothing.
proof fn lemma_deduped_of_distinct<T>(s: Seq<T>)
    requires
        s.no_duplicates(),
    ensures
        deduped(s) == s,
    decreases s.len(),
{
    if s.len() > 0 {
        let init = s.drop_last();
        assert(!init.contains(s.last())) by {
            if init.contains(s.last()) {
                let ix = choose|ix: int| 0 <= ix < init.len() && init[ix] == s.last();
                assert(s[ix] == s[s.len() - 1]);
            }
        }
        lemma_deduped_of_distinct(init);
        assert(deduped(s) =~= s);
    }
}

/// Deduplication is idempotent: a second pass over an already deduplicated
/// sequence returns it unchanged.
pub proof fn lemma_deduped_idempotent<T>(xs: Seq<T>)
    ensures
        deduped(deduped(xs)) == deduped(xs),
{
    lemma_deduped_distinct(xs);
    lemma_deduped_of_distinct(deduped(xs));
}

/// The deduplicated sequence lists elements in first-occurrence order:
/// positions in `deduped(xs)` are ordered as the positions in `xs` where its
/// elements first occur.
pub proof fn lemma_deduped_first_occurrence_order<T>(xs: Seq<T>, i: int, j: int)
    requires
        0 <= i < j < deduped(xs).len(),
    ensures
        first_index(xs, deduped(xs)[i]) < first_index(xs, deduped(xs)[j]),
    decreases xs.len(),
{
    let init = xs.drop_last();
    let x = xs.last();
    let d = deduped(xs);
    lemma_deduped_distinct(init);
    if init.contains(x) {
        lemma_deduped_first_occurrence_order(init, i, j);
        assert(init.contains(d[i]) && init.contains(d[j]));
    } else {
        let d0 = deduped(init);
        if j < d0.len() {
            lemma_deduped_first_occurrence_order(init, i, j);
            assert(init.contains(d0[i]) && init.contains(d0[j]));
        } else {
            assert(d[j] == x);
            assert(d[i] == d0[i] && d0.contains(d0[i]));
            assert(init.contains(d[i]));
            assert(first_index(xs, d[j]) == xs.len() - 1);
            lemma_first_index_ensures(init, d[i]);
            assert(first_index(xs, d[i]) == first_index(init, d[i]) < init.len());
        }
    }
}

/// Removes duplicate elements from `items`: a single pass with a membership
/// set that keeps each distinct element exactly once, at the position of its
/// first occurrence. The element type must behave as a hash-table key
/// (`obeys_key_model`), and its `clone` must return its input unchanged,
/// since each kept element is held both by the tracking set and by the
/// output.
pub fn uniq<T: Eq + Hash + Clone>(items: Vec<T>) -> (r: Vec<T>)
    requires
        obeys_key_model::<T>(),
        forall|x: T, y: T| cloned::<T>(x, y) ==> x == y,
    ensures
        r@ == deduped(items@),
{
    let ghost xs = items@;
    let mut seen: HashSet<T> = HashSet::new();
    let mut out: Vec<T> = Vec::new();
    for item in it: items.into_iter()
        invariant
            obeys_key_model::<T>(),
            forall|x: T, y: T| cloned::<T>(x, y) ==> x == y,
            it.seq() == xs,
            seen@ == xs.take(it.index() as int).to_set(),
            out@ == deduped(xs.take(it.index() as int)),
    {
        let ghost pre = xs.take(it.index() as int);
        let copy = item.clone();
        proof {
            assert(cloned::<T>(item, copy));
        }
        if seen.insert(copy) {
            out.push(item);
        }
        proof {
            let now = xs.take(it.index() + 1);
            assert(now =~= pre.push(item));
            assert(now.drop_last() =~= pre);
            pre.lemma_push_to_set_commute(item);
            assert(seen@ =~= now.to_set());
        }
    }
    proof {
        assert(xs.take(xs.len() as int) =~= xs);
    }
    out
}

/// Fluent form of [`uniq`]: lets a sequence be deduplicated with
/// `items.uniq()`.
pub trait UniqExt<T: Eq + Hash + Clone>: View<V = Seq<T>> + Sized {
    /// Collects the distinct elements, preserving the order of first
    /// occurrence.
    fn uniq(self) -> (r: Vec<T>)
        requires
            obeys_key_model::<T>(),
            forall|x: T, y: T| cloned::<T>(x, y) ==> x == y,
        ensures
            r@ == deduped(self@),
    ;
}

impl<T: Eq + Hash + Clone> UniqExt<T> for Vec<T> {
    fn uniq(self) -> (r: Vec<T>) {
        uniq(self)
    }
}

} // verus!
