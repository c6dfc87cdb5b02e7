//! Partitioning elements into kept and removed halves via a predicate.

use vstd::prelude::*;

use crate::array::resolve::resolves;

verus! {

/// The elements of `xs` whose verdict — the entry of `ps` at the same
/// position — equals `wanted`, in their original relative order.
pub open spec fn selected<T>(xs: Seq<T>, ps: Seq<bool>, wanted: bool) -> Seq<T>
    recommends
        ps.len() == xs.len(),
    decreases xs.len(),
{
    if xs.len() == 0 {
        Seq::empty()
    } else {
        let rest = selected(xs.drop_last(), ps.drop_last(), wanted);
        if ps.last() == wanted {
            rest.push(xs.last())
        } else {
            rest
        }
    }
}

/// A partition loses nothing: the elements selected by a verdict sequence
/// and those rejected by it together number exactly the input's length.
pub proof fn lemma_selected_partition<T>(xs: Seq<T>, ps: Seq<bool>)
    requires
        ps.len() == xs.len(),
    ensures
        selected(xs, ps, false).len() + selected(xs, ps, true).len() == xs.len(),
    decreases xs.len(),
{
    if xs.len() > 0 {
        lemma_selected_partition(xs.drop_last(), ps.drop_last());
    }
}

/// Splits `items` into kept and removed halves: a single pass that evaluates
/// the predicate once per element, keeping the elements it rejects and
/// removing the elements it accepts, both halves in input order.
pub fn remove<T, F: Fn(&T) -> bool>(items: Vec<T>, should_remove_element: F) -> (r: (Vec<T>, Vec<
    T,
>))
    requires
        forall|i: int| 0 <= i < items@.len() ==> should_remove_element.requires((&items@[i],)),
    ensures
        exists|ps: Seq<bool>|
            resolves(should_remove_element, items@, ps) && r.0@ == selected(items@, ps, false)
                && r.1@ == selected(items@, ps, true),
{
    let ghost xs = items@;
    let mut kept: Vec<T> = Vec::new();
    let mut removed: Vec<T> = Vec::new();
    let ghost mut ps: Seq<bool> = Seq::empty();
    for item in it: items.into_iter()
        invariant
            it.seq() == xs,
            forall|i: int|
                0 <= i < xs.len() ==> should_remove_element.requires((&xs[i],)),
            ps.len() == it.index(),
            forall|i: int|
                0 <= i < ps.len() ==> should_remove_element.ensures((&xs[i],), ps[i]),
            kept@ == selected(xs.take(it.index() as int), ps, false),
            removed@ == selected(xs.take(it.index() as int), ps, true),
    {
        let ghost pre = xs.take(it.index() as int);
        let ghost x = item;
        let verdict = should_remove_element(&item);
        if verdict {
            removed.push(item);
        } else {
            kept.push(item);
        }
        proof {
            let ps0 = ps;
            ps = ps.push(verdict);
            let now = xs.take(it.index() + 1);
            assert(now =~= pre.push(x));
            assert(now.drop_last() =~= pre);
            assert(ps.drop_last() =~= ps0);
        }
    }
    proof {
        assert(xs.take(xs.len() as int) =~= xs);
        assert(resolves(should_remove_element, xs, ps));
    }
    (kept, removed)
}

/// Fluent form of [`remove`]: lets a sequence be split with
/// `items.remove(p)`.
pub trait RemoveExt<T>: View<V = Seq<T>> + Sized {
    /// Splits the elements into kept and removed halves based on a
    /// predicate, returning `(kept, removed)`, both in input order.
    fn remove<F: Fn(&T) -> bool>(self, should_remove_element: F) -> (r: (Vec<T>, Vec<T>))
        requires
            forall|i: int| 0 <= i < self@.len() ==> should_remove_element.requires((&self@[i],)),
        ensures
            exists|ps: Seq<bool>|
                resolves(should_remove_element, self@, ps) && r.0@ == selected(self@, ps, false)
                    && r.1@ == selected(self@, ps, true),
    ;
}

impl<T> RemoveExt<T> for Vec<T> {
    fn remove<F: Fn(&T) -> bool>(self, should_remove_element: F) -> (r: (Vec<T>, Vec<T>)) {
        remove(self, should_remove_element)
    }
}

} // verus!
