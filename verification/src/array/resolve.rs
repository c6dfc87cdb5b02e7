//! The shared model of key resolvers and predicates.
//!
//! A resolver is an arbitrary executable closure, so all that is known of it
//! is the relation between its arguments and its possible results. A run of
//! an operation applies the resolver once to each element; `resolves` says
//! that a given sequence of keys is one that such a run can have produced.

use vstd::prelude::*;

verus! {

/// `ks` holds one output of `f` per element of `xs`: `ks[i]` is a possible
/// result of applying `f` to `xs[i]`.
pub open spec fn resolves<T, K, F: Fn(&T) -> K>(f: F, xs: Seq<T>, ks: Seq<K>) -> bool {
    &&& ks.len() == xs.len()
    &&& forall|i: int| 0 <= i < xs.len() ==> f.ensures((&xs[i],), ks[i])
}

} // verus!
