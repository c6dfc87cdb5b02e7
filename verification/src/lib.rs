//! General-purpose collection transformations: splitting a sequence into
//! fixed-size chunks, grouping/keying/counting elements by a derived key,
//! removing duplicates while preserving order, and partitioning elements by a
//! predicate.
//!
//! Every operation is a single pass over its input and is offered twice: as a
//! free function taking the sequence as its first argument, and as a fluent
//! method on `Vec` through an extension trait. Both forms share one verified
//! implementation and one contract.

pub mod array;

pub use array::chunk::{chunk, chunked, ChunkExt, Error};
pub use array::count_by::{count_by, count_matching, key_counts, values_total, CountByExt};
pub use array::group_by::{bucket, buckets_union, group_by, grouped, GroupByExt};
pub use array::key_by::{key_by, keyed, last_with, KeyByExt};
pub use array::remove::{remove, selected, RemoveExt};
pub use array::resolve::resolves;
pub use array::uniq::{deduped, first_index, uniq, UniqExt};
