//! The collection transformations, one module per operation.

pub mod chunk;
pub mod count_by;
pub mod group_by;
pub mod key_by;
pub mod remove;
pub mod resolve;
pub mod uniq;
