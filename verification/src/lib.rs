//! A paginated row store with a polymorphic, JSON-shaped payload column.
//!
//! The crate has two cooperating parts: a payload codec that round-trips a
//! statically typed payload through the store's semi-structured column
//! representation, and a pagination combinator that turns a filtered,
//! ordered query over a snapshot of rows into one page of rows together
//! with the total row count and the total page count.

use vstd::prelude::*;

pub mod errors;
pub mod laws;
pub mod pagination;
pub mod payload;
pub mod service;
pub mod store;
pub mod text;
pub mod tree;

verus! {

} // verus!
