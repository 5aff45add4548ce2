//! A minimal single-table row store: a fixed-width binary schema, fixed-capacity
//! pages of serialized rows, and a table that serializes value lists into rows
//! and reads them back.

pub mod codec;
pub mod meta_parser;
pub mod page;
pub mod pager;
pub mod schema;
pub mod table;

use vstd::prelude::*;

verus! {

} // verus!
