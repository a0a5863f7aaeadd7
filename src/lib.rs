//! Storage-engine foundation: a typed self-describing data page, a write-ahead
//! log page with backward iteration, a log manager and a pinning buffer pool.
//! Block I/O is left to the caller: the managers say which block to read or
//! write and take back what was read.
use std::borrow::Cow;
use vstd::prelude::*;

pub mod block_id;
pub mod buffer;
pub mod buffer_manager;
pub mod codec;
pub mod data_page;
pub mod field_types;
pub mod log_iterator;
pub mod log_manager;
pub mod log_page;
pub mod starting_offsets;

verus! {

/// The reference a borrowed `Cow` holds.
pub fn assert_borrowed_type<'a, T: ?Sized + ToOwned>(value: Cow<'a, T>) -> (r: &'a T)
    requires
        value matches Cow::Borrowed(_),
    ensures
        value matches Cow::Borrowed(reference) && r == reference,
{
    match value {
        Cow::Borrowed(reference) => reference,
        Cow::Owned(_) => vstd::pervasive::unreached(),
    }
}

} // verus!
