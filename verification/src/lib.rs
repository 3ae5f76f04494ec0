//! An archetypal column store: records are generation-tagged handles, and
//! each field type lives in its own contiguous column, guarded by a
//! many-readers-xor-one-writer borrow counter.

pub mod borrow;
pub mod descriptor;
pub mod records;
pub mod column;
pub mod type_map;
pub mod database;
pub mod object;
pub mod define;

use vstd::prelude::*;

verus! {

/// The error kinds reported by the fallible operations of the store.
#[derive(Clone, Copy, Debug, PartialEq, Eq, Structural)]
pub enum StoreError {
    /// The record handle is stale: its generation no longer matches, or the
    /// record is not materialized.
    NoSuchRecord,
    /// The record has no field of the requested type.
    MissingField,
    /// The record already has a field of the requested type.
    DuplicateField,
    /// The column's borrow counter refused the acquisition.
    BorrowConflict,
}

} // verus!
