//! Shared identifier and error types.

use vstd::prelude::*;

verus! {

/// The single error kind of the storage layers: a recoverable,
/// human-readable message. Absence of a page is not an error; it is
/// reported structurally as `None`.
#[derive(Debug, PartialEq)]
pub struct StorageError(pub String);

/// Stable, sequential identifier of a page: the n-th page a pager
/// creates gets identifier n, assigned once and never recycled.
#[derive(Debug, PartialEq, Eq, Structural, Hash, Clone, Copy)]
pub struct PageId(pub usize);

/// Name of a table, used as a key in the record store's directories.
#[derive(Debug, Eq, Hash, Clone)]
pub struct TableName(pub String);

/// Name of a record field, used as a key inside a record.
#[derive(Debug, Eq, Hash, Clone)]
pub struct FieldName(pub String);

impl PartialEq for TableName {
    fn eq(&self, other: &TableName) -> bool {
        self.0 == other.0
    }
}

impl vstd::std_specs::cmp::PartialEqSpecImpl for TableName {
    open spec fn obeys_eq_spec() -> bool {
        true
    }

    open spec fn eq_spec(&self, other: &TableName) -> bool {
        self.0@ == other.0@
    }
}

impl PartialEq for FieldName {
    fn eq(&self, other: &FieldName) -> bool {
        self.0 == other.0
    }
}

impl vstd::std_specs::cmp::PartialEqSpecImpl for FieldName {
    open spec fn obeys_eq_spec() -> bool {
        true
    }

    open spec fn eq_spec(&self, other: &FieldName) -> bool {
        self.0@ == other.0@
    }
}

} // verus!
