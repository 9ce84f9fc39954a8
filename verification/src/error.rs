//! The errors that the table's operations report.
use vstd::prelude::*;

verus! {

/// A DOM exception raised by one of the table's operations.
#[derive(Clone, Copy, PartialEq, Eq, Structural, Debug)]
pub enum TableError {
    /// The node given would make the tree wrong: a section of another kind
    /// than the one the operation places.
    HierarchyRequest,
    /// The row index is out of range.
    IndexSize,
}

} // verus!
