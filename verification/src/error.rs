//! The failures that tree processing reports.

use vstd::prelude::*;

verus! {

/// Why an operation on a tree was abandoned.
#[derive(Debug, Clone, Copy, PartialEq, Eq, Structural)]
pub enum TreeError {
    /// An identifier does not address a halo: its index part is zero, or
    /// the pair it stands for cannot be represented.
    InvalidIdentifier,
    /// The forest breaks the sibling-list or depth invariants: a sibling
    /// list did not close within the iteration cap, the recursion went
    /// deeper than there are snapshots, or the column counter ran out.
    CorruptForestError,
    /// Columns or cells do not fit the shape they are put into: the
    /// columns of a snapshot differ in length, a cell lies outside its
    /// raster, two cells fall on one place, or there is not one value
    /// for each cell.
    ArrayShapeMismatch,
}

} // verus!
