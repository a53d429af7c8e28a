//! The per-snapshot columns of the forest, held in `ndarray` arrays.
//!
//! Nothing here is proved: each function states what the `ndarray` call in
//! its body does to the elements of a one-dimensional array.

use vstd::prelude::*;

verus! {

/// One snapshot's column of halo identifiers.
#[verifier::external_body]
#[derive(Debug)]
pub struct IdColumn {
    cells: ndarray::Array1<u64>,
}

/// One snapshot's column of halo types.
#[verifier::external_body]
#[derive(Debug)]
pub struct TypeColumn {
    cells: ndarray::Array1<i8>,
}

/// The identifiers that a column holds, in index order.
pub uninterp spec fn column_ids(c: IdColumn) -> Seq<u64>;

/// The types that a column holds, in index order.
pub uninterp spec fn column_types(c: TypeColumn) -> Seq<i8>;

impl View for IdColumn {
    type V = Seq<u64>;

    open spec fn view(&self) -> Seq<u64> {
        column_ids(*self)
    }
}

impl View for TypeColumn {
    type V = Seq<i8>;

    open spec fn view(&self) -> Seq<i8> {
        column_types(*self)
    }
}

/// `Array1::from_vec`: the array takes over the vector's buffer, so it
/// holds the vector's elements in the vector's order.
#[verifier::external_body]
pub(crate) fn ids_from_vec(v: Vec<u64>) -> (c: IdColumn)
    ensures
        column_ids(c) == v@,
{
    IdColumn { cells: ndarray::Array1::from_vec(v) }
}

/// `ArrayBase::len`: the number of elements of the array.
#[verifier::external_body]
pub(crate) fn ids_len(c: &IdColumn) -> (n: usize)
    ensures
        n == column_ids(*c).len(),
{
    c.cells.len()
}

/// `Index<usize>` on a one-dimensional array: the element at `i`. The
/// call panics out of bounds, which the precondition rules out.
#[verifier::external_body]
pub(crate) fn ids_get(c: &IdColumn, i: usize) -> (v: u64)
    requires
        i < column_ids(*c).len(),
    ensures
        v == column_ids(*c)[i as int],
{
    c.cells[i]
}

/// `IndexMut<usize>` on a one-dimensional array: the element at `i` is
/// replaced and every other element stays. The call panics out of bounds,
/// which the precondition rules out.
#[verifier::external_body]
pub(crate) fn ids_set(c: &mut IdColumn, i: usize, v: u64)
    requires
        i < column_ids(*old(c)).len(),
    ensures
        column_ids(*final(c)) == column_ids(*old(c)).update(i as int, v),
{
    c.cells[i] = v;
}

/// `Array1::from_vec`, for a column of types.
#[verifier::external_body]
pub(crate) fn types_from_vec(v: Vec<i8>) -> (c: TypeColumn)
    ensures
        column_types(c) == v@,
{
    TypeColumn { cells: ndarray::Array1::from_vec(v) }
}

/// `ArrayBase::len`, for a column of types.
#[verifier::external_body]
pub(crate) fn types_len(c: &TypeColumn) -> (n: usize)
    ensures
        n == column_types(*c).len(),
{
    c.cells.len()
}

/// `Index<usize>`, for a column of types. The call panics out of bounds,
/// which the precondition rules out.
#[verifier::external_body]
pub(crate) fn types_get(c: &TypeColumn, i: usize) -> (v: i8)
    requires
        i < column_types(*c).len(),
    ensures
        v == column_types(*c)[i as int],
{
    c.cells[i]
}

} // verus!
