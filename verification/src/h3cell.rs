//! The consumed operations of the hexagonal hierarchical cell index.
//!
//! A cell is carried as its 64-bit numeric form, the form staging stores.
//! Validity, resolution, parent and children are pure functions of that
//! number; the library names them and relies on the h3o crate to compute
//! them.

use vstd::prelude::*;

verus! {

/// The h3o cell index type, declared so signatures can carry it.
#[verifier::external_type_specification]
#[verifier::external_body]
pub struct ExCellIndex(h3o::CellIndex);

/// Whether a 64-bit number is a valid cell index.
pub uninterp spec fn cell_valid(c: u64) -> bool;

/// The resolution (0 to 15) of a valid cell.
pub uninterp spec fn resolution_of(c: u64) -> u8;

/// The parent of a valid cell at a coarser resolution.
pub uninterp spec fn parent_of(c: u64, r: u8) -> u64;

/// The children of a valid cell at the next finer resolution.
pub uninterp spec fn children_of(c: u64) -> Seq<u64>;

/// Relies on `u64::from(h3o::CellIndex)`: a cell index converts to its
/// numeric form, and that number converts back (`CellIndex::try_from`
/// accepts it).
#[verifier::external_body]
pub fn cell_index_to_num(c: h3o::CellIndex) -> (r: u64)
    ensures
        cell_valid(r),
{
    c.into()
}

/// Relies on `h3o::CellIndex::try_from(u64)`: it succeeds exactly on
/// valid cell index numbers.
#[verifier::external_body]
pub(crate) fn cell_is_valid(c: u64) -> (r: bool)
    ensures
        r == cell_valid(c),
{
    h3o::CellIndex::try_from(c).is_ok()
}

/// Relies on `h3o::CellIndex::resolution`: the resolution of a cell, in
/// 0 to 15.
#[verifier::external_body]
pub(crate) fn cell_resolution(c: u64) -> (r: u8)
    requires
        cell_valid(c),
    ensures
        r == resolution_of(c),
        r <= 15,
{
    let cell = h3o::CellIndex::try_from(c).expect("caller guarantees a valid cell");
    cell.resolution().into()
}

/// Relies on `h3o::CellIndex::parent`: defined whenever the requested
/// resolution is at most the cell's own, and the parent is a valid cell
/// at that resolution.
#[verifier::external_body]
pub(crate) fn cell_parent(c: u64, r: u8) -> (p: u64)
    requires
        cell_valid(c),
        r <= resolution_of(c),
    ensures
        p == parent_of(c, r),
        cell_valid(p),
        resolution_of(p) == r,
{
    let cell = h3o::CellIndex::try_from(c).expect("caller guarantees a valid cell");
    let res = h3o::Resolution::try_from(r).expect("resolution is at most 15");
    cell.parent(res).expect("coarser than the cell's own resolution").into()
}

/// Relies on `h3o::CellIndex::children` at the next finer resolution:
/// at most seven distinct valid cells (six for a pentagon), each one
/// resolution finer and with the given cell as parent.
#[verifier::external_body]
pub(crate) fn cell_children_next(c: u64) -> (r: Vec<u64>)
    requires
        cell_valid(c),
        resolution_of(c) < 15,
    ensures
        r@ == children_of(c),
        r@.len() <= 7,
        forall|i: int|
            0 <= i < r@.len() ==> cell_valid(#[trigger] r@[i]) && resolution_of(r@[i])
                == resolution_of(c) + 1 && parent_of(r@[i], resolution_of(c)) == c,
        forall|i: int, j: int| 0 <= i < j < r@.len() ==> r@[i] != r@[j],
{
    let cell = h3o::CellIndex::try_from(c).expect("caller guarantees a valid cell");
    let next = cell.resolution().succ().expect("caller guarantees a finer resolution exists");
    cell.children(next).map(|ch| ch.into()).collect()
}

} // verus!
