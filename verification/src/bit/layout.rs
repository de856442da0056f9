//! Addresses in a square bit matrix that is laid out row after row: the cell in
//! row `from` and column `to` of a matrix of side `capacity` has the address
//! `capacity * from + to`.
use vstd::prelude::*;

verus! {

/// The address of a cell.
pub open spec fn cell(capacity: usize, from: usize, to: usize) -> int {
    capacity * from + to
}

/// The cells of a matrix have addresses below the square of its side.
pub proof fn lemma_cell_bound(capacity: usize, from: usize, to: usize)
    requires
        from < capacity,
        to < capacity,
    ensures
        0 <= capacity * from,
        capacity * from + capacity <= capacity * capacity,
        cell(capacity, from, to) < capacity * capacity,
{
    assert(capacity * from + capacity <= capacity * capacity && 0 <= capacity * from)
        by (nonlinear_arith)
        requires
            0 <= from < capacity,
    ;
}

/// Two cells with one address are one cell.
pub proof fn lemma_cell_unique(capacity: usize, from: usize, to: usize, from2: usize, to2: usize)
    requires
        to < capacity,
        to2 < capacity,
        cell(capacity, from, to) == cell(capacity, from2, to2),
    ensures
        from == from2,
        to == to2,
{
    assert(from == from2) by (nonlinear_arith)
        requires
            0 <= to < capacity,
            0 <= to2 < capacity,
            0 <= from,
            0 <= from2,
            capacity * from + to == capacity * from2 + to2,
    ;
    assert(capacity * from == capacity * from2);
}

} // verus!
