use vstd::prelude::*;

verus! {

/// A grid cell, identified by its row index and column index.
///
/// Two coordinates with equal row and column are the same vertex: equality
/// and hashing go by value.
#[derive(Clone, Copy, PartialEq, Eq, Structural, Hash, Debug)]
pub struct Coordinate {
    pub row: usize,
    pub col: usize,
}

impl Coordinate {
    pub fn new(row: usize, col: usize) -> (c: Coordinate)
        ensures
            c.row == row,
            c.col == col,
    {
        Coordinate { row, col }
    }
}

/// The absolute difference of two integers.
pub open spec fn abs_diff(a: int, b: int) -> int {
    if a >= b {
        a - b
    } else {
        b - a
    }
}

/// The Manhattan distance between two cells: |delta row| + |delta col|.
pub open spec fn manhattan(a: Coordinate, b: Coordinate) -> int {
    abs_diff(a.row as int, b.row as int) + abs_diff(a.col as int, b.col as int)
}

/// The Manhattan distance as an executable value.
///
/// The result is returned as `u128` so that sums of a distance and a path
/// cost fit without overflow for every pair of `usize` coordinates.
pub fn manhattan_dist(a: Coordinate, b: Coordinate) -> (d: u128)
    ensures
        d == manhattan(a, b),
{
    let dr: u128 = if a.row >= b.row {
        (a.row - b.row) as u128
    } else {
        (b.row - a.row) as u128
    };
    let dc: u128 = if a.col >= b.col {
        (a.col - b.col) as u128
    } else {
        (b.col - a.col) as u128
    };
    dr + dc
}

/// The Manhattan metric obeys the triangle inequality.
pub proof fn lemma_manhattan_triangle(a: Coordinate, b: Coordinate, c: Coordinate)
    ensures
        manhattan(a, c) <= manhattan(a, b) + manhattan(b, c),
{
}

} // verus!
