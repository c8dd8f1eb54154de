//! Display coordinates: row/column points and the spans between them.
//!
//! Rows and columns are purely a display projection of the rendered
//! content; they never take part in CRDT identity, which lives in the
//! positions alone.

use vstd::prelude::*;

verus! {

/// A row/column coordinate in the rendered document.
#[derive(Clone, Copy, Debug, PartialEq, Eq, Structural)]
pub struct Point {
    pub row: usize,
    pub column: usize,
}

impl Point {
    pub fn new(row: usize, column: usize) -> (r: Self)
        ensures
            r.row == row,
            r.column == column,
    {
        Point { row, column }
    }

    /// Componentwise translation by a row and column delta.
    pub fn translate(self, rhs: (usize, usize)) -> (r: Self)
        requires
            self.row + rhs.0 <= usize::MAX,
            self.column + rhs.1 <= usize::MAX,
        ensures
            r.row == self.row + rhs.0,
            r.column == self.column + rhs.1,
    {
        Point { row: self.row + rhs.0, column: self.column + rhs.1 }
    }
}

/// A span of the rendered document between two points.
#[derive(Clone, Copy, Debug, PartialEq, Eq, Structural)]
pub struct Range {
    pub start: Point,
    pub end: Point,
}

impl Range {
    pub fn new(start: (usize, usize), end: (usize, usize)) -> (r: Self)
        ensures
            r.start.row == start.0,
            r.start.column == start.1,
            r.end.row == end.0,
            r.end.column == end.1,
    {
        Range { start: Point::new(start.0, start.1), end: Point::new(end.0, end.1) }
    }

    /// Pushes the start of the span right by a number of columns.
    pub fn shift_start(self, columns: usize) -> (r: Self)
        requires
            self.start.column + columns <= usize::MAX,
        ensures
            r.start.row == self.start.row,
            r.start.column == self.start.column + columns,
            r.end == self.end,
    {
        Range { start: self.start.translate((0, columns)), end: self.end }
    }
}

} // verus!
