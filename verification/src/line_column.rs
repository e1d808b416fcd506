//! Coordinates of a cell.
use vstd::prelude::*;
use vstd::std_specs::ops::AddSpecImpl;

verus! {

/// Position (line, column) of a cell. The top left cell of a grid is usually
/// `(0, 0)`, but nothing forbids negative lines or columns.
#[derive(Clone, Copy, Debug, PartialEq, Eq, Hash, Structural)]
pub struct LineColumn {
    pub line: i32,
    pub column: i32,
}

impl Default for LineColumn {
    /// The position `(0, 0)`.
    fn default() -> (r: Self)
        ensures
            r == (LineColumn { line: 0, column: 0 }),
    {
        LineColumn { line: 0, column: 0 }
    }
}

impl LineColumn {
    /// The position at `line` and `column`.
    #[must_use]
    pub fn new(line: i32, column: i32) -> (r: Self)
        ensures
            r == (LineColumn { line, column }),
    {
        LineColumn { line, column }
    }

    /// Component-wise minimum of two positions.
    pub open spec fn spec_min(self, other: LineColumn) -> LineColumn {
        LineColumn {
            line: if self.line <= other.line { self.line } else { other.line },
            column: if self.column <= other.column { self.column } else { other.column },
        }
    }

    /// Component-wise maximum of two positions.
    pub open spec fn spec_max(self, other: LineColumn) -> LineColumn {
        LineColumn {
            line: if self.line >= other.line { self.line } else { other.line },
            column: if self.column >= other.column { self.column } else { other.column },
        }
    }

    /// `self` lies in the box spanned by `low` and `high`, borders included.
    pub open spec fn within(self, low: LineColumn, high: LineColumn) -> bool {
        &&& low.line <= self.line <= high.line
        &&& low.column <= self.column <= high.column
    }

    /// The two positions touch by an edge or a corner.
    pub open spec fn touches(self, other: LineColumn) -> bool {
        &&& self != other
        &&& -1 <= self.line - other.line <= 1
        &&& -1 <= self.column - other.column <= 1
    }

    /// `self` moved by `d_line` lines and `d_column` columns, where that
    /// position can be written with `i32` components.
    pub open spec fn spec_shifted(self, d_line: int, d_column: int) -> Option<LineColumn> {
        let line = self.line + d_line;
        let column = self.column + d_column;
        if i32::MIN <= line <= i32::MAX && i32::MIN <= column <= i32::MAX {
            Some(LineColumn { line: line as i32, column: column as i32 })
        } else {
            None
        }
    }

    /// Lowers each component of `self` to that of `other` where `other` is smaller.
    pub fn min(&mut self, other: LineColumn)
        ensures
            *final(self) == old(self).spec_min(other),
    {
        if other.line < self.line {
            self.line = other.line;
        }
        if other.column < self.column {
            self.column = other.column;
        }
    }

    /// Raises each component of `self` to that of `other` where `other` is larger.
    pub fn max(&mut self, other: LineColumn)
        ensures
            *final(self) == old(self).spec_max(other),
    {
        if other.line > self.line {
            self.line = other.line;
        }
        if other.column > self.column {
            self.column = other.column;
        }
    }

    /// Translation that cannot overflow: `None` where the target has no `i32`
    /// coordinates, so no cell can be there.
    pub fn shifted(self, d_line: i32, d_column: i32) -> (r: Option<LineColumn>)
        ensures
            r == self.spec_shifted(d_line as int, d_column as int),
    {
        match (self.line.checked_add(d_line), self.column.checked_add(d_column)) {
            (Some(line), Some(column)) => Some(LineColumn { line, column }),
            _ => None,
        }
    }
}

impl core::ops::Add for LineColumn {
    type Output = LineColumn;

    /// Translation of `self` by the components of `other`.
    fn add(self, other: LineColumn) -> LineColumn {
        LineColumn { line: self.line + other.line, column: self.column + other.column }
    }
}

/// What `+` means for positions: the sum of the components, where both fit
/// in an `i32`.
impl AddSpecImpl for LineColumn {
    open spec fn obeys_add_spec() -> bool {
        true
    }

    open spec fn add_req(self, other: LineColumn) -> bool {
        &&& i32::MIN <= self.line + other.line <= i32::MAX
        &&& i32::MIN <= self.column + other.column <= i32::MAX
    }

    open spec fn add_spec(self, other: LineColumn) -> LineColumn {
        LineColumn {
            line: (self.line + other.line) as i32,
            column: (self.column + other.column) as i32,
        }
    }
}

} // verus!
