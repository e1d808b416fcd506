//! The positions around a cell.
use crate::line_column::LineColumn;
use vstd::prelude::*;

verus! {

/// Offset of the `k`-th compass direction: north first, then clockwise.
pub open spec fn spec_direction(k: int) -> (int, int) {
    if k == 0 {
        (-1, 0)
    } else if k == 1 {
        (-1, 1)
    } else if k == 2 {
        (0, 1)
    } else if k == 3 {
        (1, 1)
    } else if k == 4 {
        (1, 0)
    } else if k == 5 {
        (1, -1)
    } else if k == 6 {
        (0, -1)
    } else {
        (-1, -1)
    }
}

/// The neighbour of `center` in direction `k`, where it lies in the box from
/// `low` to `high`.
pub open spec fn spec_neighbor(center: LineColumn, low: LineColumn, high: LineColumn, k: int) -> Option<
    LineColumn,
> {
    let line = center.line + spec_direction(k).0;
    let column = center.column + spec_direction(k).1;
    if low.line <= line <= high.line && low.column <= column <= high.column {
        Some(LineColumn { line: line as i32, column: column as i32 })
    } else {
        None
    }
}

/// The neighbours of `center` inside the box, for the directions from `k` on,
/// in direction order.
pub open spec fn spec_neighbors_from(
    center: LineColumn,
    low: LineColumn,
    high: LineColumn,
    k: int,
) -> Seq<LineColumn>
    decreases 8 - k,
{
    if k < 0 || k >= 8 {
        Seq::empty()
    } else {
        match spec_neighbor(center, low, high, k) {
            Some(n) => seq![n] + spec_neighbors_from(center, low, high, k + 1),
            None => spec_neighbors_from(center, low, high, k + 1),
        }
    }
}

/// All neighbours of `center` inside the box, in direction order.
pub open spec fn spec_neighbors(center: LineColumn, low: LineColumn, high: LineColumn) -> Seq<
    LineColumn,
> {
    spec_neighbors_from(center, low, high, 0)
}

/// A neighbour listed from direction `k` on is the neighbour in one of those
/// directions.
pub proof fn lemma_neighbors_from(
    center: LineColumn,
    low: LineColumn,
    high: LineColumn,
    k: int,
)
    requires
        0 <= k <= 8,
    ensures
        spec_neighbors_from(center, low, high, k).len() <= 8 - k,
        forall|p: LineColumn|
            spec_neighbors_from(center, low, high, k).contains(p) <==> exists|d: int|
                k <= d < 8 && spec_neighbor(center, low, high, d) == Some(p),
    decreases 8 - k,
{
    let here = spec_neighbors_from(center, low, high, k);
    if k < 8 {
        let rest = spec_neighbors_from(center, low, high, k + 1);
        lemma_neighbors_from(center, low, high, k + 1);
        assert forall|p: LineColumn|
            here.contains(p) <==> exists|d: int|
                k <= d < 8 && spec_neighbor(center, low, high, d) == Some(p) by {
            if here.contains(p) {
                let i = choose|i: int| 0 <= i < here.len() && here[i] == p;
                if spec_neighbor(center, low, high, k) is Some && i == 0 {
                    assert(spec_neighbor(center, low, high, k) == Some(p));
                } else {
                    if spec_neighbor(center, low, high, k) is Some {
                        assert(rest[i - 1] == p);
                    }
                    assert(rest.contains(p));
                    let d = choose|d: int|
                        k + 1 <= d < 8 && spec_neighbor(center, low, high, d) == Some(p);
                    assert(k <= d < 8 && spec_neighbor(center, low, high, d) == Some(p));
                }
            }
            if exists|d: int| k <= d < 8 && spec_neighbor(center, low, high, d) == Some(p) {
                let d = choose|d: int|
                    k <= d < 8 && spec_neighbor(center, low, high, d) == Some(p);
                if d == k {
                    assert(here[0] == p);
                } else {
                    assert(k + 1 <= d < 8 && spec_neighbor(center, low, high, d) == Some(p));
                    assert(rest.contains(p));
                    let i = choose|i: int| 0 <= i < rest.len() && rest[i] == p;
                    if spec_neighbor(center, low, high, k) is Some {
                        assert(here[i + 1] == p);
                    } else {
                        assert(here[i] == p);
                    }
                }
            }
        }
    }
}

/// The neighbours of a position are the positions of the box that touch it.
pub proof fn lemma_neighbors_touch(
    center: LineColumn,
    low: LineColumn,
    high: LineColumn,
    p: LineColumn,
)
    ensures
        spec_neighbors(center, low, high).contains(p) <==> center.touches(p) && p.within(
            low,
            high,
        ),
{
    lemma_neighbors_from(center, low, high, 0);
    if center.touches(p) && p.within(low, high) {
        let dl = p.line - center.line;
        let dc = p.column - center.column;
        let d: int = if dl == -1 && dc == 0 {
            0
        } else if dl == -1 && dc == 1 {
            1
        } else if dl == 0 && dc == 1 {
            2
        } else if dl == 1 && dc == 1 {
            3
        } else if dl == 1 && dc == 0 {
            4
        } else if dl == 1 && dc == -1 {
            5
        } else if dl == 0 && dc == -1 {
            6
        } else {
            7
        };
        assert(0 <= d < 8 && spec_neighbor(center, low, high, d) == Some(p));
    }
}

/// Walks over the neighbours of a cell: one position per compass direction,
/// north first and then clockwise, leaving out the directions that lead out of
/// the box given at construction.
#[derive(Debug)]
pub struct NeighboringLineColumns {
    line_column: LineColumn,
    min_line_column: LineColumn,
    max_line_column: LineColumn,
    next_direction: u8,
}

/// Offset of the `k`-th compass direction.
fn direction(k: u8) -> (d: (i32, i32))
    requires
        k < 8,
    ensures
        d.0 == spec_direction(k as int).0,
        d.1 == spec_direction(k as int).1,
{
    if k == 0 {
        (-1, 0)
    } else if k == 1 {
        (-1, 1)
    } else if k == 2 {
        (0, 1)
    } else if k == 3 {
        (1, 1)
    } else if k == 4 {
        (1, 0)
    } else if k == 5 {
        (1, -1)
    } else if k == 6 {
        (0, -1)
    } else {
        (-1, -1)
    }
}

impl View for NeighboringLineColumns {
    type V = Seq<LineColumn>;

    /// The positions still to come, in the order in which `next` gives them.
    closed spec fn view(&self) -> Seq<LineColumn> {
        spec_neighbors_from(
            self.line_column,
            self.min_line_column,
            self.max_line_column,
            self.next_direction as int,
        )
    }
}

impl NeighboringLineColumns {
    /// The next direction is one of the eight, or none is left.
    #[verifier::type_invariant]
    spec fn bounded(self) -> bool {
        self.next_direction <= 8
    }

    /// The walk around `line_column` in the box from `min_line_column` to
    /// `max_line_column`.
    pub fn new(line_column: LineColumn, min_line_column: LineColumn, max_line_column: LineColumn) -> (r:
        Self)
        ensures
            r@ == spec_neighbors(line_column, min_line_column, max_line_column),
    {
        NeighboringLineColumns {
            line_column,
            min_line_column,
            max_line_column,
            next_direction: 0,
        }
    }

    /// The next neighbour, or `None` once all directions have been seen.
    pub fn next(&mut self) -> (r: Option<LineColumn>)
        ensures
            match r {
                Some(p) => old(self)@.len() > 0 && p == old(self)@[0] && final(self)@ == old(
                    self,
                )@.skip(1),
                None => old(self)@.len() == 0 && final(self)@.len() == 0,
            },
    {
        proof {
            use_type_invariant(&*self);
        }
        while self.next_direction < 8
            invariant
                self.next_direction <= 8,
                self@ == old(self)@,
            decreases 8 - self.next_direction,
        {
            let d = direction(self.next_direction);
            let line = self.line_column.line as i64 + d.0 as i64;
            let column = self.line_column.column as i64 + d.1 as i64;
            self.next_direction += 1;
            if line >= self.min_line_column.line as i64 && line <= self.max_line_column.line as i64
                && column >= self.min_line_column.column as i64 && column
                <= self.max_line_column.column as i64 {
                let p = LineColumn::new(line as i32, column as i32);
                proof {
                    assert(old(self)@ =~= seq![p] + self@);
                    assert(self@ =~= old(self)@.skip(1));
                }
                return Some(p);
            }
        }
        None
    }

    /// All the neighbours that are still to come.
    pub fn collect(self) -> (v: Vec<LineColumn>)
        ensures
            v@ == self@,
    {
        let mut rest = self;
        let mut found: Vec<LineColumn> = Vec::new();
        proof {
            use_type_invariant(&rest);
            lemma_neighbors_from(
                rest.line_column,
                rest.min_line_column,
                rest.max_line_column,
                rest.next_direction as int,
            );
        }
        loop
            invariant
                self@ == found@ + rest@,
            ensures
                found@ == self@,
            decreases rest@.len(),
        {
            match rest.next() {
                Some(p) => {
                    found.push(p);
                },
                None => {
                    break ;
                },
            }
        }
        found
    }
}

} // verus!
