//! The grid of a puzzle: its cells and the zones that partition them.
use crate::line_column::LineColumn;
use crate::search::{first, lemma_first, lemma_first_is, lemma_first_none, never};
use crate::simple_09_set::Simple09Set;
use vstd::prelude::*;

verus! {

/// A zone of the grid: the cells that share one letter. A zone of `n` cells
/// holds each digit of `1..=n` once when the puzzle is solved.
#[derive(Debug)]
pub struct Zone {
    pub c_zone: char,
    /// The positions of the member cells, each once, in the order in which
    /// they joined the zone.
    pub set_line_column: Vec<LineColumn>,
}

/// What a cell holds.
#[derive(Clone, Copy, Debug, PartialEq, Eq, Structural)]
pub enum CellContent {
    /// Nothing yet: the cell has not been looked at.
    Undefined,
    /// The digit of the cell.
    Number(u8),
    /// The digits that are still possible for the cell.
    PossibleNumbers(Simple09Set),
}

/// A cell of the grid.
#[derive(Clone, Copy, Debug, PartialEq, Eq, Structural)]
pub struct Cell {
    pub c_zone: char,
    pub line_column: LineColumn,
    pub content: CellContent,
}

/// A tectonic grid. Zones and cells are kept in the order in which they were
/// first named, which is the order in which every scan of the grid visits
/// them.
#[derive(Debug)]
pub struct Grid {
    /// Smallest line and smallest column seen so far, `(0, 0)` included.
    pub min_line_column: LineColumn,
    /// Largest line and largest column seen so far, `(0, 0)` included.
    pub max_line_column: LineColumn,
    pub zones: Vec<Zone>,
    pub cells: Vec<Cell>,
}

/// Mathematical value of a [`Zone`].
pub ghost struct ZoneView {
    pub c_zone: char,
    pub members: Seq<LineColumn>,
}

/// Mathematical value of a [`Grid`].
pub ghost struct GridView {
    pub low: LineColumn,
    pub high: LineColumn,
    pub zones: Seq<ZoneView>,
    pub cells: Seq<Cell>,
}

/// The values of a sequence of zones.
pub open spec fn zone_views(zones: Seq<Zone>) -> Seq<ZoneView> {
    Seq::new(zones.len(), |z: int| zones[z]@)
}

impl View for Zone {
    type V = ZoneView;

    open spec fn view(&self) -> ZoneView {
        ZoneView { c_zone: self.c_zone, members: self.set_line_column@ }
    }
}

impl View for Grid {
    type V = GridView;

    open spec fn view(&self) -> GridView {
        GridView {
            low: self.min_line_column,
            high: self.max_line_column,
            zones: zone_views(self.zones@),
            cells: self.cells@,
        }
    }
}

impl CellContent {
    /// The digits that the content still allows: any digit for a cell not yet
    /// looked at, the digit itself for a filled cell.
    pub open spec fn allows(self, digit: u8) -> bool {
        match self {
            CellContent::Undefined => digit <= 9,
            CellContent::Number(n) => digit == n,
            CellContent::PossibleNumbers(set) => set@.contains(digit),
        }
    }
}

impl GridView {
    /// Cell `i` lies at `position`.
    pub open spec fn cell_is_at(self, i: int, position: LineColumn) -> bool {
        0 <= i < self.cells.len() && self.cells[i].line_column == position
    }

    /// Zone `z` bears `letter`.
    pub open spec fn zone_is(self, z: int, letter: char) -> bool {
        0 <= z < self.zones.len() && self.zones[z].c_zone == letter
    }

    /// Index of the first cell at `position`.
    pub open spec fn cell_index(self, position: LineColumn) -> Option<int> {
        first(self.cells.len() as int, lies_at(self.cells, position))
    }

    /// Index of the first zone that bears `letter`.
    pub open spec fn zone_index(self, letter: char) -> Option<int> {
        first(self.zones.len() as int, bears(self.zones, letter))
    }

    /// The cell at `position`.
    pub open spec fn cell_at(self, position: LineColumn) -> Option<Cell> {
        match self.cell_index(position) {
            Some(i) => Some(self.cells[i]),
            None => None,
        }
    }

    /// Number of cells of the zone that bears `letter`; 0 where there is none.
    pub open spec fn zone_size(self, letter: char) -> nat {
        match self.zone_index(letter) {
            Some(z) => self.zones[z].members.len(),
            None => 0,
        }
    }

    /// No two cells share a position.
    pub open spec fn cells_distinct(self) -> bool {
        forall|i: int, j: int|
            0 <= i < j < self.cells.len() ==> self.cells[i].line_column
                != self.cells[j].line_column
    }

    /// No two zones share a letter, and no zone lists a position twice.
    pub open spec fn zones_distinct(self) -> bool {
        zones_are_distinct(self.zones)
    }

    /// Cell `i` is listed by zone `z`, the zone of its letter.
    pub open spec fn cell_in_zone(self, i: int, z: int) -> bool {
        &&& 0 <= i < self.cells.len()
        &&& self.zone_is(z, self.cells[i].c_zone)
        &&& self.zones[z].members.contains(self.cells[i].line_column)
    }

    /// Member `m` of zone `z` is the position of cell `i`, which bears the
    /// letter of the zone.
    pub open spec fn member_is_cell(self, z: int, m: int, i: int) -> bool {
        &&& 0 <= z < self.zones.len()
        &&& 0 <= m < self.zones[z].members.len()
        &&& self.cell_is_at(i, self.zones[z].members[m])
        &&& self.cells[i].c_zone == self.zones[z].c_zone
    }

    /// Some zone lists cell `i` and bears its letter.
    pub open spec fn cell_has_zone(self, i: int) -> bool {
        exists|z: int| self.cell_in_zone(i, z)
    }

    /// Some cell bears the letter of zone `z` and lies at its member `m`.
    pub open spec fn member_has_cell(self, z: int, m: int) -> bool {
        exists|i: int| self.member_is_cell(z, m, i)
    }

    /// The grid is sound: positions and letters are unique, every cell is a
    /// member of the zone of its letter and of no other, every member of a
    /// zone is a cell, and all cells lie in the box from `low` to `high`.
    pub open spec fn well_formed(self) -> bool {
        &&& self.cells_distinct()
        &&& self.zones_distinct()
        &&& forall|i: int| 0 <= i < self.cells.len() ==> #[trigger] self.cell_has_zone(i)
        &&& forall|z: int, m: int|
            0 <= z < self.zones.len() && 0 <= m < self.zones[z].members.len()
                ==> #[trigger] self.member_has_cell(z, m)
        &&& forall|i: int|
            0 <= i < self.cells.len() ==> (#[trigger] self.cells[i]).line_column.within(
                self.low,
                self.high,
            )
    }

    /// Every cell holds a digit or nothing: solving has not begun.
    pub open spec fn pristine(self) -> bool {
        forall|i: int|
            0 <= i < self.cells.len() ==> !((#[trigger] self.cells[i]).content is PossibleNumbers)
    }

    /// The grid with the content of cell `i` replaced.
    pub open spec fn with_content(self, i: int, content: CellContent) -> GridView {
        GridView {
            cells: self.cells.update(
                i,
                Cell {
                    c_zone: self.cells[i].c_zone,
                    line_column: self.cells[i].line_column,
                    content,
                },
            ),
            ..self
        }
    }

    /// In a grid whose cells have distinct positions, the index found for a
    /// position is the index of the cell there.
    pub proof fn lemma_cell_index(self, i: int, position: LineColumn)
        requires
            self.cells_distinct(),
            self.cell_is_at(i, position),
        ensures
            self.cell_index(position) == Some(i),
            self.cell_at(position) == Some(self.cells[i]),
    {
        let p = lies_at(self.cells, position);
        assert forall|j: int| 0 <= j < i implies !#[trigger] p(j) by {
            assert(self.cells[j].line_column != self.cells[i].line_column);
        }
        assert(p(i));
        lemma_first_is(i, self.cells.len() as int, p);
    }

    /// In a grid whose zones have distinct letters, the index found for a
    /// letter is the index of the zone that bears it.
    pub proof fn lemma_zone_index(self, z: int, letter: char)
        requires
            self.zones_distinct(),
            self.zone_is(z, letter),
        ensures
            self.zone_index(letter) == Some(z),
            self.zone_size(letter) == self.zones[z].members.len(),
    {
        let p = bears(self.zones, letter);
        assert forall|y: int| 0 <= y < z implies !#[trigger] p(y) by {
            assert(self.zones[y].c_zone != self.zones[z].c_zone);
        }
        assert(p(z));
        lemma_first_is(z, self.zones.len() as int, p);
    }
}

/// Index of the first occurrence of `position` among `members`.
pub open spec fn member_index(members: Seq<LineColumn>, position: LineColumn) -> Option<int> {
    first(members.len() as int, is_member(members, position))
}

/// The test for `position` at an index of `members`.
pub open spec fn is_member(members: Seq<LineColumn>, position: LineColumn) -> spec_fn(int) -> bool {
    |m: int| members[m] == position
}

/// The test for `letter` at an index of `zones`.
pub open spec fn bears(zones: Seq<ZoneView>, letter: char) -> spec_fn(int) -> bool {
    |z: int| zones[z].c_zone == letter
}

/// The test for `position` at an index of `cells`.
pub open spec fn lies_at(cells: Seq<Cell>, position: LineColumn) -> spec_fn(int) -> bool {
    |i: int| cells[i].line_column == position
}

/// The zones once the first zone that bears `letter` no longer lists
/// `position`.
pub open spec fn zones_left(zones: Seq<ZoneView>, letter: char, position: LineColumn) -> Seq<
    ZoneView,
> {
    match first(zones.len() as int, bears(zones, letter)) {
        Some(z) => match member_index(zones[z].members, position) {
            Some(m) => zones.update(
                z,
                ZoneView { c_zone: zones[z].c_zone, members: zones[z].members.remove(m) },
            ),
            None => zones,
        },
        None => zones,
    }
}

/// The zones once the zone that bears `letter` lists `position`: as its last
/// member where it did not list it yet, in a new last zone where no zone bore
/// the letter.
pub open spec fn zones_joined(zones: Seq<ZoneView>, letter: char, position: LineColumn) -> Seq<
    ZoneView,
> {
    match first(zones.len() as int, bears(zones, letter)) {
        Some(z) => match member_index(zones[z].members, position) {
            Some(m) => zones,
            None => zones.update(
                z,
                ZoneView { c_zone: zones[z].c_zone, members: zones[z].members.push(position) },
            ),
        },
        None => zones.push(ZoneView { c_zone: letter, members: seq![position] }),
    }
}

impl GridView {
    /// The grid after a cell was put at `position`, in the zone of `letter`,
    /// with `digit` or nothing in it. A cell that was there before is
    /// replaced and leaves the zone it was in.
    pub open spec fn with_cell(self, position: LineColumn, letter: char, digit: Option<u8>) -> GridView {
        let cell = Cell {
            c_zone: letter,
            line_column: position,
            content: match digit {
                Some(n) => CellContent::Number(n),
                None => CellContent::Undefined,
            },
        };
        let left = match self.cell_index(position) {
            Some(i) => if self.cells[i].c_zone != letter {
                zones_left(self.zones, self.cells[i].c_zone, position)
            } else {
                self.zones
            },
            None => self.zones,
        };
        GridView {
            low: self.low.spec_min(position),
            high: self.high.spec_max(position),
            zones: zones_joined(left, letter, position),
            cells: match self.cell_index(position) {
                Some(i) => self.cells.update(i, cell),
                None => self.cells.push(cell),
            },
        }
    }

    /// The grid after the first `n` entries of a line were put into it, the
    /// first at column 0.
    pub open spec fn with_line(self, line: i32, entries: Seq<(char, Option<u8>)>, n: nat) -> GridView
        decreases n,
    {
        if n == 0 {
            self
        } else {
            self.with_line(line, entries, (n - 1) as nat).with_cell(
                LineColumn { line, column: (n - 1) as i32 },
                entries[n - 1].0,
                entries[n - 1].1,
            )
        }
    }
}

/// The letters of the zones are pairwise distinct and no zone lists a
/// position twice.
pub open spec fn zones_are_distinct(zones: Seq<ZoneView>) -> bool {
    &&& forall|y: int, z: int|
        0 <= y < z < zones.len() ==> zones[y].c_zone != zones[z].c_zone
    &&& forall|z: int| 0 <= z < zones.len() ==> (#[trigger] zones[z]).members.no_duplicates()
}

/// What leaving a zone changes: the members of the zone that bears `letter`
/// but `position` stay, and so does every other zone.
pub proof fn lemma_zones_left(zones: Seq<ZoneView>, letter: char, position: LineColumn)
    requires
        zones_are_distinct(zones),
    ensures
        zones_are_distinct(zones_left(zones, letter, position)),
        zones_left(zones, letter, position).len() == zones.len(),
        forall|z: int|
            0 <= z < zones.len() ==> (#[trigger] zones_left(zones, letter, position)[z]).c_zone
                == zones[z].c_zone,
        forall|z: int|
            0 <= z < zones.len() && zones[z].c_zone != letter ==> #[trigger] zones_left(
                zones,
                letter,
                position,
            )[z] == zones[z],
        forall|z: int, p: LineColumn|
            0 <= z < zones.len() && zones[z].c_zone == letter ==> (#[trigger] zones_left(
                zones,
                letter,
                position,
            )[z].members.contains(p) <==> zones[z].members.contains(p) && p != position),
{
    let left = zones_left(zones, letter, position);
    lemma_first(zones.len() as int, bears(zones, letter));
    match first(zones.len() as int, bears(zones, letter)) {
        Some(y) => {
            let members = zones[y].members;
            lemma_first(members.len() as int, is_member(members, position));
            assert forall|z: int| 0 <= z < zones.len() && zones[z].c_zone == letter implies z
                == y by {
                if z < y {
                    assert(zones[z].c_zone != zones[y].c_zone);
                } else if y < z {
                    assert(zones[y].c_zone != zones[z].c_zone);
                }
            }
            match member_index(members, position) {
                Some(m) => {
                    let rest = members.remove(m);
                    assert(members.no_duplicates());
                    assert forall|p: LineColumn|
                        rest.contains(p) <==> members.contains(p) && p != position by {
                        if rest.contains(p) {
                            let j = choose|j: int| 0 <= j < rest.len() && rest[j] == p;
                            if j < m {
                                assert(members[j] == p);
                            } else {
                                assert(members[j + 1] == p);
                            }
                        }
                        if members.contains(p) && p != position {
                            let j = choose|j: int| 0 <= j < members.len() && members[j] == p;
                            if j < m {
                                assert(rest[j] == p);
                            } else {
                                assert(rest[j - 1] == p);
                            }
                        }
                    }
                    assert(rest.no_duplicates()) by {
                        assert forall|a: int, b: int|
                            0 <= a < rest.len() && 0 <= b < rest.len() && a != b implies rest[a]
                            != rest[b] by {
                            let a0 = if a < m {
                                a
                            } else {
                                a + 1
                            };
                            let b0 = if b < m {
                                b
                            } else {
                                b + 1
                            };
                            assert(members[a0] != members[b0]);
                        }
                    }
                    assert forall|z: int| 0 <= z < left.len() implies (
                    #[trigger] left[z]).members.no_duplicates() by {
                        if z != y {
                            assert(left[z] == zones[z]);
                        }
                    }
                },
                None => {
                    assert forall|p: LineColumn| members.contains(p) implies p != position by {
                        let j = choose|j: int| 0 <= j < members.len() && members[j] == p;
                        assert(!is_member(members, position)(j));
                    }
                },
            }
        },
        None => {
            assert forall|z: int| 0 <= z < zones.len() implies zones[z].c_zone != letter by {
                assert(!bears(zones, letter)(z));
            }
        },
    }
}

/// What joining a zone changes: the zone that bears `letter` lists
/// `position` besides its members, every other zone stays as it is, and a
/// zone with that one member is added where no zone bore the letter.
pub proof fn lemma_zones_joined(zones: Seq<ZoneView>, letter: char, position: LineColumn)
    requires
        zones_are_distinct(zones),
    ensures
        zones_are_distinct(zones_joined(zones, letter, position)),
        zones.len() <= zones_joined(zones, letter, position).len() <= zones.len() + 1,
        forall|z: int|
            0 <= z < zones.len() ==> (#[trigger] zones_joined(zones, letter, position)[z]).c_zone
                == zones[z].c_zone,
        forall|z: int|
            0 <= z < zones.len() && zones[z].c_zone != letter ==> #[trigger] zones_joined(
                zones,
                letter,
                position,
            )[z] == zones[z],
        forall|z: int, p: LineColumn|
            0 <= z < zones.len() && zones[z].c_zone == letter ==> (#[trigger] zones_joined(
                zones,
                letter,
                position,
            )[z].members.contains(p) <==> zones[z].members.contains(p) || p == position),
        zones_joined(zones, letter, position).len() == zones.len() + 1 ==> {
            &&& zones_joined(zones, letter, position)[zones.len() as int] == (ZoneView {
                c_zone: letter,
                members: seq![position],
            })
            &&& forall|z: int| 0 <= z < zones.len() ==> (#[trigger] zones[z]).c_zone != letter
        },
        zones_joined(zones, letter, position).len() == zones.len() ==> exists|z: int|
            0 <= z < zones.len() && (#[trigger] zones[z]).c_zone == letter,
{
    let joined = zones_joined(zones, letter, position);
    lemma_first(zones.len() as int, bears(zones, letter));
    match first(zones.len() as int, bears(zones, letter)) {
        Some(y) => {
            let members = zones[y].members;
            lemma_first(members.len() as int, is_member(members, position));
            assert(zones[y].c_zone == letter);
            assert forall|z: int| 0 <= z < zones.len() && zones[z].c_zone == letter implies z
                == y by {
                if z < y {
                    assert(zones[z].c_zone != zones[y].c_zone);
                } else if y < z {
                    assert(zones[y].c_zone != zones[z].c_zone);
                }
            }
            match member_index(members, position) {
                Some(m) => {
                    assert(members[m] == position);
                },
                None => {
                    let more = members.push(position);
                    assert(members.no_duplicates());
                    assert forall|j: int| 0 <= j < members.len() implies members[j]
                        != position by {
                        assert(!is_member(members, position)(j));
                    }
                    assert forall|p: LineColumn|
                        more.contains(p) <==> members.contains(p) || p == position by {
                        if more.contains(p) {
                            let j = choose|j: int| 0 <= j < more.len() && more[j] == p;
                            if j < members.len() {
                                assert(members[j] == p);
                            }
                        }
                        if members.contains(p) {
                            let j = choose|j: int| 0 <= j < members.len() && members[j] == p;
                            assert(more[j] == p);
                        }
                        if p == position {
                            assert(more[members.len() as int] == p);
                        }
                    }
                    assert(more.no_duplicates());
                    assert forall|z: int| 0 <= z < joined.len() implies (
                    #[trigger] joined[z]).members.no_duplicates() by {
                        if z != y {
                            assert(joined[z] == zones[z]);
                        }
                    }
                },
            }
        },
        None => {
            assert forall|z: int| 0 <= z < zones.len() implies (#[trigger] zones[z]).c_zone
                != letter by {
                assert(!bears(zones, letter)(z));
            }
            assert forall|z: int| 0 <= z < joined.len() implies (
            #[trigger] joined[z]).members.no_duplicates() by {
                if z < zones.len() {
                    assert(joined[z] == zones[z]);
                }
            }
        },
    }
}

impl GridView {
    /// Putting a cell into a sound grid leaves the grid sound.
    pub proof fn lemma_with_cell(self, position: LineColumn, letter: char, digit: Option<u8>)
        requires
            self.well_formed(),
        ensures
            self.with_cell(position, letter, digit).well_formed(),
    {
        let after = self.with_cell(position, letter, digit);
        let found = self.cell_index(position);
        lemma_first(self.cells.len() as int, lies_at(self.cells, position));
        let left = match found {
            Some(i) => if self.cells[i].c_zone != letter {
                zones_left(self.zones, self.cells[i].c_zone, position)
            } else {
                self.zones
            },
            None => self.zones,
        };
        lemma_zones_left(self.zones, letter, position);
        if found is Some {
            lemma_zones_left(self.zones, self.cells[found.unwrap()].c_zone, position);
        }
        lemma_zones_joined(left, letter, position);
        assert(after.zones == zones_joined(left, letter, position));
        assert(left.len() == self.zones.len());
        // The index of the cell that `after` has at `position`.
        let at: int = match found {
            Some(i) => i,
            None => self.cells.len() as int,
        };
        assert(after.cells[at].line_column == position && after.cells[at].c_zone == letter);
        assert forall|k: int| 0 <= k < self.cells.len() && k != at implies self.cells[k].line_column
            != position && after.cells[k] == self.cells[k] by {
            if found is Some {
                if k < at {
                    assert(self.cells[k].line_column != self.cells[at].line_column);
                } else {
                    assert(self.cells[at].line_column != self.cells[k].line_column);
                }
            } else {
                assert(!lies_at(self.cells, position)(k));
            }
        }
        assert(after.cells_distinct()) by {
            assert forall|i: int, j: int| 0 <= i < j < after.cells.len() implies after.cells[i].line_column
                != after.cells[j].line_column by {
                if i != at && j != at {
                    assert(self.cells[i].line_column != self.cells[j].line_column);
                }
            }
        }
        // No zone but that of the replaced cell lists `position`.
        assert forall|z: int, m: int|
            0 <= z < self.zones.len() && 0 <= m < self.zones[z].members.len()
                && self.zones[z].members[m] == position implies found is Some
            && self.zones[z].c_zone == self.cells[at].c_zone by {
            assert(self.member_has_cell(z, m));
            let i = choose|i: int| self.member_is_cell(z, m, i);
            if found is Some {
                if i != at {
                    assert(self.cells[i].line_column != position);
                }
            } else {
                assert(!lies_at(self.cells, position)(i));
            }
        }
        // Membership in the zones of `left`, by position.
        assert forall|z: int, p: LineColumn| 0 <= z < left.len() implies (left[z].members.contains(p)
            <==> self.zones[z].members.contains(p) && !(p == position && self.zones[z].c_zone
            != letter)) by {
            if self.zones[z].members.contains(p) && p == position {
                let m = choose|m: int|
                    0 <= m < self.zones[z].members.len() && self.zones[z].members[m] == p;
                assert(self.zones[z].c_zone == self.cells[at].c_zone);
            }
            if found is Some && self.cells[at].c_zone != letter {
                if self.zones[z].c_zone == self.cells[at].c_zone {
                    assert(left[z].members.contains(p) <==> self.zones[z].members.contains(p) && p
                        != position);
                } else {
                    assert(left[z] == self.zones[z]);
                }
            }
        }
        assert forall|i: int| 0 <= i < after.cells.len() implies #[trigger] after.cell_has_zone(
            i,
        ) by {
            if i == at {
                if after.zones.len() == left.len() + 1 {
                    let z = left.len() as int;
                    assert(after.zones[z].members[0] == position);
                    assert(after.cell_in_zone(i, z));
                } else {
                    let z = choose|z: int| 0 <= z < left.len() && (#[trigger] left[z]).c_zone == letter;
                    assert(after.zones[z].members.contains(position));
                    assert(after.cell_in_zone(i, z));
                }
            } else {
                assert(self.cell_has_zone(i));
                let z = choose|z: int| self.cell_in_zone(i, z);
                let p = self.cells[i].line_column;
                assert(left[z].members.contains(p));
                if left[z].c_zone == letter {
                    assert(after.zones[z].members.contains(p));
                } else {
                    assert(after.zones[z] == left[z]);
                }
                assert(after.cell_in_zone(i, z));
            }
        }
        assert forall|z: int, m: int|
            0 <= z < after.zones.len() && 0 <= m < after.zones[z].members.len()
            implies #[trigger] after.member_has_cell(z, m) by {
            let p = after.zones[z].members[m];
            assert(after.zones[z].members.contains(p));
            if z == left.len() {
                assert(p == position);
                assert(after.member_is_cell(z, m, at));
            } else if p == position {
                if left[z].c_zone != letter {
                    assert(after.zones[z] == left[z]);
                    assert(left[z].members.contains(p));
                    assert(false);
                }
                assert(after.member_is_cell(z, m, at));
            } else {
                if left[z].c_zone != letter {
                    assert(after.zones[z] == left[z]);
                }
                assert(left[z].members.contains(p));
                assert(self.zones[z].members.contains(p));
                let m0 = choose|m0: int|
                    0 <= m0 < self.zones[z].members.len() && self.zones[z].members[m0] == p;
                assert(self.member_has_cell(z, m0));
                let i = choose|i: int| self.member_is_cell(z, m0, i);
                assert(i != at);
                assert(after.member_is_cell(z, m, i));
            }
        }
        assert forall|i: int| 0 <= i < after.cells.len() implies (
        #[trigger] after.cells[i]).line_column.within(after.low, after.high) by {
            if i != at {
                assert(self.cells[i].line_column.within(self.low, self.high));
            }
        }
    }

    /// Putting a cell into a grid on which solving has not begun leaves it
    /// such a grid.
    pub proof fn lemma_with_cell_pristine(
        self,
        position: LineColumn,
        letter: char,
        digit: Option<u8>,
    )
        requires
            self.pristine(),
        ensures
            self.with_cell(position, letter, digit).pristine(),
    {
        let after = self.with_cell(position, letter, digit);
        lemma_first(self.cells.len() as int, lies_at(self.cells, position));
        assert forall|i: int| 0 <= i < after.cells.len() implies !((
        #[trigger] after.cells[i]).content is PossibleNumbers) by {
            if i < self.cells.len() && self.cell_index(position) != Some(i) {
                assert(after.cells[i] == self.cells[i]);
            }
        }
    }
}

/// Index of the first occurrence of `position` among `members`.
fn member_position(members: &Vec<LineColumn>, position: LineColumn) -> (r: Option<usize>)
    ensures
        match r {
            Some(m) => member_index(members@, position) == Some(m as int) && m < members.len()
                && members[m as int] == position,
            None => member_index(members@, position) is None && !members@.contains(position),
        },
{
    let ghost p = is_member(members@, position);
    let mut m: usize = 0;
    while m < members.len()
        invariant
            m <= members.len(),
            never(m as int, p),
            p == is_member(members@, position),
        decreases members.len() - m,
    {
        if members[m] == position {
            proof {
                assert(p(m as int));
                lemma_first_is(m as int, members.len() as int, p);
            }
            return Some(m);
        }
        assert(!p(m as int));
        m += 1;
    }
    proof {
        lemma_first_none(members.len() as int, p);
        if members@.contains(position) {
            let k = choose|k: int| 0 <= k < members@.len() && members@[k] == position;
            assert(!p(k));
        }
    }
    None
}

impl Default for CellContent {
    /// `Undefined`.
    fn default() -> (r: Self)
        ensures
            r == CellContent::Undefined,
    {
        CellContent::Undefined
    }
}

impl Default for Cell {
    /// A cell without content at `(0, 0)`, in the zone of the letter NUL.
    fn default() -> (r: Self)
        ensures
            r == (Cell {
                c_zone: '\0',
                line_column: LineColumn { line: 0, column: 0 },
                content: CellContent::Undefined,
            }),
    {
        Cell { c_zone: '\0', line_column: LineColumn::default(), content: CellContent::Undefined }
    }
}

impl Default for Zone {
    /// A zone of the letter NUL without members.
    fn default() -> (r: Self)
        ensures
            r@ == (ZoneView { c_zone: '\0', members: Seq::empty() }),
    {
        Zone { c_zone: '\0', set_line_column: Vec::new() }
    }
}

impl Clone for Zone {
    /// A zone with the same letter and the same members in the same order.
    fn clone(&self) -> (r: Self)
        ensures
            r@ == self@,
    {
        let mut members: Vec<LineColumn> = Vec::new();
        let mut m: usize = 0;
        while m < self.set_line_column.len()
            invariant
                m <= self.set_line_column.len(),
                members@ == self.set_line_column@.take(m as int),
            decreases self.set_line_column.len() - m,
        {
            members.push(self.set_line_column[m]);
            m += 1;
            assert(members@ =~= self.set_line_column@.take(m as int));
        }
        assert(members@ =~= self.set_line_column@);
        Zone { c_zone: self.c_zone, set_line_column: members }
    }
}

impl Clone for Grid {
    /// A grid of its own with the same zones and cells in the same order.
    fn clone(&self) -> (r: Self)
        ensures
            r@ == self@,
    {
        let mut zones: Vec<Zone> = Vec::new();
        let mut z: usize = 0;
        while z < self.zones.len()
            invariant
                z <= self.zones.len(),
                zones@.len() == z,
                forall|y: int| 0 <= y < z ==> (#[trigger] zones@[y])@ == self.zones@[y]@,
            decreases self.zones.len() - z,
        {
            zones.push(self.zones[z].clone());
            z += 1;
        }
        assert(zone_views(zones@) =~= zone_views(self.zones@));
        let mut cells: Vec<Cell> = Vec::new();
        let mut i: usize = 0;
        while i < self.cells.len()
            invariant
                i <= self.cells.len(),
                cells@ == self.cells@.take(i as int),
            decreases self.cells.len() - i,
        {
            cells.push(self.cells[i]);
            i += 1;
            assert(cells@ =~= self.cells@.take(i as int));
        }
        assert(cells@ =~= self.cells@);
        Grid {
            min_line_column: self.min_line_column,
            max_line_column: self.max_line_column,
            zones,
            cells,
        }
    }
}

impl Default for Grid {
    /// The grid without cells.
    fn default() -> (g: Self)
        ensures
            g@ == GridView::spec_empty(),
            g@.well_formed(),
            g@.pristine(),
    {
        let g = Grid {
            min_line_column: LineColumn::default(),
            max_line_column: LineColumn::default(),
            zones: Vec::new(),
            cells: Vec::new(),
        };
        assert(g@.zones =~= Seq::empty());
        g
    }
}

impl GridView {
    /// The grid without cells, whose box is the single position `(0, 0)`.
    pub open spec fn spec_empty() -> GridView {
        GridView {
            low: LineColumn { line: 0, column: 0 },
            high: LineColumn { line: 0, column: 0 },
            zones: Seq::empty(),
            cells: Seq::empty(),
        }
    }
}

impl Grid {
    /// Index of the first cell at `line_column`.
    pub fn cell_position(&self, line_column: LineColumn) -> (r: Option<usize>)
        ensures
            match r {
                Some(i) => self@.cell_index(line_column) == Some(i as int) && self@.cell_is_at(
                    i as int,
                    line_column,
                ),
                None => self@.cell_index(line_column) is None && forall|j: int|
                    !self@.cell_is_at(j, line_column),
            },
    {
        let ghost p = lies_at(self@.cells, line_column);
        let mut i: usize = 0;
        while i < self.cells.len()
            invariant
                i <= self.cells.len(),
                never(i as int, p),
                p == lies_at(self@.cells, line_column),
            decreases self.cells.len() - i,
        {
            if self.cells[i].line_column == line_column {
                proof {
                    assert(p(i as int));
                    lemma_first_is(i as int, self.cells.len() as int, p);
                }
                return Some(i);
            }
            assert(!p(i as int));
            i += 1;
        }
        proof {
            lemma_first_none(self.cells.len() as int, p);
            assert forall|j: int| !self@.cell_is_at(j, line_column) by {
                if 0 <= j < self.cells.len() {
                    assert(!p(j));
                }
            }
        }
        None
    }

    /// Index of the first zone that bears `c_zone`.
    pub fn zone_position(&self, c_zone: char) -> (r: Option<usize>)
        ensures
            match r {
                Some(z) => self@.zone_index(c_zone) == Some(z as int) && self@.zone_is(
                    z as int,
                    c_zone,
                ),
                None => self@.zone_index(c_zone) is None && forall|y: int|
                    !self@.zone_is(y, c_zone),
            },
    {
        let ghost p = bears(self@.zones, c_zone);
        let mut z: usize = 0;
        while z < self.zones.len()
            invariant
                z <= self.zones.len(),
                never(z as int, p),
                p == bears(self@.zones, c_zone),
            decreases self.zones.len() - z,
        {
            if self.zones[z].c_zone == c_zone {
                proof {
                    assert(p(z as int));
                    lemma_first_is(z as int, self.zones.len() as int, p);
                }
                return Some(z);
            }
            assert(!p(z as int));
            z += 1;
        }
        proof {
            lemma_first_none(self.zones.len() as int, p);
            assert forall|y: int| !self@.zone_is(y, c_zone) by {
                if 0 <= y < self.zones.len() {
                    assert(!p(y));
                }
            }
        }
        None
    }

    /// Takes `line_column` out of the zone that bears `c_zone`.
    fn leave_zone(&mut self, c_zone: char, line_column: LineColumn)
        ensures
            final(self)@ == (GridView {
                zones: zones_left(old(self)@.zones, c_zone, line_column),
                ..old(self)@
            }),
    {
        match self.zone_position(c_zone) {
            Some(z) => {
                match member_position(&self.zones[z].set_line_column, line_column) {
                    Some(m) => {
                        self.zones[z].set_line_column.remove(m);
                        assert(self@.zones =~= zones_left(old(self)@.zones, c_zone, line_column));
                    },
                    None => {},
                }
            },
            None => {},
        }
    }

    /// Lists `line_column` in the zone that bears `c_zone`, which is made
    /// where the grid has none.
    fn join_zone(&mut self, c_zone: char, line_column: LineColumn)
        ensures
            final(self)@ == (GridView {
                zones: zones_joined(old(self)@.zones, c_zone, line_column),
                ..old(self)@
            }),
    {
        match self.zone_position(c_zone) {
            Some(z) => {
                match member_position(&self.zones[z].set_line_column, line_column) {
                    Some(m) => {},
                    None => {
                        self.zones[z].set_line_column.push(line_column);
                        assert(self@.zones =~= zones_joined(old(self)@.zones, c_zone, line_column));
                    },
                }
            },
            None => {
                let mut members: Vec<LineColumn> = Vec::new();
                members.push(line_column);
                self.zones.push(Zone { c_zone, set_line_column: members });
                assert(self@.zones =~= zones_joined(old(self)@.zones, c_zone, line_column));
            },
        }
    }

    /// Puts a cell into the grid: at `tuple_line_column` (line, column), in
    /// the zone named by the letter `c_zone`, holding the digit `content` or
    /// nothing yet.
    ///
    /// The zone is made if the letter is new, and the box of the grid grows
    /// to take the position in. A cell that was at the position before is
    /// replaced: it leaves the zone it was in, so that each cell stays a
    /// member of one zone only, and keeps its place in the order of cells.
    pub fn add_cell(&mut self, tuple_line_column: (i32, i32), c_zone: char, content: Option<u8>)
        ensures
            final(self)@ == old(self)@.with_cell(
                LineColumn { line: tuple_line_column.0, column: tuple_line_column.1 },
                c_zone,
                content,
            ),
            old(self)@.well_formed() ==> final(self)@.well_formed(),
            old(self)@.pristine() ==> final(self)@.pristine(),
    {
        let line_column = LineColumn::new(tuple_line_column.0, tuple_line_column.1);
        proof {
            if old(self)@.well_formed() {
                old(self)@.lemma_with_cell(line_column, c_zone, content);
            }
            if old(self)@.pristine() {
                old(self)@.lemma_with_cell_pristine(line_column, c_zone, content);
            }
        }
        self.min_line_column.min(line_column);
        self.max_line_column.max(line_column);
        let cell = Cell {
            c_zone,
            line_column,
            content: match content {
                None => CellContent::Undefined,
                Some(n) => CellContent::Number(n),
            },
        };
        match self.cell_position(line_column) {
            Some(i) => {
                let previous = self.cells[i].c_zone;
                if previous != c_zone {
                    self.leave_zone(previous, line_column);
                }
                self.cells[i] = cell;
            },
            None => {
                self.cells.push(cell);
            },
        }
        self.join_zone(c_zone, line_column);
    }

    /// Puts a line of cells into the grid, the first at column 0: each entry
    /// names the zone of a cell and the digit it holds, if any.
    pub fn add_line(&mut self, line: i32, cells: Vec<(char, Option<u8>)>)
        requires
            cells@.len() <= i32::MAX + 1,
        ensures
            final(self)@ == old(self)@.with_line(line, cells@, cells@.len()),
            old(self)@.well_formed() ==> final(self)@.well_formed(),
            old(self)@.pristine() ==> final(self)@.pristine(),
    {
        let mut column: usize = 0;
        while column < cells.len()
            invariant
                column <= cells.len(),
                cells@.len() <= i32::MAX + 1,
                self@ == old(self)@.with_line(line, cells@, column as nat),
                old(self)@.well_formed() ==> self@.well_formed(),
                old(self)@.pristine() ==> self@.pristine(),
            decreases cells.len() - column,
        {
            let (c_zone, content) = cells[column];
            self.add_cell((line, column as i32), c_zone, content);
            column += 1;
        }
    }

    /// The cell at `line_column`, `None` where the grid has none there.
    #[must_use]
    pub fn get_cell(&self, line_column: LineColumn) -> (r: Option<&Cell>)
        ensures
            r == match self@.cell_at(line_column) {
                Some(cell) => Some(&cell),
                None => None,
            },
            r is Some <==> exists|i: int| self@.cell_is_at(i, line_column),
            forall|i: int|
                self@.cells_distinct() && self@.cell_is_at(i, line_column) ==> r == Some(
                    &self@.cells[i],
                ),
    {
        proof {
            assert forall|i: int|
                self@.cells_distinct() && self@.cell_is_at(i, line_column) implies self@.cell_at(
                line_column,
            ) == Some(self@.cells[i]) by {
                self@.lemma_cell_index(i, line_column);
            }
        }
        match self.cell_position(line_column) {
            Some(i) => Some(&self.cells[i]),
            None => None,
        }
    }

    /// The cell at `line_column` for writing, `None` where the grid has none
    /// there. What the caller writes through the reference becomes that cell
    /// of the grid; the rest of the grid stays as it is.
    #[must_use]
    pub fn get_mut_cell(&mut self, line_column: LineColumn) -> (r: Option<&mut Cell>)
        ensures
            match r {
                Some(cell) => {
                    &&& old(self)@.cell_index(line_column) is Some
                    &&& Some(*cell) == old(self)@.cell_at(line_column)
                    &&& final(self)@ == (GridView {
                        cells: old(self)@.cells.update(
                            old(self)@.cell_index(line_column).unwrap(),
                            *final(cell),
                        ),
                        ..old(self)@
                    })
                },
                None => {
                    &&& old(self)@.cell_index(line_column) is None
                    &&& final(self)@ == old(self)@
                },
            },
    {
        match self.cell_position(line_column) {
            Some(i) => Some(&mut self.cells[i]),
            None => None,
        }
    }

    /// The zone that bears `c_zone` for writing, `None` where the grid has
    /// none. What the caller writes through the reference becomes that zone of
    /// the grid; the rest of the grid stays as it is.
    #[must_use]
    pub fn get_zone(&mut self, c_zone: char) -> (r: Option<&mut Zone>)
        ensures
            match r {
                Some(zone) => {
                    &&& old(self)@.zone_index(c_zone) is Some
                    &&& zone@ == old(self)@.zones[old(self)@.zone_index(c_zone).unwrap()]
                    &&& final(self)@ == (GridView {
                        zones: old(self)@.zones.update(
                            old(self)@.zone_index(c_zone).unwrap(),
                            final(zone)@,
                        ),
                        ..old(self)@
                    })
                },
                None => {
                    &&& old(self)@.zone_index(c_zone) is None
                    &&& final(self)@ == old(self)@
                },
            },
    {
        match self.zone_position(c_zone) {
            Some(z) => {
                proof {
                    let before = self.zones@;
                    assert forall|zone: Zone| #[trigger]
                        zone_views(before.update(z as int, zone)) == zone_views(before).update(
                            z as int,
                            zone@,
                        ) by {
                        assert(zone_views(before.update(z as int, zone)) =~= zone_views(
                            before,
                        ).update(z as int, zone@));
                    }
                }
                Some(&mut self.zones[z])
            },
            None => None,
        }
    }

    /// Replaces the content of cell `i`.
    pub fn set_content(&mut self, i: usize, content: CellContent)
        requires
            i < old(self)@.cells.len(),
        ensures
            final(self)@ == old(self)@.with_content(i as int, content),
    {
        let cell = self.cells[i];
        self.cells[i] = Cell { c_zone: cell.c_zone, line_column: cell.line_column, content };
    }
}

} // verus!
