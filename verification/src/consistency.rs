//! The rules that a grid must obey at every moment of its solving, and the
//! contradiction that is reported where it breaks one.
use crate::action::SolvingError;
use crate::grid::{CellContent, Grid, GridView};
use crate::line_column::LineColumn;
use crate::neighboring_line_columns::spec_neighbors;
use crate::search::{first, lemma_first, never};
use crate::simple_09_set::Simple09Set;
use vstd::prelude::*;

verus! {

impl GridView {
    /// The digit placed at `position`, if a cell is there and holds one.
    pub open spec fn number_on(self, position: LineColumn) -> Option<u8> {
        match self.cell_at(position) {
            Some(cell) => match cell.content {
                CellContent::Number(n) => Some(n),
                _ => None,
            },
            None => None,
        }
    }

    /// The candidates of the cell at `position`, if a cell is there and
    /// holds candidates.
    pub open spec fn candidates_on(self, position: LineColumn) -> Option<Simple09Set> {
        match self.cell_at(position) {
            Some(cell) => match cell.content {
                CellContent::PossibleNumbers(set) => Some(set),
                _ => None,
            },
            None => None,
        }
    }

    /// The positions around cell `i` inside the box of the grid, north first
    /// and then clockwise.
    pub open spec fn around(self, i: int) -> Seq<LineColumn> {
        spec_neighbors(self.cells[i].line_column, self.low, self.high)
    }

    /// The digits placed on the first `n` of `positions`.
    pub open spec fn numbers_among(self, positions: Seq<LineColumn>, n: nat) -> Simple09Set
        decreases n,
    {
        if n == 0 {
            Simple09Set::spec_empty()
        } else {
            let before = self.numbers_among(positions, (n - 1) as nat);
            match self.number_on(positions[n - 1]) {
                Some(d) => before.spec_insert(d),
                None => before,
            }
        }
    }

    /// The digits placed on the first `n` of `positions` are the digits up to
    /// 9 that one of these positions holds.
    pub proof fn lemma_numbers_among(self, positions: Seq<LineColumn>, n: nat)
        requires
            n <= positions.len(),
        ensures
            forall|d: u8|
                self.numbers_among(positions, n)@.contains(d) <==> d <= 9 && exists|m: int|
                    0 <= m < n && self.number_on(positions[m]) == Some(d),
        decreases n,
    {
        let all = self.numbers_among(positions, n);
        if n == 0 {
            Simple09Set::spec_empty().lemma_operations(Simple09Set::spec_empty(), 0);
            assert forall|d: u8| !all@.contains(d) by {
                assert(all.spec_contains(d) == all@.contains(d));
            }
        } else {
            let before = self.numbers_among(positions, (n - 1) as nat);
            self.lemma_numbers_among(positions, (n - 1) as nat);
            let last = self.number_on(positions[n - 1]);
            if last is Some {
                before.lemma_operations(before, last.unwrap());
            }
            assert forall|d: u8|
                all@.contains(d) <==> d <= 9 && exists|m: int|
                    0 <= m < n && self.number_on(positions[m]) == Some(d) by {
                assert(all.spec_contains(d) == all@.contains(d));
                assert(before.spec_contains(d) == before@.contains(d));
                before.lemma_members_are_digits(d);
                if before@.contains(d) {
                    let m = choose|m: int|
                        0 <= m < n - 1 && self.number_on(positions[m]) == Some(d);
                    assert(0 <= m < n && self.number_on(positions[m]) == Some(d));
                }
                if last == Some(d) {
                    assert(0 <= n - 1 < n && self.number_on(positions[n - 1]) == Some(d));
                }
            }
        }
    }

    /// Zone `z` has more than nine cells.
    pub open spec fn zone_too_long(self) -> spec_fn(int) -> bool {
        |z: int| self.zones[z].members.len() > 9
    }

    /// Member `m` of zone `z` holds a digit above the size of the zone.
    pub open spec fn misfit_in(self, z: int) -> spec_fn(int) -> bool {
        |m: int|
            self.number_on(self.zones[z].members[m]) matches Some(n) && n
                > self.zones[z].members.len()
    }

    /// Zone `z` has a member that holds a digit above the size of the zone.
    pub open spec fn zone_misfits(self) -> spec_fn(int) -> bool {
        |z: int| first(self.zones[z].members.len() as int, self.misfit_in(z)) is Some
    }

    /// The `j`-th position around cell `i` holds the digit of cell `i`.
    pub open spec fn clash_around(self, i: int) -> spec_fn(int) -> bool {
        |j: int|
            self.cells[i].content matches CellContent::Number(n) && self.number_on(
                self.around(i)[j],
            ) == Some(n)
    }

    /// Cell `i` holds the digit of a cell that touches it.
    pub open spec fn cell_clashes(self) -> spec_fn(int) -> bool {
        |i: int| first(self.around(i).len() as int, self.clash_around(i)) is Some
    }

    /// Member `m` of zone `z` holds a digit, 9 at most, that an earlier
    /// member of the zone holds too.
    pub open spec fn repeat_in(self, z: int) -> spec_fn(int) -> bool {
        |m: int|
            self.number_on(self.zones[z].members[m]) matches Some(n) && self.numbers_among(
                self.zones[z].members,
                m as nat,
            )@.contains(n)
    }

    /// Zone `z` holds a digit twice.
    pub open spec fn zone_repeats(self) -> spec_fn(int) -> bool {
        |z: int| first(self.zones[z].members.len() as int, self.repeat_in(z)) is Some
    }

    /// Cell `i` has candidates, and none is left.
    pub open spec fn no_candidate(self) -> spec_fn(int) -> bool {
        |i: int|
            self.cells[i].content matches CellContent::PossibleNumbers(set) && set@
                == Set::<u8>::empty()
    }

    /// The first zone with more than nine cells, as a contradiction.
    pub open spec fn find_zone_too_long(self) -> Option<SolvingError> {
        match first(self.zones.len() as int, self.zone_too_long()) {
            Some(z) => Some(SolvingError::ZoneTooLong(self.zones[z].c_zone)),
            None => None,
        }
    }

    /// The first member of the first zone that holds a digit above the size
    /// of its zone, as a contradiction.
    pub open spec fn find_unexpected_number(self) -> Option<SolvingError> {
        match first(self.zones.len() as int, self.zone_misfits()) {
            Some(z) => {
                let m = first(self.zones[z].members.len() as int, self.misfit_in(z)).unwrap();
                let position = self.zones[z].members[m];
                Some(
                    SolvingError::ZoneWithUnexpectedNumber(
                        self.zones[z].c_zone,
                        position,
                        self.number_on(position).unwrap(),
                    ),
                )
            },
            None => None,
        }
    }

    /// The first cell that holds the digit of a cell around it, with the
    /// first such cell in the order of the directions, as a contradiction.
    pub open spec fn find_neighbor_clash(self) -> Option<SolvingError> {
        match first(self.cells.len() as int, self.cell_clashes()) {
            Some(i) => {
                let j = first(self.around(i).len() as int, self.clash_around(i)).unwrap();
                Some(
                    SolvingError::NeighboringWithSameNumber(
                        self.cells[i].line_column,
                        self.around(i)[j],
                        self.number_on(self.around(i)[j]).unwrap(),
                    ),
                )
            },
            None => None,
        }
    }

    /// The first digit that the first zone with a repeated digit holds
    /// again, as a contradiction.
    pub open spec fn find_zone_repeat(self) -> Option<SolvingError> {
        match first(self.zones.len() as int, self.zone_repeats()) {
            Some(z) => {
                let m = first(self.zones[z].members.len() as int, self.repeat_in(z)).unwrap();
                Some(
                    SolvingError::ZoneWithSameNumber(
                        self.zones[z].c_zone,
                        self.number_on(self.zones[z].members[m]).unwrap(),
                    ),
                )
            },
            None => None,
        }
    }

    /// The first cell without a candidate left, as a contradiction.
    pub open spec fn find_no_candidate(self) -> Option<SolvingError> {
        match first(self.cells.len() as int, self.no_candidate()) {
            Some(i) => Some(SolvingError::NoPossibleNumber(self.cells[i].line_column)),
            None => None,
        }
    }

    /// The contradiction that the consistency check reports, if any. The
    /// sizes of the zones and the digits above them are looked at only while
    /// the candidates have not been set (`seeded` is false); then come the
    /// cells that touch, the digits of each zone, and the cells without a
    /// candidate.
    pub open spec fn contradiction(self, seeded: bool) -> Option<SolvingError> {
        if !seeded && self.find_zone_too_long() is Some {
            self.find_zone_too_long()
        } else if !seeded && self.find_unexpected_number() is Some {
            self.find_unexpected_number()
        } else if self.find_neighbor_clash() is Some {
            self.find_neighbor_clash()
        } else if self.find_zone_repeat() is Some {
            self.find_zone_repeat()
        } else {
            self.find_no_candidate()
        }
    }

    /// The contradiction reported is one of the five that a grid can hold.
    pub proof fn lemma_contradiction_is_of_the_grid(self, seeded: bool)
        ensures
            self.contradiction(seeded) != Some(SolvingError::BadImplementation),
    {
    }

    /// No zone has more than nine cells.
    pub open spec fn zones_small(self) -> bool {
        never(self.zones.len() as int, self.zone_too_long())
    }

    /// No member of a zone holds a digit above the size of the zone.
    pub open spec fn numbers_fit(self) -> bool {
        forall|z: int|
            0 <= z < self.zones.len() ==> never(
                self.zones[z].members.len() as int,
                #[trigger] self.misfit_in(z),
            )
    }

    /// No cell holds the digit of a cell around it.
    pub open spec fn neighbors_differ(self) -> bool {
        forall|i: int|
            0 <= i < self.cells.len() ==> never(
                self.around(i).len() as int,
                #[trigger] self.clash_around(i),
            )
    }

    /// No zone holds a digit, 9 at most, twice.
    pub open spec fn zone_numbers_differ(self) -> bool {
        forall|z: int|
            0 <= z < self.zones.len() ==> never(
                self.zones[z].members.len() as int,
                #[trigger] self.repeat_in(z),
            )
    }

    /// Every cell with candidates has one left.
    pub open spec fn candidates_left(self) -> bool {
        never(self.cells.len() as int, self.no_candidate())
    }

    /// The grid obeys the rules that the consistency check looks at.
    pub open spec fn consistent(self, seeded: bool) -> bool {
        &&& seeded || (self.zones_small() && self.numbers_fit())
        &&& self.neighbors_differ()
        &&& self.zone_numbers_differ()
        &&& self.candidates_left()
    }

    /// The check reports a contradiction exactly where the grid breaks a rule.
    pub proof fn lemma_contradiction(self, seeded: bool)
        ensures
            self.contradiction(seeded) is None <==> self.consistent(seeded),
            self.find_zone_too_long() is None <==> self.zones_small(),
            self.find_unexpected_number() is None <==> self.numbers_fit(),
            self.find_neighbor_clash() is None <==> self.neighbors_differ(),
            self.find_zone_repeat() is None <==> self.zone_numbers_differ(),
            self.find_no_candidate() is None <==> self.candidates_left(),
    {
        lemma_first(self.zones.len() as int, self.zone_too_long());
        lemma_first(self.zones.len() as int, self.zone_misfits());
        lemma_first(self.cells.len() as int, self.cell_clashes());
        lemma_first(self.zones.len() as int, self.zone_repeats());
        lemma_first(self.cells.len() as int, self.no_candidate());
        assert(self.find_unexpected_number() is None <==> self.numbers_fit()) by {
            if self.find_unexpected_number() is None {
                assert forall|z: int| 0 <= z < self.zones.len() implies never(
                    self.zones[z].members.len() as int,
                    #[trigger] self.misfit_in(z),
                ) by {
                    assert(!self.zone_misfits()(z));
                    lemma_first(self.zones[z].members.len() as int, self.misfit_in(z));
                }
            } else {
                let z = first(self.zones.len() as int, self.zone_misfits()).unwrap();
                assert(self.zone_misfits()(z));
                lemma_first(self.zones[z].members.len() as int, self.misfit_in(z));
                let m = first(self.zones[z].members.len() as int, self.misfit_in(z)).unwrap();
                assert(self.misfit_in(z)(m));
            }
        }
        assert(self.find_neighbor_clash() is None <==> self.neighbors_differ()) by {
            if self.find_neighbor_clash() is None {
                assert forall|i: int| 0 <= i < self.cells.len() implies never(
                    self.around(i).len() as int,
                    #[trigger] self.clash_around(i),
                ) by {
                    assert(!self.cell_clashes()(i));
                    lemma_first(self.around(i).len() as int, self.clash_around(i));
                }
            } else {
                let i = first(self.cells.len() as int, self.cell_clashes()).unwrap();
                assert(self.cell_clashes()(i));
                lemma_first(self.around(i).len() as int, self.clash_around(i));
                let j = first(self.around(i).len() as int, self.clash_around(i)).unwrap();
                assert(self.clash_around(i)(j));
            }
        }
        assert(self.find_zone_repeat() is None <==> self.zone_numbers_differ()) by {
            if self.find_zone_repeat() is None {
                assert forall|z: int| 0 <= z < self.zones.len() implies never(
                    self.zones[z].members.len() as int,
                    #[trigger] self.repeat_in(z),
                ) by {
                    assert(!self.zone_repeats()(z));
                    lemma_first(self.zones[z].members.len() as int, self.repeat_in(z));
                }
            } else {
                let z = first(self.zones.len() as int, self.zone_repeats()).unwrap();
                assert(self.zone_repeats()(z));
                lemma_first(self.zones[z].members.len() as int, self.repeat_in(z));
                let m = first(self.zones[z].members.len() as int, self.repeat_in(z)).unwrap();
                assert(self.repeat_in(z)(m));
            }
        }
    }
}

impl Grid {
    /// The digit placed at `line_column`, if a cell is there and holds one.
    pub fn number_on(&self, line_column: LineColumn) -> (r: Option<u8>)
        ensures
            r == self@.number_on(line_column),
    {
        match self.get_cell(line_column) {
            Some(cell) => match cell.content {
                CellContent::Number(n) => Some(n),
                _ => None,
            },
            None => None,
        }
    }

    /// The candidates of the cell at `line_column`, if a cell is there and
    /// holds candidates.
    pub fn candidates_on(&self, line_column: LineColumn) -> (r: Option<Simple09Set>)
        ensures
            r == self@.candidates_on(line_column),
    {
        match self.get_cell(line_column) {
            Some(cell) => match cell.content {
                CellContent::PossibleNumbers(set) => Some(set),
                _ => None,
            },
            None => None,
        }
    }

    /// The digits placed on `positions`.
    pub fn numbers_among(&self, positions: &Vec<LineColumn>) -> (r: Simple09Set)
        ensures
            r == self@.numbers_among(positions@, positions@.len()),
    {
        let mut placed = Simple09Set::default();
        let mut m: usize = 0;
        while m < positions.len()
            invariant
                m <= positions.len(),
                placed == self@.numbers_among(positions@, m as nat),
            decreases positions.len() - m,
        {
            match self.number_on(positions[m]) {
                Some(n) => {
                    placed.insert(n);
                },
                None => {},
            }
            m += 1;
        }
        placed
    }
}

} // verus!
