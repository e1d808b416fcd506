//! What holds of a grid while it is solved: the rules of the puzzle stated
//! cell by cell, their agreement with the consistency check, and what every
//! solving step keeps.
use crate::action::{ActionView, DifficultyLevel, SolvingError};
use crate::grid::{lies_at, CellContent, GridView};
use crate::neighboring_line_columns::lemma_neighbors_touch;
use crate::rules::full_set;
use crate::search::{first, lemma_first, never};
use crate::simple_09_set::Simple09Set;
use crate::solver::SolverView;
use vstd::prelude::*;

verus! {

impl GridView {
    /// No digit placed in a cell is above the size of the zone of the cell.
    pub open spec fn digits_in_range(self) -> bool {
        forall|i: int|
            0 <= i < self.cells.len() ==> ((#[trigger] self.cells[i]).content matches CellContent::Number(
                n,
            ) ==> n <= self.zone_size(self.cells[i].c_zone))
    }

    /// The candidates of a cell are digits from 1 to the size of its zone.
    pub open spec fn candidates_in_range(self) -> bool {
        forall|i: int, d: u8|
            0 <= i < self.cells.len() && self.cells[i].content is PossibleNumbers
                && #[trigger] self.cells[i].content.allows(d) ==> 1 <= d <= self.zone_size(
                self.cells[i].c_zone,
            )
    }

    /// Cells `i` and `j` hold the same digit.
    pub open spec fn same_digit(self, i: int, j: int) -> bool {
        self.cells[i].content is Number && self.cells[i].content == self.cells[j].content
    }

    /// Two cells of one zone do not hold the same digit.
    pub open spec fn zone_digits_distinct(self) -> bool {
        forall|i: int, j: int|
            0 <= i < self.cells.len() && 0 <= j < self.cells.len() && i != j
                && self.cells[i].c_zone == self.cells[j].c_zone ==> !#[trigger] self.same_digit(
                i,
                j,
            )
    }

    /// Two cells that touch, by an edge or a corner, do not hold the same
    /// digit.
    pub open spec fn touching_digits_distinct(self) -> bool {
        forall|i: int, j: int|
            0 <= i < self.cells.len() && 0 <= j < self.cells.len()
                && self.cells[i].line_column.touches(self.cells[j].line_column)
                ==> !#[trigger] self.same_digit(i, j)
    }

    /// No cell is without content.
    pub open spec fn all_defined(self) -> bool {
        forall|i: int|
            0 <= i < self.cells.len() ==> !((#[trigger] self.cells[i]).content is Undefined)
    }

    /// The digits placed obey the rules of the puzzle: within a zone they
    /// differ and do not exceed the size of the zone, and cells that touch
    /// hold different digits.
    pub open spec fn digits_lawful(self) -> bool {
        &&& self.digits_in_range()
        &&& self.zone_digits_distinct()
        &&& self.touching_digits_distinct()
    }

    /// In a sound grid, the zone of a cell is the zone that lists it, and its
    /// size is the number of members of that zone.
    pub proof fn lemma_zone_of_cell(self, i: int) -> (z: int)
        requires
            self.well_formed(),
            0 <= i < self.cells.len(),
        ensures
            self.cell_in_zone(i, z),
            self.zone_index(self.cells[i].c_zone) == Some(z),
            self.zone_size(self.cells[i].c_zone) == self.zones[z].members.len(),
            forall|y: int| self.zone_is(y, self.cells[i].c_zone) ==> y == z,
    {
        assert(self.cell_has_zone(i));
        let z = choose|z: int| self.cell_in_zone(i, z);
        self.lemma_zone_index(z, self.cells[i].c_zone);
        assert forall|y: int| self.zone_is(y, self.cells[i].c_zone) implies y == z by {
            self.lemma_zone_index(y, self.cells[i].c_zone);
        }
        z
    }

    /// In a sound grid, a member of a zone is the position of one cell,
    /// which bears the letter of the zone.
    pub proof fn lemma_cell_of_member(self, z: int, m: int) -> (i: int)
        requires
            self.well_formed(),
            0 <= z < self.zones.len(),
            0 <= m < self.zones[z].members.len(),
        ensures
            self.member_is_cell(z, m, i),
            self.cell_at(self.zones[z].members[m]) == Some(self.cells[i]),
            self.cell_index(self.zones[z].members[m]) == Some(i),
    {
        assert(self.member_has_cell(z, m));
        let i = choose|i: int| self.member_is_cell(z, m, i);
        self.lemma_cell_index(i, self.zones[z].members[m]);
        i
    }

    /// In a sound grid, the check of the zones for digits above their size
    /// says whether a cell holds a digit above the size of its zone.
    pub proof fn lemma_numbers_fit(self)
        requires
            self.well_formed(),
        ensures
            self.numbers_fit() <==> self.digits_in_range(),
    {
        if self.numbers_fit() {
            assert forall|i: int| 0 <= i < self.cells.len() implies ((
            #[trigger] self.cells[i]).content matches CellContent::Number(n) ==> n
                <= self.zone_size(self.cells[i].c_zone)) by {
                let z = self.lemma_zone_of_cell(i);
                let position = self.cells[i].line_column;
                let m = choose|m: int|
                    0 <= m < self.zones[z].members.len() && self.zones[z].members[m] == position;
                self.lemma_cell_index(i, position);
                assert(never(self.zones[z].members.len() as int, self.misfit_in(z)));
                assert(!self.misfit_in(z)(m));
            }
        }
        if self.digits_in_range() {
            assert forall|z: int| 0 <= z < self.zones.len() implies never(
                self.zones[z].members.len() as int,
                #[trigger] self.misfit_in(z),
            ) by {
                assert forall|m: int| 0 <= m < self.zones[z].members.len() implies !#[trigger] self.misfit_in(
                    z,
                )(m) by {
                    let i = self.lemma_cell_of_member(z, m);
                    self.lemma_zone_index(z, self.zones[z].c_zone);
                    assert(self.cells[i].c_zone == self.zones[z].c_zone);
                }
            }
        }
    }

    /// In a sound grid, the check of the cells around each cell says
    /// whether two cells that touch hold the same digit.
    pub proof fn lemma_neighbors_differ(self)
        requires
            self.well_formed(),
        ensures
            self.neighbors_differ() <==> self.touching_digits_distinct(),
    {
        if self.neighbors_differ() {
            assert forall|i: int, j: int|
                0 <= i < self.cells.len() && 0 <= j < self.cells.len()
                    && self.cells[i].line_column.touches(self.cells[j].line_column)
                implies !#[trigger] self.same_digit(i, j) by {
                let p = self.cells[j].line_column;
                assert(self.cells[j].line_column.within(self.low, self.high));
                lemma_neighbors_touch(self.cells[i].line_column, self.low, self.high, p);
                let k = choose|k: int| 0 <= k < self.around(i).len() && self.around(i)[k] == p;
                self.lemma_cell_index(j, p);
                assert(never(self.around(i).len() as int, self.clash_around(i)));
                assert(!self.clash_around(i)(k));
            }
        }
        if self.touching_digits_distinct() {
            assert forall|i: int| 0 <= i < self.cells.len() implies never(
                self.around(i).len() as int,
                #[trigger] self.clash_around(i),
            ) by {
                assert forall|k: int| 0 <= k < self.around(i).len() implies !#[trigger] self.clash_around(
                    i,
                )(k) by {
                    let p = self.around(i)[k];
                    if self.number_on(p) is Some {
                        lemma_first(self.cells.len() as int, lies_at(self.cells, p));
                        let j = self.cell_index(p).unwrap();
                        assert(self.around(i).contains(p));
                        lemma_neighbors_touch(self.cells[i].line_column, self.low, self.high, p);
                        assert(self.cells[i].line_column.touches(self.cells[j].line_column));
                        assert(!self.same_digit(i, j));
                    }
                }
            }
        }
    }

    /// In a sound grid whose digits do not exceed 9, the check of the zones
    /// for a digit held twice says whether two cells of a zone hold the same
    /// digit.
    pub proof fn lemma_zone_numbers_differ(self)
        requires
            self.well_formed(),
            forall|i: int|
                0 <= i < self.cells.len() ==> ((#[trigger] self.cells[i]).content matches CellContent::Number(
                    n,
                ) ==> n <= 9),
        ensures
            self.zone_numbers_differ() <==> self.zone_digits_distinct(),
    {
        if self.zone_numbers_differ() {
            assert forall|i: int, j: int|
                0 <= i < self.cells.len() && 0 <= j < self.cells.len() && i != j
                    && self.cells[i].c_zone == self.cells[j].c_zone
                implies !#[trigger] self.same_digit(i, j) by {
                if self.cells[i].content is Number && self.cells[i].content
                    == self.cells[j].content {
                    let z = self.lemma_zone_of_cell(i);
                    let y = self.lemma_zone_of_cell(j);
                    assert(y == z);
                    let members = self.zones[z].members;
                    let pi = self.cells[i].line_column;
                    let pj = self.cells[j].line_column;
                    let mi = choose|m: int| 0 <= m < members.len() && members[m] == pi;
                    let mj = choose|m: int| 0 <= m < members.len() && members[m] == pj;
                    self.lemma_cell_index(i, pi);
                    self.lemma_cell_index(j, pj);
                    if i < j {
                        assert(pi != pj);
                    } else {
                        assert(pj != pi);
                    }
                    let n = self.number_on(pi).unwrap();
                    assert(never(members.len() as int, self.repeat_in(z)));
                    if mi < mj {
                        self.lemma_numbers_among(members, mj as nat);
                        assert(0 <= mi < mj && self.number_on(members[mi]) == Some(n));
                        assert(!self.repeat_in(z)(mj));
                    } else {
                        self.lemma_numbers_among(members, mi as nat);
                        assert(0 <= mj < mi && self.number_on(members[mj]) == Some(n));
                        assert(!self.repeat_in(z)(mi));
                    }
                }
            }
        }
        if self.zone_digits_distinct() {
            assert forall|z: int| 0 <= z < self.zones.len() implies never(
                self.zones[z].members.len() as int,
                #[trigger] self.repeat_in(z),
            ) by {
                let members = self.zones[z].members;
                assert forall|m: int| 0 <= m < members.len() implies !#[trigger] self.repeat_in(z)(
                    m,
                ) by {
                    if self.repeat_in(z)(m) {
                        let n = self.number_on(members[m]).unwrap();
                        self.lemma_numbers_among(members, m as nat);
                        let k = choose|k: int|
                            0 <= k < m && self.number_on(members[k]) == Some(n);
                        let i = self.lemma_cell_of_member(z, m);
                        let j = self.lemma_cell_of_member(z, k);
                        assert(members.no_duplicates());
                        assert(members[k] != members[m]);
                        assert(!self.same_digit(i, j));
                    }
                }
            }
        }
    }

    /// A grid of the same shape as a sound grid is sound, and its zones have
    /// the same sizes.
    pub proof fn lemma_same_shape(self, other: GridView)
        requires
            self.same_shape(other),
        ensures
            self.well_formed() ==> other.well_formed(),
            forall|letter: char| self.zone_size(letter) == other.zone_size(letter),
            self.zones_small() ==> other.zones_small(),
    {
        if self.well_formed() {
            assert forall|i: int| 0 <= i < other.cells.len() implies #[trigger] other.cell_has_zone(
                i,
            ) by {
                assert(self.cell_has_zone(i));
                let z = choose|z: int| self.cell_in_zone(i, z);
                assert(other.cell_in_zone(i, z));
            }
            assert forall|z: int, m: int|
                0 <= z < other.zones.len() && 0 <= m < other.zones[z].members.len()
                implies #[trigger] other.member_has_cell(z, m) by {
                assert(self.member_has_cell(z, m));
                let i = choose|i: int| self.member_is_cell(z, m, i);
                assert(other.member_is_cell(z, m, i));
            }
            assert forall|i: int| 0 <= i < other.cells.len() implies (
            #[trigger] other.cells[i]).line_column.within(other.low, other.high) by {
                assert(self.cells[i].line_column.within(self.low, self.high));
            }
            assert(other.cells_distinct()) by {
                assert forall|i: int, j: int|
                    0 <= i < j < other.cells.len() implies other.cells[i].line_column
                    != other.cells[j].line_column by {
                    assert(self.cells[i].line_column != self.cells[j].line_column);
                }
            }
        }
        if self.zones_small() {
            assert forall|z: int| 0 <= z < other.zones.len() implies !#[trigger] other.zone_too_long()(
                z,
            ) by {
                assert(!self.zone_too_long()(z));
            }
        }
    }
}

/// The digits from 1 to `n` are the members of `full_set(n)`, for `n` up to 9.
pub proof fn lemma_full_set(n: nat)
    requires
        n <= 9,
    ensures
        forall|d: u8| full_set(n)@.contains(d) <==> 1 <= d <= n,
    decreases n,
{
    let all = full_set(n);
    if n == 0 {
        Simple09Set::spec_empty().lemma_operations(Simple09Set::spec_empty(), 0);
        assert forall|d: u8| !all@.contains(d) by {
            assert(all.spec_contains(d) == all@.contains(d));
        }
    } else {
        let lower = full_set((n - 1) as nat);
        lemma_full_set((n - 1) as nat);
        lower.lemma_operations(lower, n as u8);
        assert forall|d: u8| all@.contains(d) <==> 1 <= d <= n by {
            assert(all.spec_contains(d) == all@.contains(d));
            assert(lower.spec_contains(d) == lower@.contains(d));
        }
    }
}

impl ActionView {
    /// The action gave a cell its digit.
    pub open spec fn places_digit(self) -> bool {
        self is SinglePossibleNumber || self is OnlyNumberInZone || self is TryAndSolve
            || self is TryAndFail
    }
}

impl GridView {
    /// The grid is a solved puzzle: sound, every cell with a digit, no zone
    /// of more than nine cells, and the digits obey the rules.
    pub open spec fn is_solution(self) -> bool {
        &&& self.well_formed()
        &&& self.all_numbers()
        &&& self.zones_small()
        &&& self.digits_lawful()
    }

    /// In a sound grid whose zones have nine cells at most, a digit within
    /// the size of its zone is 9 at most.
    pub proof fn lemma_digits_small(self)
        requires
            self.well_formed(),
            self.zones_small(),
            self.digits_in_range(),
        ensures
            forall|i: int|
                0 <= i < self.cells.len() ==> ((#[trigger] self.cells[i]).content matches CellContent::Number(
                    n,
                ) ==> n <= 9),
    {
        assert forall|i: int| 0 <= i < self.cells.len() implies ((
        #[trigger] self.cells[i]).content matches CellContent::Number(n) ==> n <= 9) by {
            let z = self.lemma_zone_of_cell(i);
            assert(!self.zone_too_long()(z));
        }
    }

    /// A solved puzzle passes the consistency check, before the candidates
    /// are set and after.
    pub proof fn lemma_solution_passes(self, seeded: bool)
        requires
            self.is_solution(),
        ensures
            self.contradiction(seeded) is None,
            self.seeded() == self,
    {
        self.lemma_contradiction(seeded);
        self.lemma_numbers_fit();
        self.lemma_neighbors_differ();
        self.lemma_digits_small();
        self.lemma_zone_numbers_differ();
        assert forall|i: int| 0 <= i < self.cells.len() implies !#[trigger] self.no_candidate()(
            i,
        ) by {
            assert(self.cells[i].content is Number);
        }
        assert(self.seeded().cells =~= self.cells) by {
            assert forall|i: int| 0 <= i < self.cells.len() implies self.seeded_cell(i)
                == self.cells[i] by {
                assert(self.cells[i].content is Number);
            }
        }
    }
}

impl SolverView {
    /// The solver is in order: its grid is sound, the candidates of a cell
    /// are digits from 1 to the size of its zone, and once the candidates
    /// are set no zone has more than nine cells, no digit exceeds the size
    /// of its zone and no cell is without content. A solver made for a
    /// sound grid whose cells hold a digit or nothing is in order.
    pub open spec fn sound(self) -> bool {
        &&& self.grid.well_formed()
        &&& self.grid.candidates_in_range()
        &&& self.seeded ==> self.grid.zones_small() && self.grid.digits_in_range()
            && self.grid.all_defined()
    }

    /// A solver made for a sound grid whose cells hold a digit or nothing is
    /// in order.
    pub proof fn lemma_fresh_solver_is_sound(self)
        requires
            self.grid.well_formed(),
            self.grid.pristine(),
            !self.seeded,
        ensures
            self.sound(),
    {
    }

    /// For a solver in order whose candidates are set, the digits obey the
    /// rules of the puzzle exactly where the consistency check finds neither
    /// two cells that touch with the same digit nor a digit twice in a zone.
    pub proof fn lemma_digits_lawful_iff_checked(self)
        requires
            self.sound(),
            self.seeded,
        ensures
            self.grid.digits_lawful() <==> self.grid.neighbors_differ()
                && self.grid.zone_numbers_differ(),
    {
        self.grid.lemma_neighbors_differ();
        self.grid.lemma_digits_small();
        self.grid.lemma_zone_numbers_differ();
    }

    /// Every step of the run from `self` reports a contradiction, or an
    /// action of `level` at most.
    pub open spec fn stays_within(self, level: DifficultyLevel) -> bool
        decreases self.unseeded(), self.grid.rank(),
    {
        match self.step().1 {
            Err(_) => true,
            Ok(action) => action.difficulty().spec_rank() <= level.spec_rank() && (action
                == ActionView::Solved || action == ActionView::NoAction || !self.progressed_to(
                self.step().0,
            ) || self.step().0.stays_within(level)),
        }
    }

    /// Once a step has reported a solved grid, every further step reports it
    /// again and changes nothing.
    pub proof fn lemma_solved_is_final(self)
        requires
            self.step().1 == Ok::<ActionView, SolvingError>(ActionView::Solved),
        ensures
            self.step().0 == self,
            self.step().0.step() == (self, Ok::<ActionView, SolvingError>(ActionView::Solved)),
    {
    }

    /// A step succeeds only on a grid whose digits obey the rules of the
    /// puzzle.
    pub proof fn lemma_step_passes_check(self)
        requires
            self.sound(),
            self.step().1 is Ok,
        ensures
            self.grid.contradiction(self.seeded) is None,
            self.grid.zones_small(),
            self.grid.digits_lawful(),
    {
        self.grid.lemma_contradiction(self.seeded);
        self.grid.lemma_numbers_fit();
        self.grid.lemma_neighbors_differ();
        self.grid.lemma_digits_small();
        self.grid.lemma_zone_numbers_differ();
    }

    /// A step leaves a solver in order, never lowers the difficulty, and
    /// raises it to the level of the rule that fired, if one did.
    pub proof fn lemma_step_sound(self)
        requires
            self.sound(),
        ensures
            self.step().0.sound(),
            self.step().1 matches Ok(action) ==> self.step().0.difficulty
                == self.difficulty.spec_at_least(action.difficulty()),
            self.step().1 is Err ==> self.step().0.difficulty == self.difficulty,
            self.step().1 matches Ok(action) && action != ActionView::NoAction && action
                != ActionView::Solved ==> self.step().0.seeded,
    {
        let next = self.step().0;
        self.lemma_step();
        self.lemma_rule_refines();
        self.grid.lemma_same_shape(next.grid);
        if self.step().1 is Ok && next != self {
            self.lemma_step_passes_check();
            if !self.seeded {
                assert(next.grid.candidates_in_range()) by {
                    assert forall|i: int, d: u8|
                        0 <= i < next.grid.cells.len() && next.grid.cells[i].content is PossibleNumbers
                            && #[trigger] next.grid.cells[i].content.allows(d) implies 1 <= d
                        <= next.grid.zone_size(next.grid.cells[i].c_zone) by {
                        if self.grid.cells[i].content is Undefined {
                            let z = self.grid.lemma_zone_of_cell(i);
                            assert(!self.grid.zone_too_long()(z));
                            lemma_full_set(self.grid.zone_size(self.grid.cells[i].c_zone));
                        } else {
                            assert(self.grid.cells[i].content.allows(d));
                        }
                    }
                }
                assert(next.grid.digits_in_range()) by {
                    assert forall|i: int| 0 <= i < next.grid.cells.len() implies ((
                    #[trigger] next.grid.cells[i]).content matches CellContent::Number(n) ==> n
                        <= next.grid.zone_size(next.grid.cells[i].c_zone)) by {
                        assert(self.grid.cells[i].content == next.grid.cells[i].content
                            || self.grid.cells[i].content is Undefined);
                    }
                }
            } else {
                let after = self.rule().unwrap().0.0;
                let (k, content) = choose|k: int, content: CellContent|
                    self.grid.refines(k, content) && after == self.grid.with_content(k, content);
                assert(next.grid.candidates_in_range()) by {
                    assert forall|i: int, d: u8|
                        0 <= i < next.grid.cells.len() && next.grid.cells[i].content is PossibleNumbers
                            && #[trigger] next.grid.cells[i].content.allows(d) implies 1 <= d
                        <= next.grid.zone_size(next.grid.cells[i].c_zone) by {
                        assert(self.grid.cells[i].content.allows(d));
                    }
                }
                assert(next.grid.digits_in_range()) by {
                    assert forall|i: int| 0 <= i < next.grid.cells.len() implies ((
                    #[trigger] next.grid.cells[i]).content matches CellContent::Number(n) ==> n
                        <= next.grid.zone_size(next.grid.cells[i].c_zone)) by {
                        if i == k {
                            match next.grid.cells[i].content {
                                CellContent::Number(n) => {
                                    assert(next.grid.cells[i].content.allows(n));
                                    assert(self.grid.cells[i].content.allows(n));
                                },
                                _ => {},
                            }
                        } else {
                            assert(self.grid.cells[i] == next.grid.cells[i]);
                        }
                    }
                }
                assert(next.grid.all_defined()) by {
                    assert forall|i: int| 0 <= i < next.grid.cells.len() implies !((
                    #[trigger] next.grid.cells[i]).content is Undefined) by {
                        if i != k {
                            assert(self.grid.cells[i] == next.grid.cells[i]);
                        }
                    }
                }
            }
        }
    }

    /// After a step that succeeds without placing a digit, the digits obey
    /// the rules of the puzzle. A step that places a digit does not look at
    /// the cells around it; where the digit breaks a rule, the next step
    /// reports the contradiction.
    pub proof fn lemma_step_keeps_digits_lawful(self)
        requires
            self.sound(),
            self.step().1 matches Ok(action) && !action.places_digit(),
        ensures
            self.step().0.grid.digits_lawful(),
    {
        let next = self.step().0.grid;
        self.lemma_step_passes_check();
        self.lemma_step();
        self.grid.lemma_rules_keep_digits();
        self.grid.lemma_rules_refine();
        self.lemma_try_refines();
        lemma_first(self.grid.cells.len() as int, self.cell_decides());
        assert(self.grid.same_digits(next));
        self.grid.lemma_same_shape(next);
        assert(next.digits_in_range()) by {
            assert forall|i: int| 0 <= i < next.cells.len() implies ((
            #[trigger] next.cells[i]).content matches CellContent::Number(n) ==> n
                <= next.zone_size(next.cells[i].c_zone)) by {
                if next.cells[i].content is Number {
                    assert(self.grid.cells[i] == next.cells[i]);
                }
            }
        }
        assert(next.zone_digits_distinct()) by {
            assert forall|i: int, j: int|
                0 <= i < next.cells.len() && 0 <= j < next.cells.len() && i != j
                    && next.cells[i].c_zone == next.cells[j].c_zone
                implies !#[trigger] next.same_digit(i, j) by {
                if next.same_digit(i, j) {
                    assert(self.grid.cells[i] == next.cells[i]);
                    assert(self.grid.cells[j] == next.cells[j]);
                    assert(!self.grid.same_digit(i, j));
                }
            }
        }
        assert(next.touching_digits_distinct()) by {
            assert forall|i: int, j: int|
                0 <= i < next.cells.len() && 0 <= j < next.cells.len()
                    && next.cells[i].line_column.touches(next.cells[j].line_column)
                implies !#[trigger] next.same_digit(i, j) by {
                if next.same_digit(i, j) {
                    assert(self.grid.cells[i] == next.cells[i]);
                    assert(self.grid.cells[j] == next.cells[j]);
                    assert(self.grid.cells[i].line_column.touches(self.grid.cells[j].line_column));
                    assert(!self.grid.same_digit(i, j));
                }
            }
        }
    }

    /// What a whole run keeps and reaches, from a solver that is in order:
    /// the solver stays in order, nothing that a cell had excluded comes
    /// back, and the difficulty does not fall. A run that ends without a
    /// contradiction ends on a grid that passes the consistency check and
    /// whose digits obey the rules of the puzzle; it reports `true` exactly
    /// where every cell holds a digit.
    pub proof fn lemma_run(self)
        requires
            self.sound(),
        ensures
            self.run().0.sound(),
            self.run().0.max_level == self.max_level,
            self.run().0.level == self.level,
            self.grid.narrows_to(self.run().0.grid),
            self.run().0.difficulty.spec_rank() >= self.difficulty.spec_rank(),
            self.run().1 is Ok ==> {
                &&& self.run().0.seeded
                &&& self.run().0.grid.contradiction(true) is None
                &&& self.run().0.grid.digits_lawful()
                &&& self.run().1 == Ok::<bool, SolvingError>(self.run().0.grid.all_numbers())
            },
            self.run().1 matches Err(e) ==> Some(e) == self.run().0.grid.contradiction(
                self.run().0.seeded,
            ),
        decreases self.unseeded(), self.grid.rank(),
    {
        let next = self.step().0;
        self.lemma_step();
        self.lemma_step_sound();
        if self.step().1 is Ok {
            self.lemma_step_passes_check();
        }
        match self.step().1 {
            Ok(action) => {
                if action != ActionView::Solved && action != ActionView::NoAction {
                    next.lemma_run();
                    self.grid.lemma_narrows_twice(next.grid, next.run().0.grid);
                }
            },
            Err(e) => {},
        }
    }

    /// Solving a solved puzzle changes nothing in the grid and reports
    /// `true`.
    pub proof fn lemma_run_on_solution(self)
        requires
            self.grid.is_solution(),
        ensures
            self.run().1 == Ok::<bool, SolvingError>(true),
            self.run().0.grid == self.grid,
            self.run().0.difficulty == self.difficulty,
        decreases self.unseeded(),
    {
        self.grid.lemma_solution_passes(false);
        self.grid.lemma_solution_passes(true);
        self.lemma_step();
        if !self.seeded {
            self.step().0.lemma_run_on_solution();
        }
    }

    /// A run whose steps report no action above `level`, from a solver whose
    /// difficulty is `level` at most, ends with a difficulty of `level` at
    /// most. So a puzzle that the first three rules solve never shows as
    /// `Hard` or `VeryHard`.
    pub proof fn lemma_difficulty(self, level: DifficultyLevel)
        requires
            self.sound(),
            self.difficulty.spec_rank() <= level.spec_rank(),
            self.stays_within(level),
        ensures
            self.run().0.difficulty.spec_rank() <= level.spec_rank(),
        decreases self.unseeded(), self.grid.rank(),
    {
        let next = self.step().0;
        self.lemma_step();
        self.lemma_step_sound();
        match self.step().1 {
            Ok(action) => {
                if action != ActionView::Solved && action != ActionView::NoAction {
                    next.lemma_difficulty(level);
                }
            },
            Err(e) => {},
        }
    }
}

} // verus!
