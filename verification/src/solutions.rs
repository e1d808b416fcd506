//! The solutions of a puzzle, and what solving keeps of them. The
//! propagation rules exclude no solution. On a puzzle that has a solution
//! solving never reports a contradiction, and the digits obey the rules of
//! the puzzle after every step. On a puzzle that has one solution only,
//! solving never excludes it: a grid that ends solved holds it.
use crate::action::{ActionView, SolvingError};
use crate::grid::{CellContent, GridView};
use crate::search::{first, lemma_first};
use crate::solver::SolverView;
use crate::soundness::lemma_full_set;
use vstd::prelude::*;
use vstd::set_lib::{lemma_int_range, lemma_subset_equality, set_int_range};

verus! {

/// A sequence of `n` different numbers from 1 to `n` holds each of them.
pub proof fn lemma_all_digits_used(digits: Seq<int>, d: int)
    requires
        digits.no_duplicates(),
        forall|m: int| 0 <= m < digits.len() ==> 1 <= #[trigger] digits[m] <= digits.len(),
        1 <= d <= digits.len(),
    ensures
        digits.contains(d),
{
    let n = digits.len() as int;
    let used = digits.to_set();
    let all = set_int_range(1, n + 1);
    digits.unique_seq_to_set();
    lemma_int_range(1, n + 1);
    vstd::seq_lib::seq_to_set_is_finite(digits);
    assert(used.subset_of(all)) by {
        assert forall|x: int| used.contains(x) implies all.contains(x) by {
            let m = choose|m: int| 0 <= m < digits.len() && digits[m] == x;
            assert(1 <= digits[m] <= digits.len());
        }
    }
    lemma_subset_equality(used, all);
    assert(all.contains(d));
}

impl GridView {
    /// `digits`, one for each cell, fill the grid by the rules of the
    /// puzzle: the digit of a cell lies between 1 and the size of its zone,
    /// the cells of a zone hold different digits, and so do cells that
    /// touch. With `well_formed` this makes each zone hold the digits from 1
    /// to its size once.
    pub open spec fn solved_by(self, digits: Seq<u8>) -> bool {
        &&& digits.len() == self.cells.len()
        &&& forall|i: int|
            0 <= i < self.cells.len() ==> 1 <= #[trigger] digits[i] <= self.zone_size(
                self.cells[i].c_zone,
            )
        &&& forall|i: int, j: int|
            0 <= i < self.cells.len() && 0 <= j < self.cells.len() && i != j
                && self.cells[i].c_zone == self.cells[j].c_zone ==> #[trigger] digits[i]
                != #[trigger] digits[j]
        &&& forall|i: int, j: int|
            0 <= i < self.cells.len() && 0 <= j < self.cells.len()
                && self.cells[i].line_column.touches(self.cells[j].line_column)
                ==> #[trigger] digits[i] != #[trigger] digits[j]
    }

    /// `digits` is a solution that the grid still admits: every cell allows
    /// the digit that the solution gives it.
    pub open spec fn admits(self, digits: Seq<u8>) -> bool {
        &&& self.solved_by(digits)
        &&& forall|i: int|
            0 <= i < self.cells.len() ==> self.cells[i].content.allows(#[trigger] digits[i])
    }

    /// The grid admits one solution at most.
    pub open spec fn decided(self) -> bool {
        forall|a: Seq<u8>, b: Seq<u8>| self.admits(a) && self.admits(b) ==> a == b
    }

    /// The digits of the cells, 0 for a cell without one.
    pub open spec fn digits(self) -> Seq<u8> {
        Seq::new(
            self.cells.len(),
            |i: int|
                match self.cells[i].content {
                    CellContent::Number(n) => n,
                    _ => 0,
                },
        )
    }

    /// A grid of the same shape has the same solutions.
    pub proof fn lemma_solved_by_shape(self, other: GridView, digits: Seq<u8>)
        requires
            self.same_shape(other),
            self.solved_by(digits),
        ensures
            other.solved_by(digits),
    {
        self.lemma_same_shape(other);
        assert forall|i: int| 0 <= i < other.cells.len() implies 1 <= #[trigger] digits[i]
            <= other.zone_size(other.cells[i].c_zone) by {
            assert(other.cells[i].c_zone == self.cells[i].c_zone);
        }
        assert forall|i: int, j: int|
            0 <= i < other.cells.len() && 0 <= j < other.cells.len() && i != j
                && other.cells[i].c_zone == other.cells[j].c_zone implies #[trigger] digits[i]
            != #[trigger] digits[j] by {
            assert(other.cells[i].c_zone == self.cells[i].c_zone);
            assert(other.cells[j].c_zone == self.cells[j].c_zone);
        }
        assert forall|i: int, j: int|
            0 <= i < other.cells.len() && 0 <= j < other.cells.len()
                && other.cells[i].line_column.touches(other.cells[j].line_column)
            implies #[trigger] digits[i] != #[trigger] digits[j] by {
            assert(other.cells[i].line_column == self.cells[i].line_column);
            assert(other.cells[j].line_column == self.cells[j].line_column);
        }
    }

    /// A sound grid without too long a zone that admits a solution holds no
    /// contradiction.
    pub proof fn lemma_admitted_passes_check(self, digits: Seq<u8>, seeded: bool)
        requires
            self.well_formed(),
            self.zones_small(),
            self.admits(digits),
        ensures
            self.contradiction(seeded) is None,
            self.digits_lawful(),
    {
        assert(self.digits_in_range()) by {
            assert forall|i: int| 0 <= i < self.cells.len() implies ((
            #[trigger] self.cells[i]).content matches CellContent::Number(n) ==> n
                <= self.zone_size(self.cells[i].c_zone)) by {
                assert(self.cells[i].content.allows(digits[i]));
            }
        }
        assert(self.zone_digits_distinct()) by {
            assert forall|i: int, j: int|
                0 <= i < self.cells.len() && 0 <= j < self.cells.len() && i != j
                    && self.cells[i].c_zone == self.cells[j].c_zone
                implies !#[trigger] self.same_digit(i, j) by {
                assert(self.cells[i].content.allows(digits[i]));
                assert(self.cells[j].content.allows(digits[j]));
            }
        }
        assert(self.touching_digits_distinct()) by {
            assert forall|i: int, j: int|
                0 <= i < self.cells.len() && 0 <= j < self.cells.len()
                    && self.cells[i].line_column.touches(self.cells[j].line_column)
                implies !#[trigger] self.same_digit(i, j) by {
                assert(self.cells[i].content.allows(digits[i]));
                assert(self.cells[j].content.allows(digits[j]));
            }
        }
        assert(self.candidates_left()) by {
            assert forall|i: int| 0 <= i < self.cells.len() implies !#[trigger] self.no_candidate()(
                i,
            ) by {
                assert(self.cells[i].content.allows(digits[i]));
            }
        }
        self.lemma_contradiction(seeded);
        self.lemma_numbers_fit();
        self.lemma_neighbors_differ();
        self.lemma_digits_small();
        self.lemma_zone_numbers_differ();
    }

    /// Setting the candidates excludes no solution.
    pub proof fn lemma_seeded_admits(self, digits: Seq<u8>)
        requires
            self.well_formed(),
            self.zones_small(),
            self.admits(digits),
        ensures
            self.seeded().admits(digits),
    {
        let after = self.seeded();
        assert(self.same_shape(after));
        self.lemma_solved_by_shape(after, digits);
        assert forall|i: int| 0 <= i < after.cells.len() implies after.cells[i].content.allows(
            #[trigger] digits[i],
        ) by {
            assert(self.cells[i].content.allows(digits[i]));
            if self.cells[i].content is Undefined {
                let z = self.lemma_zone_of_cell(i);
                assert(!self.zone_too_long()(z));
                lemma_full_set(self.zone_size(self.cells[i].c_zone));
            }
        }
    }
}

impl GridView {
    /// Giving a cell a content that allows the digit of a solution excludes
    /// no solution.
    pub proof fn lemma_with_content_admits(self, digits: Seq<u8>, i: int, content: CellContent)
        requires
            self.admits(digits),
            0 <= i < self.cells.len(),
            content.allows(digits[i]),
        ensures
            self.with_content(i, content).admits(digits),
    {
        let after = self.with_content(i, content);
        assert(self.same_shape(after));
        self.lemma_solved_by_shape(after, digits);
        assert forall|k: int| 0 <= k < after.cells.len() implies after.cells[k].content.allows(
            #[trigger] digits[k],
        ) by {
            assert(self.cells[k].content.allows(digits[k]));
        }
    }

    /// In a sound grid that admits a solution, the solution gives a cell no
    /// digit that is placed elsewhere in its zone.
    pub proof fn lemma_zone_digits_excluded(self, digits: Seq<u8>, i: int)
        requires
            self.well_formed(),
            self.admits(digits),
            0 <= i < self.cells.len(),
            self.cells[i].content is PossibleNumbers,
        ensures
            !self.placed_in_zone(i)@.contains(digits[i]),
    {
        let z = self.lemma_zone_of_cell(i);
        let members = self.zones[z].members;
        self.lemma_numbers_among(members, members.len());
        if self.placed_in_zone(i)@.contains(digits[i]) {
            let m = choose|m: int|
                0 <= m < members.len() && self.number_on(members[m]) == Some(digits[i]);
            let j = self.lemma_cell_of_member(z, m);
            assert(self.cells[j].content.allows(digits[j]));
            assert(digits[i] != digits[j]);
        }
    }

    /// In a sound grid that admits a solution, the solution gives a cell no
    /// digit that is placed in a cell around it.
    pub proof fn lemma_neighbor_digits_excluded(self, digits: Seq<u8>, i: int)
        requires
            self.well_formed(),
            self.admits(digits),
            0 <= i < self.cells.len(),
        ensures
            !self.placed_around(i)@.contains(digits[i]),
    {
        let around = self.around(i);
        self.lemma_numbers_among(around, around.len());
        if self.placed_around(i)@.contains(digits[i]) {
            let k = choose|k: int|
                0 <= k < around.len() && self.number_on(around[k]) == Some(digits[i]);
            self.lemma_number_on(around[k]);
            let j = self.cell_index(around[k]).unwrap();
            assert(around.contains(around[k]));
            crate::neighboring_line_columns::lemma_neighbors_touch(
                self.cells[i].line_column,
                self.low,
                self.high,
                around[k],
            );
            assert(self.cells[j].content.allows(digits[j]));
            assert(digits[i] != digits[j]);
        }
    }

    /// The rules that look at single cells, at the digits of a zone and at
    /// the digits around a cell exclude no solution of a sound grid.
    pub proof fn lemma_simple_rules_admit(self, digits: Seq<u8>)
        requires
            self.well_formed(),
            self.admits(digits),
        ensures
            self.single_possible_number() matches Some(o) ==> o.0.admits(digits),
            self.numbers_in_zone() matches Some(o) ==> o.0.admits(digits),
            self.numbers_neighboring() matches Some(o) ==> o.0.admits(digits),
    {
        let n = self.cells.len() as int;
        if self.single_possible_number() is Some {
            lemma_first(n, self.single());
            let i = first(n, self.single()).unwrap();
            assert(self.single()(i));
            let set = self.candidates(i).unwrap();
            set.lemma_few();
            assert(self.cells[i].content.allows(digits[i]));
            self.lemma_with_content_admits(
                digits,
                i,
                CellContent::Number(set.spec_as_seq()[0]),
            );
        }
        if self.numbers_in_zone() is Some {
            lemma_first(n, self.zone_strikes());
            let i = first(n, self.zone_strikes()).unwrap();
            assert(self.zone_strikes()(i));
            let set = self.candidates(i).unwrap();
            let placed = self.placed_in_zone(i);
            set.lemma_strike(placed);
            self.lemma_zone_digits_excluded(digits, i);
            assert(self.cells[i].content.allows(digits[i]));
            self.lemma_with_content_admits(
                digits,
                i,
                CellContent::PossibleNumbers(set.spec_without(set.spec_intersection(placed))),
            );
        }
        if self.numbers_neighboring() is Some {
            lemma_first(n, self.neighbor_strikes());
            let i = first(n, self.neighbor_strikes()).unwrap();
            assert(self.neighbor_strikes()(i));
            let set = self.candidates(i).unwrap();
            let placed = self.placed_around(i);
            set.lemma_strike(placed);
            self.lemma_neighbor_digits_excluded(digits, i);
            assert(self.cells[i].content.allows(digits[i]));
            self.lemma_with_content_admits(
                digits,
                i,
                CellContent::PossibleNumbers(set.spec_without(set.spec_intersection(placed))),
            );
        }
    }

    /// The rule of the pair of candidates excludes no solution of a sound
    /// grid: two cells that touch and share two candidates take both digits,
    /// so that a cell that touches both takes neither.
    pub proof fn lemma_pair_rule_admits(self, digits: Seq<u8>)
        requires
            self.well_formed(),
            self.admits(digits),
        ensures
            self.dual_values_pair() matches Some(o) ==> o.0.admits(digits),
    {
        let n = self.cells.len() as int;
        if self.dual_values_pair() is Some {
            lemma_first(n, self.pair_strikes());
            let i = first(n, self.pair_strikes()).unwrap();
            assert(self.pair_strikes()(i));
            lemma_first(12, self.pair_hits(i));
            let e = first(12, self.pair_hits(i)).unwrap();
            assert(self.pair_hits(i)(e));
            let pair = self.candidates(i).unwrap();
            let second = self.pair_position(i, e).unwrap();
            let target = self.target_position(i, e).unwrap();
            let set = self.candidates_on(target).unwrap();
            self.lemma_candidates_on(second);
            self.lemma_candidates_on(target);
            let b = self.cell_index(second).unwrap();
            let c = self.cell_index(target).unwrap();
            let first_position = self.cells[i].line_column;
            assert(first_position.touches(second));
            assert(first_position.touches(target));
            assert(second.touches(target));
            pair.lemma_few();
            set.lemma_strike(pair);
            assert(self.cells[i].content.allows(digits[i]));
            assert(self.cells[b].content.allows(digits[b]));
            assert(self.cells[c].content.allows(digits[c]));
            assert(digits[i] != digits[b]);
            assert(digits[i] != digits[c]);
            assert(digits[b] != digits[c]);
            assert(!pair@.contains(digits[c]));
            self.lemma_with_content_admits(
                digits,
                c,
                CellContent::PossibleNumbers(set.spec_without(set.spec_intersection(pair))),
            );
        }
    }
}

impl GridView {
    /// The digits that a solution gives to the members of zone `z`.
    pub open spec fn zone_digits(self, digits: Seq<u8>, z: int) -> Seq<int> {
        Seq::new(
            self.zones[z].members.len(),
            |m: int| digits[self.cell_index(self.zones[z].members[m]).unwrap()] as int,
        )
    }

    /// In a sound grid, a solution gives the members of a zone each of the
    /// digits from 1 to the size of the zone.
    pub proof fn lemma_zone_holds_each_digit(self, digits: Seq<u8>, z: int, d: int) -> (m: int)
        requires
            self.well_formed(),
            self.solved_by(digits),
            0 <= z < self.zones.len(),
            1 <= d <= self.zones[z].members.len(),
        ensures
            0 <= m < self.zones[z].members.len(),
            self.cell_index(self.zones[z].members[m]) is Some,
            digits[self.cell_index(self.zones[z].members[m]).unwrap()] == d,
    {
        let members = self.zones[z].members;
        let held = self.zone_digits(digits, z);
        self.lemma_zone_index(z, self.zones[z].c_zone);
        assert forall|a: int| 0 <= a < held.len() implies 1 <= #[trigger] held[a]
            <= held.len() by {
            let i = self.lemma_cell_of_member(z, a);
            assert(1 <= digits[i] <= self.zone_size(self.cells[i].c_zone));
        }
        assert(held.no_duplicates()) by {
            assert forall|a: int, b: int|
                0 <= a < held.len() && 0 <= b < held.len() && a != b implies held[a]
                != held[b] by {
                let i = self.lemma_cell_of_member(z, a);
                let j = self.lemma_cell_of_member(z, b);
                assert(members.no_duplicates());
                assert(members[a] != members[b]);
                assert(digits[i] != digits[j]);
            }
        }
        lemma_all_digits_used(held, d);
        let m = choose|m: int| 0 <= m < held.len() && held[m] == d;
        self.lemma_cell_of_member(z, m);
        m
    }

    /// The rule of the only cell for a digit excludes no solution of a sound
    /// grid whose cells all have a content, with candidates from 1 to the
    /// size of the zone, once no candidate is placed in its zone: the zone
    /// must hold the digit, and no other cell can.
    pub proof fn lemma_only_number_admits(self, digits: Seq<u8>)
        requires
            self.well_formed(),
            self.admits(digits),
            self.all_defined(),
            self.candidates_in_range(),
            self.numbers_in_zone() is None,
        ensures
            self.only_number_in_zone() matches Some(o) ==> o.0.admits(digits),
    {
        if self.only_number_in_zone() is Some {
            lemma_first(self.zones.len() as int, self.zone_settles());
            let z = first(self.zones.len() as int, self.zone_settles()).unwrap();
            assert(self.zone_settles()(z));
            lemma_first(10, self.digit_settles(z));
            let d = first(10, self.digit_settles(z)).unwrap() as u8;
            assert(self.digit_settles(z)(d as int));
            let members = self.zones[z].members;
            let h = self.holds(z, d);
            lemma_first(members.len() as int, h);
            let m = self.sole_holder(z, d).unwrap();
            assert(h(m));
            let position = members[m];
            self.lemma_candidates_on(position);
            let k = self.lemma_cell_of_member(z, m);
            let set = self.candidates(k).unwrap();
            assert(self.cells[k].content.allows(d));
            self.lemma_zone_index(z, self.zones[z].c_zone);
            let other = self.lemma_zone_holds_each_digit(digits, z, d as int);
            let j = self.lemma_cell_of_member(z, other);
            assert(self.cells[j].content.allows(digits[j]));
            if self.cells[j].content is Number {
                // The digit would be placed in the zone of cell `k`.
                let y = self.lemma_zone_of_cell(k);
                self.lemma_numbers_among(members, members.len());
                set.lemma_members_are_digits(d);
                assert(set@.contains(d) == set.spec_contains(d));
                assert(0 <= other < members.len() && self.number_on(members[other]) == Some(d));
                set.lemma_strike(self.placed_in_zone(k));
                assert(set@.intersect(self.placed_in_zone(k)@).contains(d));
                lemma_first(self.cells.len() as int, self.zone_strikes());
                assert(self.zone_strikes()(k));
            } else {
                assert(h(other));
                if other < m {
                    assert(!h(other));
                }
            }
            assert(other == m);
            self.lemma_with_content_admits(digits, k, CellContent::Number(d));
        }
    }
}

impl GridView {
    /// A grid with less left open admits no solution that the grid before
    /// did not admit; so it admits one at most if the grid before did.
    pub proof fn lemma_narrowed_admits(self, after: GridView, digits: Seq<u8>)
        requires
            self.narrows_to(after),
            after.admits(digits),
        ensures
            self.admits(digits),
    {
        assert(after.same_shape(self)) by {
            assert forall|i: int| 0 <= i < after.cells.len() implies (#[trigger] self.cells[i]).c_zone
                == after.cells[i].c_zone && self.cells[i].line_column
                == after.cells[i].line_column by {
                assert(after.cells[i].c_zone == self.cells[i].c_zone);
            }
        }
        after.lemma_solved_by_shape(self, digits);
        assert forall|i: int| 0 <= i < self.cells.len() implies self.cells[i].content.allows(
            #[trigger] digits[i],
        ) by {
            assert(after.cells[i].content.allows(digits[i]));
        }
    }

    /// A grid with less left open than a grid with one solution at most
    /// admits one solution at most.
    pub proof fn lemma_narrowed_decided(self, after: GridView)
        requires
            self.narrows_to(after),
            self.decided(),
        ensures
            after.decided(),
    {
        assert forall|a: Seq<u8>, b: Seq<u8>| after.admits(a) && after.admits(b) implies a
            == b by {
            self.lemma_narrowed_admits(after, a);
            self.lemma_narrowed_admits(after, b);
        }
    }
}

impl SolverView {
    /// The solver made to try digit `n` in cell `i`, one of its candidates, is
    /// in order if its maker is, and its grid is the grid of its maker with
    /// less left open.
    pub proof fn lemma_trial(self, i: int, n: u8)
        requires
            self.sound(),
            self.seeded,
            self.grid.zones_small(),
            0 <= i < self.grid.cells.len(),
            self.grid.candidates(i) matches Some(set) && set@.contains(n),
        ensures
            self.trial(i, n).sound(),
            self.trial(i, n).grid.zones_small(),
            self.grid.narrows_to(self.trial(i, n).grid),
    {
        let after = self.trial(i, n).grid;
        assert(self.grid.refines(i, CellContent::Number(n)));
        assert(self.grid.refined_to(after));
        self.grid.lemma_refined(after);
        self.grid.lemma_same_shape(after);
        assert(after.candidates_in_range()) by {
            assert forall|k: int, d: u8|
                0 <= k < after.cells.len() && after.cells[k].content is PossibleNumbers
                    && #[trigger] after.cells[k].content.allows(d) implies 1 <= d
                <= after.zone_size(after.cells[k].c_zone) by {
                assert(self.grid.cells[k].content.allows(d));
            }
        }
    }

    /// The digits of the grid that a trial left solved are a solution that
    /// the grid of the maker admits, with the digit tried in the cell tried.
    pub proof fn lemma_trial_found(self, i: int, n: u8)
        requires
            self.sound(),
            self.seeded,
            self.grid.zones_small(),
            0 <= i < self.grid.cells.len(),
            self.grid.candidates(i) matches Some(set) && set@.contains(n),
            self.trial(i, n).run().1 == Ok::<bool, SolvingError>(true),
            exists|digits: Seq<u8>| self.grid.admits(digits),
        ensures
            self.grid.admits(self.trial(i, n).run().0.grid.digits()),
            self.trial(i, n).run().0.grid.digits()[i] == n,
    {
        let g = self.grid;
        let digits = choose|digits: Seq<u8>| g.admits(digits);
        let sub = self.trial(i, n);
        self.lemma_trial(i, n);
        sub.lemma_run();
        let last = sub.run().0.grid;
        let found = last.digits();
        assert(last.all_numbers());
        g.lemma_narrows_twice(sub.grid, last);
        g.lemma_same_shape(last);
        assert forall|k: int| 0 <= k < g.cells.len() implies g.cells[k].content.allows(
            #[trigger] found[k],
        ) && 1 <= found[k] <= g.zone_size(g.cells[k].c_zone) by {
            assert(last.cells[k].content is Number);
            assert(last.cells[k].content.allows(found[k]));
            assert(g.cells[k].content.allows(found[k]));
            assert(g.cells[k].content.allows(digits[k]));
            assert(last.cells[k].c_zone == g.cells[k].c_zone);
        }
        assert forall|a: int, b: int|
            0 <= a < g.cells.len() && 0 <= b < g.cells.len() && a != b && g.cells[a].c_zone
                == g.cells[b].c_zone implies #[trigger] found[a] != #[trigger] found[b] by {
            assert(last.cells[a].content is Number);
            assert(last.cells[a].c_zone == g.cells[a].c_zone);
            assert(last.cells[b].c_zone == g.cells[b].c_zone);
            assert(!last.same_digit(a, b));
        }
        assert forall|a: int, b: int|
            0 <= a < g.cells.len() && 0 <= b < g.cells.len() && g.cells[a].line_column.touches(
                g.cells[b].line_column,
            ) implies #[trigger] found[a] != #[trigger] found[b] by {
            assert(last.cells[a].content is Number);
            assert(last.cells[a].line_column == g.cells[a].line_column);
            assert(last.cells[b].line_column == g.cells[b].line_column);
            assert(!last.same_digit(a, b));
        }
        assert(sub.grid.cells[i].content.allows(found[i])) by {
            assert(last.cells[i].content is Number);
            assert(last.cells[i].content.allows(found[i]));
        }
    }

    /// The solver is in order, works on a puzzle whose zones have nine cells
    /// at most, and its grid admits the solution `digits`.
    pub open spec fn solvable_by(self, digits: Seq<u8>) -> bool {
        &&& self.sound()
        &&& self.grid.zones_small()
        &&& self.grid.admits(digits)
    }

    /// On a puzzle that has a solution, a step reports no contradiction and
    /// leaves a puzzle that has a solution: the one given, unless a
    /// candidate was tried and led to another. After the step the digits
    /// obey the rules of the puzzle.
    pub proof fn lemma_step_keeps_solvable(self, digits: Seq<u8>) -> (kept: Seq<u8>)
        requires
            self.solvable_by(digits),
        ensures
            self.step().1 is Ok,
            self.step().0.solvable_by(kept),
            self.step().0.grid.digits_lawful(),
            self.step().1 matches Ok(action) && !(action is TryAndSolve) ==> kept == digits,
        decreases self.budget(), self.unseeded(), self.grid.rank(), 1nat,
    {
        let g = self.grid;
        let next = self.step().0;
        g.lemma_admitted_passes_check(digits, self.seeded);
        self.lemma_step();
        self.lemma_step_sound();
        self.lemma_rule_refines();
        g.lemma_same_shape(next.grid);
        let mut kept = digits;
        if !self.seeded {
            g.lemma_seeded_admits(digits);
        } else if !g.all_numbers() && self.rule() is Some {
            g.lemma_simple_rules_admit(digits);
            g.lemma_pair_rule_admits(digits);
            if g.single_possible_number() is None && g.numbers_in_zone() is None {
                g.lemma_only_number_admits(digits);
            }
            if g.single_possible_number() is None && g.numbers_in_zone() is None
                && g.only_number_in_zone() is None && g.numbers_neighboring() is None
                && g.dual_values_pair() is None {
                kept = self.lemma_try_keeps_solvable(digits);
            }
        }
        next.grid.lemma_admitted_passes_check(kept, next.seeded);
        kept
    }

    /// Trying a candidate on a puzzle that has a solution leaves a puzzle
    /// that has one: where the candidate led to a contradiction, no solution
    /// gives it to the cell; where it led to a solved grid, that grid is a
    /// solution.
    pub proof fn lemma_try_keeps_solvable(self, digits: Seq<u8>) -> (kept: Seq<u8>)
        requires
            self.solvable_by(digits),
            self.seeded,
            self.try_and_see() is Some,
        ensures
            self.try_and_see().unwrap().0.admits(kept),
            self.try_and_see().unwrap().1 is TryAndFail || self.try_and_see().unwrap().1 is TryAndSolve,
            self.try_and_see().unwrap().1 is TryAndFail ==> kept == digits,
            self.try_and_see().unwrap().1 is TryAndSolve && self.grid.decided() ==> kept
                == digits,
        decreases self.budget(), self.unseeded(), self.grid.rank(), 0nat,
    {
        let g = self.grid;
        let n_cells = g.cells.len() as int;
        lemma_first(n_cells, self.cell_decides());
        let i = first(n_cells, self.cell_decides()).unwrap();
        assert(self.cell_decides()(i));
        lemma_first(2, self.trial_decides(i));
        let t = first(2, self.trial_decides(i)).unwrap();
        assert(self.trial_decides(i)(t));
        let set = g.candidates(i).unwrap();
        set.lemma_few();
        set.lemma_as_seq();
        let tried = self.trial_digit(i, t);
        let other = self.trial_digit(i, 1 - t);
        assert(set.spec_as_seq().contains(tried));
        assert(g.cells[i].content.allows(digits[i]));
        let sub = self.trial(i, tried);
        self.lemma_trial(i, tried);
        if sub.run().1 is Err {
            if digits[i] == tried {
                g.lemma_with_content_admits(digits, i, CellContent::Number(tried));
                sub.lemma_run_keeps_solvable(digits);
            }
            g.lemma_with_content_admits(digits, i, CellContent::Number(other));
            digits
        } else {
            assert(sub.run().1 != Ok::<bool, SolvingError>(false));
            assert(sub.run().1 == Ok::<bool, SolvingError>(true)) by {
                match sub.run().1 {
                    Ok(solved) => {
                        assert(solved);
                    },
                    Err(e) => {},
                }
            }
            self.lemma_trial_found(i, tried);
            let found = sub.run().0.grid.digits();
            g.lemma_with_content_admits(found, i, CellContent::Number(tried));
            found
        }
    }

    /// Solving a puzzle that has a solution reports no contradiction and
    /// ends on a puzzle that has a solution, with digits that obey the
    /// rules; where it ends with every cell filled, the grid holds that
    /// solution. For a puzzle with one solution only it is the one given.
    pub proof fn lemma_run_keeps_solvable(self, digits: Seq<u8>) -> (kept: Seq<u8>)
        requires
            self.solvable_by(digits),
        ensures
            self.run().1 is Ok,
            self.run().0.solvable_by(kept),
            self.run().0.grid.digits_lawful(),
            self.run().1 == Ok::<bool, SolvingError>(true) ==> self.run().0.grid.digits() == kept,
            self.grid.decided() ==> kept == digits,
        decreases self.budget(), self.unseeded(), self.grid.rank(), 2nat,
    {
        let next = self.step().0;
        self.lemma_step();
        let after_step = self.lemma_step_keeps_solvable(digits);
        self.lemma_run_steps();
        self.lemma_try_refines();
        if self.grid.decided() {
            self.grid.lemma_narrowed_admits(next.grid, after_step);
            self.grid.lemma_narrowed_decided(next.grid);
        }
        match self.step().1 {
            Ok(action) => {
                if action != ActionView::Solved && action != ActionView::NoAction {
                    next.lemma_run_keeps_solvable(after_step)
                } else {
                    if action == ActionView::Solved {
                        assert(self.grid.digits() =~= digits) by {
                            assert forall|k: int| 0 <= k < digits.len() implies self.grid.digits()[k]
                                == digits[k] by {
                                assert(self.grid.cells[k].content is Number);
                                assert(self.grid.cells[k].content.allows(digits[k]));
                            }
                        }
                    }
                    after_step
                }
            },
            Err(e) => digits,
        }
    }
}

} // verus!
