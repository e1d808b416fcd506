//! The propagation rules, as functions from a grid to the grid after the
//! rule has fired once and the action that it reports.
//!
//! Each rule scans the grid in a fixed order (cells and zones in the order
//! in which they were first named, digits in ascending order) and fires at
//! the first place where it applies, so that solving a grid always takes the
//! same steps.
use crate::action::ActionView;
use crate::grid::{Cell, CellContent, GridView};
use crate::line_column::LineColumn;
use crate::search::{first, lemma_first};
use crate::simple_09_set::Simple09Set;
use vstd::prelude::*;

verus! {

/// The digits `1..=n`.
pub open spec fn full_set(n: nat) -> Simple09Set
    decreases n,
{
    if n == 0 {
        Simple09Set::spec_empty()
    } else {
        full_set((n - 1) as nat).spec_insert(n as u8)
    }
}

/// Where the second cell of a pair lies, seen from the first, in the `e`-th
/// of the twelve patterns of the pair rule.
pub open spec fn pair_offset(e: int) -> (int, int) {
    if e < 4 {
        (0, 1)
    } else if e < 6 {
        (1, -1)
    } else if e < 10 {
        (1, 0)
    } else {
        (1, 1)
    }
}

/// Where the cell lies that the `e`-th pattern of the pair rule strikes
/// digits from, seen from the first cell of the pair. It touches both cells
/// of the pair.
pub open spec fn target_offset(e: int) -> (int, int) {
    if e == 0 {
        (-1, 0)
    } else if e == 1 {
        (-1, 1)
    } else if e == 2 {
        (1, 0)
    } else if e == 3 {
        (1, 1)
    } else if e == 4 {
        (0, -1)
    } else if e == 5 {
        (1, 0)
    } else if e == 6 {
        (0, -1)
    } else if e == 7 {
        (0, 1)
    } else if e == 8 {
        (1, -1)
    } else if e == 9 {
        (1, 1)
    } else if e == 10 {
        (0, 1)
    } else {
        (1, 0)
    }
}

impl CellContent {
    /// How far the content is from a digit: 0 for a digit, one more than the
    /// number of candidates for a cell with candidates, 12 for a cell not yet
    /// looked at.
    pub open spec fn weight(self) -> nat {
        match self {
            CellContent::Undefined => 12,
            CellContent::Number(_) => 0,
            CellContent::PossibleNumbers(set) => 1 + set@.len(),
        }
    }
}

impl GridView {
    /// The candidates of cell `i`, if it holds candidates.
    pub open spec fn candidates(self, i: int) -> Option<Simple09Set> {
        match self.cells[i].content {
            CellContent::PossibleNumbers(set) => Some(set),
            _ => None,
        }
    }

    /// Every cell holds a digit.
    pub open spec fn all_numbers(self) -> bool {
        forall|i: int|
            0 <= i < self.cells.len() ==> (#[trigger] self.cells[i]).content is Number
    }

    /// Sum of the weights of the first `n` cells.
    pub open spec fn rank_below(self, n: nat) -> nat
        decreases n,
    {
        if n == 0 {
            0
        } else {
            self.rank_below((n - 1) as nat) + self.cells[n - 1].content.weight()
        }
    }

    /// How far the grid is from being filled: the sum of the weights of its
    /// cells. Every rule that fires lowers it.
    pub open spec fn rank(self) -> nat {
        self.rank_below(self.cells.len())
    }

    /// Cell `i` as the first step leaves it: a cell without content gets the
    /// digits from 1 to the size of its zone as candidates.
    pub open spec fn seeded_cell(self, i: int) -> Cell {
        if self.cells[i].content is Undefined {
            Cell {
                c_zone: self.cells[i].c_zone,
                line_column: self.cells[i].line_column,
                content: CellContent::PossibleNumbers(
                    full_set(self.zone_size(self.cells[i].c_zone)),
                ),
            }
        } else {
            self.cells[i]
        }
    }

    /// The grid as the first step leaves it.
    pub open spec fn seeded(self) -> GridView {
        GridView { cells: Seq::new(self.cells.len(), |i: int| self.seeded_cell(i)), ..self }
    }

    /// Cell `i` has exactly one candidate.
    pub open spec fn single(self) -> spec_fn(int) -> bool {
        |i: int| self.candidates(i) matches Some(set) && set@.len() == 1
    }

    /// First rule: the first cell with a single candidate takes it as its
    /// digit.
    pub open spec fn single_possible_number(self) -> Option<(GridView, ActionView)> {
        match first(self.cells.len() as int, self.single()) {
            Some(i) => {
                let n = self.candidates(i).unwrap().spec_as_seq()[0];
                Some(
                    (
                        self.with_content(i, CellContent::Number(n)),
                        ActionView::SinglePossibleNumber(self.cells[i].line_column, n),
                    ),
                )
            },
            None => None,
        }
    }

    /// The digits placed in the zone of cell `i`.
    pub open spec fn placed_in_zone(self, i: int) -> Simple09Set {
        match self.zone_index(self.cells[i].c_zone) {
            Some(z) => self.numbers_among(self.zones[z].members, self.zones[z].members.len()),
            None => Simple09Set::spec_empty(),
        }
    }

    /// Cell `i` has a candidate that is placed in its zone.
    pub open spec fn zone_strikes(self) -> spec_fn(int) -> bool {
        |i: int|
            self.candidates(i) matches Some(set) && set.spec_intersection(
                self.placed_in_zone(i),
            )@ != Set::<u8>::empty()
    }

    /// Second rule: the first cell with a candidate that is placed in its
    /// zone loses the candidates that are.
    pub open spec fn numbers_in_zone(self) -> Option<(GridView, ActionView)> {
        match first(self.cells.len() as int, self.zone_strikes()) {
            Some(i) => {
                let set = self.candidates(i).unwrap();
                let gone = set.spec_intersection(self.placed_in_zone(i));
                Some(
                    (
                        self.with_content(i, CellContent::PossibleNumbers(set.spec_without(gone))),
                        ActionView::NumbersInZone(
                            self.cells[i].line_column,
                            self.cells[i].c_zone,
                            gone.spec_as_seq(),
                        ),
                    ),
                )
            },
            None => None,
        }
    }

    /// Member `m` of zone `z` has `digit` among its candidates.
    pub open spec fn holds(self, z: int, digit: u8) -> spec_fn(int) -> bool {
        |m: int|
            self.candidates_on(self.zones[z].members[m]) matches Some(set) && set@.contains(
                digit,
            )
    }

    /// The one member of zone `z` that has `digit` among its candidates, if
    /// there is exactly one.
    pub open spec fn sole_holder(self, z: int, digit: u8) -> Option<int> {
        match first(self.zones[z].members.len() as int, self.holds(z, digit)) {
            Some(m) => if forall|k: int|
                m < k < self.zones[z].members.len() ==> !#[trigger] self.holds(z, digit)(k) {
                Some(m)
            } else {
                None
            },
            None => None,
        }
    }

    /// Exactly one member of zone `z` has the digit `d` among its candidates.
    pub open spec fn digit_settles(self, z: int) -> spec_fn(int) -> bool {
        |d: int| self.sole_holder(z, d as u8) is Some
    }

    /// Zone `z` has a digit that exactly one member has among its candidates.
    pub open spec fn zone_settles(self) -> spec_fn(int) -> bool {
        |z: int| first(10, self.digit_settles(z)) is Some
    }

    /// Third rule: in the first zone that has such a digit, the smallest
    /// digit that a single member can hold becomes the digit of that member.
    pub open spec fn only_number_in_zone(self) -> Option<(GridView, ActionView)> {
        match first(self.zones.len() as int, self.zone_settles()) {
            Some(z) => {
                let d = first(10, self.digit_settles(z)).unwrap() as u8;
                let position = self.zones[z].members[self.sole_holder(z, d).unwrap()];
                Some(
                    (
                        self.with_content(
                            self.cell_index(position).unwrap(),
                            CellContent::Number(d),
                        ),
                        ActionView::OnlyNumberInZone(self.zones[z].c_zone, position, d),
                    ),
                )
            },
            None => None,
        }
    }

    /// The digits placed around cell `i`.
    pub open spec fn placed_around(self, i: int) -> Simple09Set {
        self.numbers_among(self.around(i), self.around(i).len())
    }

    /// Cell `i` has a candidate that is placed in a cell around it.
    pub open spec fn neighbor_strikes(self) -> spec_fn(int) -> bool {
        |i: int|
            self.candidates(i) matches Some(set) && set.spec_intersection(
                self.placed_around(i),
            )@ != Set::<u8>::empty()
    }

    /// Fourth rule: the first cell with a candidate that is placed around it
    /// loses the candidates that are.
    pub open spec fn numbers_neighboring(self) -> Option<(GridView, ActionView)> {
        match first(self.cells.len() as int, self.neighbor_strikes()) {
            Some(i) => {
                let set = self.candidates(i).unwrap();
                let gone = set.spec_intersection(self.placed_around(i));
                Some(
                    (
                        self.with_content(i, CellContent::PossibleNumbers(set.spec_without(gone))),
                        ActionView::NumbersNeighboring(
                            self.cells[i].line_column,
                            gone.spec_as_seq(),
                        ),
                    ),
                )
            },
            None => None,
        }
    }

    /// The second cell of the `e`-th pattern around cell `i`.
    pub open spec fn pair_position(self, i: int, e: int) -> Option<LineColumn> {
        self.cells[i].line_column.spec_shifted(pair_offset(e).0, pair_offset(e).1)
    }

    /// The cell that the `e`-th pattern around cell `i` strikes digits from.
    pub open spec fn target_position(self, i: int, e: int) -> Option<LineColumn> {
        self.cells[i].line_column.spec_shifted(target_offset(e).0, target_offset(e).1)
    }

    /// Cell `i` has two candidates, the second cell of pattern `e` has the
    /// same two, and the target cell of the pattern has one of them among
    /// its candidates.
    pub open spec fn pair_hits(self, i: int) -> spec_fn(int) -> bool {
        |e: int|
            {
                &&& self.candidates(i) matches Some(pair)
                &&& pair@.len() == 2
                &&& self.pair_position(i, e) matches Some(second)
                &&& self.candidates_on(second) == Some(pair)
                &&& self.target_position(i, e) matches Some(target)
                &&& self.candidates_on(target) matches Some(set)
                &&& set.spec_intersection(pair)@ != Set::<u8>::empty()
            }
    }

    /// One of the twelve patterns around cell `i` applies.
    pub open spec fn pair_strikes(self) -> spec_fn(int) -> bool {
        |i: int| first(12, self.pair_hits(i)) is Some
    }

    /// Fifth rule: two cells that share one pair of candidates will hold
    /// these two digits, so a cell that touches both can hold neither. At the
    /// first cell and the first pattern that apply, the target cell loses
    /// the digits of the pair.
    pub open spec fn dual_values_pair(self) -> Option<(GridView, ActionView)> {
        match first(self.cells.len() as int, self.pair_strikes()) {
            Some(i) => {
                let e = first(12, self.pair_hits(i)).unwrap();
                let pair = self.candidates(i).unwrap();
                let second = self.pair_position(i, e).unwrap();
                let target = self.target_position(i, e).unwrap();
                let set = self.candidates_on(target).unwrap();
                let gone = set.spec_intersection(pair);
                Some(
                    (
                        self.with_content(
                            self.cell_index(target).unwrap(),
                            CellContent::PossibleNumbers(set.spec_without(gone)),
                        ),
                        ActionView::DualValuesPair(
                            self.cells[i].line_column,
                            second,
                            target,
                            gone.spec_as_seq(),
                        ),
                    ),
                )
            },
            None => None,
        }
    }
}

impl GridView {
    /// `other` has the zones, the box and the cells of `self`, each cell at
    /// its place and in its zone; only what the cells hold may differ.
    pub open spec fn same_shape(self, other: GridView) -> bool {
        &&& other.low == self.low
        &&& other.high == self.high
        &&& other.zones == self.zones
        &&& other.cells.len() == self.cells.len()
        &&& forall|i: int|
            0 <= i < self.cells.len() ==> (#[trigger] other.cells[i]).c_zone
                == self.cells[i].c_zone && other.cells[i].line_column
                == self.cells[i].line_column
    }

    /// `other` is `self` with less left open: the same shape, and no cell
    /// allows a digit in `other` that it does not allow in `self`.
    pub open spec fn narrows_to(self, other: GridView) -> bool {
        &&& self.same_shape(other)
        &&& forall|i: int, d: u8|
            0 <= i < self.cells.len() && #[trigger] other.cells[i].content.allows(d)
                ==> self.cells[i].content.allows(d)
    }

    /// Cell `i` holds candidates, and `content` settles it on one of them or
    /// leaves it some of them, but not all.
    pub open spec fn refines(self, i: int, content: CellContent) -> bool {
        &&& 0 <= i < self.cells.len()
        &&& self.cells[i].content matches CellContent::PossibleNumbers(set)
        &&& match content {
            CellContent::Number(n) => set@.contains(n),
            CellContent::PossibleNumbers(rest) => rest@.subset_of(set@) && rest@.len()
                < set@.len(),
            CellContent::Undefined => false,
        }
    }

    /// `after` is `self` with one cell refined.
    pub open spec fn refined_to(self, after: GridView) -> bool {
        exists|i: int, content: CellContent|
            self.refines(i, content) && after == self.with_content(i, content)
    }

    /// The sum over the first `n` cells changes by the difference of the
    /// weights once cell `i` is among them.
    proof fn lemma_rank_below_with_content(self, i: int, content: CellContent, n: nat)
        requires
            0 <= i < self.cells.len(),
            n <= self.cells.len(),
        ensures
            self.with_content(i, content).rank_below(n) + (if n > i {
                self.cells[i].content.weight()
            } else {
                0
            }) == self.rank_below(n) + (if n > i {
                content.weight()
            } else {
                0
            }),
        decreases n,
    {
        if n > 0 {
            self.lemma_rank_below_with_content(i, content, (n - 1) as nat);
        }
    }

    /// Replacing what a cell holds changes the rank by the difference of the
    /// weights.
    pub proof fn lemma_rank_with_content(self, i: int, content: CellContent)
        requires
            0 <= i < self.cells.len(),
        ensures
            self.with_content(i, content).rank() + self.cells[i].content.weight() == self.rank()
                + content.weight(),
    {
        self.lemma_rank_below_with_content(i, content, self.cells.len());
    }

    /// Refining a cell keeps the shape of the grid, leaves less open and
    /// lowers the rank.
    pub proof fn lemma_refined(self, after: GridView)
        requires
            self.refined_to(after),
        ensures
            self.narrows_to(after),
            after.rank() < self.rank(),
    {
        let (i, content) = choose|i: int, content: CellContent|
            self.refines(i, content) && after == self.with_content(i, content);
        self.lemma_rank_with_content(i, content);
        assert(self.same_shape(after));
    }

    /// Where the cell at `position` holds candidates, the index found for
    /// the position is that of a cell with these candidates.
    pub proof fn lemma_candidates_on(self, position: LineColumn)
        requires
            self.candidates_on(position) is Some,
        ensures
            self.cell_index(position) is Some,
            0 <= self.cell_index(position).unwrap() < self.cells.len(),
            self.candidates(self.cell_index(position).unwrap()) == self.candidates_on(position),
            self.cells[self.cell_index(position).unwrap()].line_column == position,
    {
        lemma_first(self.cells.len() as int, crate::grid::lies_at(self.cells, position));
    }

    /// Where the cell at `position` holds a digit, the index found for the
    /// position is that of a cell with this digit.
    pub proof fn lemma_number_on(self, position: LineColumn)
        requires
            self.number_on(position) is Some,
        ensures
            self.cell_index(position) is Some,
            0 <= self.cell_index(position).unwrap() < self.cells.len(),
            self.cells[self.cell_index(position).unwrap()].content == CellContent::Number(
                self.number_on(position).unwrap(),
            ),
            self.cells[self.cell_index(position).unwrap()].line_column == position,
    {
        lemma_first(self.cells.len() as int, crate::grid::lies_at(self.cells, position));
    }

    /// Each of the first five rules, where it fires, refines one cell.
    pub proof fn lemma_rules_refine(self)
        ensures
            self.single_possible_number() matches Some(o) ==> self.refined_to(o.0),
            self.numbers_in_zone() matches Some(o) ==> self.refined_to(o.0),
            self.only_number_in_zone() matches Some(o) ==> self.refined_to(o.0),
            self.numbers_neighboring() matches Some(o) ==> self.refined_to(o.0),
            self.dual_values_pair() matches Some(o) ==> self.refined_to(o.0),
    {
        let n = self.cells.len() as int;
        if self.single_possible_number() is Some {
            lemma_first(n, self.single());
            let i = first(n, self.single()).unwrap();
            assert(self.single()(i));
            let set = self.candidates(i).unwrap();
            set.lemma_as_seq();
            let d = set.spec_as_seq()[0];
            assert(set.spec_as_seq().contains(d));
            assert(self.refines(i, CellContent::Number(d)));
        }
        if self.numbers_in_zone() is Some {
            lemma_first(n, self.zone_strikes());
            let i = first(n, self.zone_strikes()).unwrap();
            assert(self.zone_strikes()(i));
            let set = self.candidates(i).unwrap();
            set.lemma_strike(self.placed_in_zone(i));
            let gone = set.spec_intersection(self.placed_in_zone(i));
            assert(self.refines(i, CellContent::PossibleNumbers(set.spec_without(gone))));
        }
        if self.only_number_in_zone() is Some {
            lemma_first(self.zones.len() as int, self.zone_settles());
            let z = first(self.zones.len() as int, self.zone_settles()).unwrap();
            assert(self.zone_settles()(z));
            lemma_first(10, self.digit_settles(z));
            let d = first(10, self.digit_settles(z)).unwrap();
            assert(self.digit_settles(z)(d));
            lemma_first(self.zones[z].members.len() as int, self.holds(z, d as u8));
            let m = self.sole_holder(z, d as u8).unwrap();
            assert(self.holds(z, d as u8)(m));
            let position = self.zones[z].members[m];
            self.lemma_candidates_on(position);
            assert(self.refines(self.cell_index(position).unwrap(), CellContent::Number(d as u8)));
        }
        if self.numbers_neighboring() is Some {
            lemma_first(n, self.neighbor_strikes());
            let i = first(n, self.neighbor_strikes()).unwrap();
            assert(self.neighbor_strikes()(i));
            let set = self.candidates(i).unwrap();
            set.lemma_strike(self.placed_around(i));
            let gone = set.spec_intersection(self.placed_around(i));
            assert(self.refines(i, CellContent::PossibleNumbers(set.spec_without(gone))));
        }
        if self.dual_values_pair() is Some {
            lemma_first(n, self.pair_strikes());
            let i = first(n, self.pair_strikes()).unwrap();
            assert(self.pair_strikes()(i));
            lemma_first(12, self.pair_hits(i));
            let e = first(12, self.pair_hits(i)).unwrap();
            assert(self.pair_hits(i)(e));
            let pair = self.candidates(i).unwrap();
            let target = self.target_position(i, e).unwrap();
            let set = self.candidates_on(target).unwrap();
            self.lemma_candidates_on(target);
            set.lemma_strike(pair);
            let gone = set.spec_intersection(pair);
            assert(self.refines(
                self.cell_index(target).unwrap(),
                CellContent::PossibleNumbers(set.spec_without(gone)),
            ));
        }
    }
}

impl GridView {
    /// `other` has the shape of `self` and the same digits in the same
    /// cells.
    pub open spec fn same_digits(self, other: GridView) -> bool {
        &&& self.same_shape(other)
        &&& forall|i: int|
            0 <= i < self.cells.len() && ((#[trigger] self.cells[i]).content is Number
                || other.cells[i].content is Number) ==> other.cells[i] == self.cells[i]
    }

    /// The first step and the rules that strike candidates place no digit
    /// and take none away.
    pub proof fn lemma_rules_keep_digits(self)
        ensures
            self.same_digits(self.seeded()),
            self.numbers_in_zone() matches Some(o) ==> self.same_digits(o.0),
            self.numbers_neighboring() matches Some(o) ==> self.same_digits(o.0),
            self.dual_values_pair() matches Some(o) ==> self.same_digits(o.0),
    {
        let n = self.cells.len() as int;
        if self.numbers_in_zone() is Some {
            lemma_first(n, self.zone_strikes());
            assert(self.zone_strikes()(first(n, self.zone_strikes()).unwrap()));
        }
        if self.numbers_neighboring() is Some {
            lemma_first(n, self.neighbor_strikes());
            assert(self.neighbor_strikes()(first(n, self.neighbor_strikes()).unwrap()));
        }
        if self.dual_values_pair() is Some {
            lemma_first(n, self.pair_strikes());
            let i = first(n, self.pair_strikes()).unwrap();
            assert(self.pair_strikes()(i));
            lemma_first(12, self.pair_hits(i));
            let e = first(12, self.pair_hits(i)).unwrap();
            assert(self.pair_hits(i)(e));
            self.lemma_candidates_on(self.target_position(i, e).unwrap());
        }
    }

    /// Leaving less open twice is leaving less open.
    pub proof fn lemma_narrows_twice(self, middle: GridView, last: GridView)
        requires
            self.narrows_to(middle),
            middle.narrows_to(last),
        ensures
            self.narrows_to(last),
    {
        assert forall|i: int, d: u8|
            0 <= i < self.cells.len() && #[trigger] last.cells[i].content.allows(d)
            implies self.cells[i].content.allows(d) by {
            assert(middle.cells[i].content.allows(d));
        }
        assert forall|i: int| 0 <= i < self.cells.len() implies (#[trigger] last.cells[i]).c_zone
            == self.cells[i].c_zone && last.cells[i].line_column
            == self.cells[i].line_column by {
            assert(middle.cells[i].c_zone == self.cells[i].c_zone);
        }
    }
}

} // verus!
