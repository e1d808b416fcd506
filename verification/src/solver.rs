//! The solver: propagation rules applied one step at a time, and a bounded
//! search on the cells with two candidates where the rules give nothing.
use crate::action::{ActionView, DifficultyLevel, SolvingAction, SolvingError};
use crate::grid::{CellContent, Grid, GridView};
use crate::neighboring_line_columns::NeighboringLineColumns;
use crate::rules::full_set;
use crate::search::{first, is_first, lemma_first, lemma_first_is, lemma_first_none, never};
use crate::simple_09_set::Simple09Set;
use vstd::prelude::*;

verus! {

/// Depth of the search that a solver allows itself where no option says
/// otherwise.
pub const DEFAULT_MAX_TRY_AND_SEE_RECURSION_LEVEL: i32 = 3;

/// Options of [`Solver::solve`].
pub enum SolvingOption {
    /// The depth up to which the solver may try a candidate and see where it
    /// leads. With 0 the solver never tries; very hard grids need 3.
    MaxTryAndSeeRecursionLevel(i32),
}

/// Mathematical value of a [`Solver`].
pub ghost struct SolverView {
    /// The grid as solved so far.
    pub grid: GridView,
    /// Whether the cells without content have been given their candidates.
    pub seeded: bool,
    /// The hardest rule used so far.
    pub difficulty: DifficultyLevel,
    /// Depth up to which the solver may try candidates.
    pub max_level: int,
    /// Depth at which this solver works: 0 for a solver of its own, one more
    /// than its maker for a solver made to try a candidate.
    pub level: int,
}

/// The depth that a list of options asks for: that of the first option that
/// names one, `default_level` where none does.
pub open spec fn spec_max_level(options: Seq<SolvingOption>, default_level: i32) -> i32 {
    if options.len() == 0 {
        default_level
    } else {
        match options[0] {
            SolvingOption::MaxTryAndSeeRecursionLevel(level) => level,
        }
    }
}

impl SolverView {
    /// How many levels of trying are left to the solver.
    pub open spec fn budget(self) -> nat {
        if self.max_level > self.level {
            (self.max_level - self.level) as nat
        } else {
            0
        }
    }

    /// 1 until the candidates are set, 0 from then on.
    pub open spec fn unseeded(self) -> nat {
        if self.seeded {
            0
        } else {
            1
        }
    }

    /// The step from `self` to `next` brought the grid nearer to its end: it
    /// set the candidates, or lowered the rank of the grid; and it left the
    /// depths alone.
    pub open spec fn progressed_to(self, next: SolverView) -> bool {
        &&& next.max_level == self.max_level
        &&& next.level == self.level
        &&& next.unseeded() < self.unseeded() || (next.unseeded() == self.unseeded()
            && next.grid.rank() < self.grid.rank())
    }

    /// The solver after a rule of level `level` has fired and left `grid`.
    pub open spec fn after_rule(self, grid: GridView, level: DifficultyLevel) -> SolverView {
        SolverView { grid, difficulty: self.difficulty.spec_at_least(level), ..self }
    }

    /// The solver that is made to see where digit `n` in cell `i` leads: one
    /// level deeper, on a grid of its own, starting afresh.
    pub open spec fn trial(self, i: int, n: u8) -> SolverView {
        SolverView {
            grid: self.grid.with_content(i, CellContent::Number(n)),
            seeded: false,
            difficulty: DifficultyLevel::Unknown,
            max_level: self.max_level,
            level: self.level + 1,
        }
    }

    /// The `t`-th candidate of cell `i`, in ascending order.
    pub open spec fn trial_digit(self, i: int, t: int) -> u8 {
        self.grid.candidates(i).unwrap().spec_as_seq()[t]
    }

    /// Trying the `t`-th candidate of cell `i` decides the cell: it leads to
    /// a contradiction or to a solved grid.
    pub open spec fn trial_decides(self, i: int) -> spec_fn(int) -> bool
        decreases self.budget(), self.unseeded(), self.grid.rank(), 0nat,
    {
        |t: int|
            self.level < self.max_level && self.trial(i, self.trial_digit(i, t)).run().1 != Ok::<
                bool,
                SolvingError,
            >(false)
    }

    /// Cell `i` has two candidates and trying one of them decides it.
    pub open spec fn cell_decides(self) -> spec_fn(int) -> bool
        decreases self.budget(), self.unseeded(), self.grid.rank(), 1nat,
    {
        |i: int|
            self.grid.candidates(i) matches Some(set) && set@.len() == 2 && first(
                2,
                self.trial_decides(i),
            ) is Some
    }

    /// Sixth rule, for a solver that has levels of trying left: in the first
    /// cell with two candidates of which one decides, the smaller such
    /// candidate is tried. Where it leads to a contradiction the cell takes
    /// the other candidate. Where it leads to a solved grid the cell takes
    /// the one tried, which is right for a puzzle that has one solution only.
    pub open spec fn try_and_see(self) -> Option<(GridView, ActionView)>
        decreases self.budget(), self.unseeded(), self.grid.rank(), 2nat,
    {
        if self.level >= self.max_level {
            None
        } else {
            match first(self.grid.cells.len() as int, self.cell_decides()) {
                Some(i) => {
                    let t = first(2, self.trial_decides(i)).unwrap();
                    let n = self.trial_digit(i, t);
                    let other = self.trial_digit(i, 1 - t);
                    let position = self.grid.cells[i].line_column;
                    if self.trial(i, n).run().1 is Err {
                        Some(
                            (
                                self.grid.with_content(i, CellContent::Number(other)),
                                ActionView::TryAndFail(position, n, other),
                            ),
                        )
                    } else {
                        Some(
                            (
                                self.grid.with_content(i, CellContent::Number(n)),
                                ActionView::TryAndSolve(position, n, other),
                            ),
                        )
                    }
                },
                None => None,
            }
        }
    }

    /// The rule that fires: the first of the six that applies, with its
    /// level.
    pub open spec fn rule(self) -> Option<((GridView, ActionView), DifficultyLevel)>
        decreases self.budget(), self.unseeded(), self.grid.rank(), 3nat,
    {
        if self.grid.single_possible_number() is Some {
            Some((self.grid.single_possible_number().unwrap(), DifficultyLevel::Easy))
        } else if self.grid.numbers_in_zone() is Some {
            Some((self.grid.numbers_in_zone().unwrap(), DifficultyLevel::Easy))
        } else if self.grid.only_number_in_zone() is Some {
            Some((self.grid.only_number_in_zone().unwrap(), DifficultyLevel::Easy))
        } else if self.grid.numbers_neighboring() is Some {
            Some((self.grid.numbers_neighboring().unwrap(), DifficultyLevel::Medium))
        } else if self.grid.dual_values_pair() is Some {
            Some((self.grid.dual_values_pair().unwrap(), DifficultyLevel::Hard))
        } else if self.try_and_see() is Some {
            Some((self.try_and_see().unwrap(), DifficultyLevel::VeryHard))
        } else {
            None
        }
    }

    /// One solving step: the solver after it, and what it reports.
    ///
    /// A grid with a contradiction is left alone and the contradiction is
    /// reported. The first step on a sound grid sets the candidates. A grid
    /// whose cells all hold a digit is solved. Else the first rule that
    /// applies fires once, and the difficulty rises to its level; where none
    /// applies nothing changes.
    pub open spec fn step(self) -> (SolverView, Result<ActionView, SolvingError>)
        decreases self.budget(), self.unseeded(), self.grid.rank(), 4nat,
    {
        match self.grid.contradiction(self.seeded) {
            Some(e) => (self, Err(e)),
            None => if !self.seeded {
                (
                    SolverView { grid: self.grid.seeded(), seeded: true, ..self },
                    Ok(ActionView::InitPossibleNumbers),
                )
            } else if self.grid.all_numbers() {
                (self, Ok(ActionView::Solved))
            } else {
                match self.rule() {
                    Some(((grid, action), level)) => (self.after_rule(grid, level), Ok(action)),
                    None => (self, Ok(ActionView::NoAction)),
                }
            },
        }
    }

    /// Steps until the grid is solved (`true`), no rule applies (`false`) or
    /// a contradiction shows: the solver at that moment, and the outcome.
    /// Every step that reports a rule brings the grid nearer to its end
    /// (`lemma_step`), so the last case below never comes.
    pub open spec fn run(self) -> (SolverView, Result<bool, SolvingError>)
        decreases self.budget(), self.unseeded(), self.grid.rank(), 5nat,
    {
        let (next, report) = self.step();
        match report {
            Err(e) => (next, Err(e)),
            Ok(ActionView::Solved) => (next, Ok(true)),
            Ok(ActionView::NoAction) => (next, Ok(false)),
            Ok(_) => if self.progressed_to(next) {
                next.run()
            } else {
                (next, Ok(false))
            },
        }
    }
}

impl SolverView {
    /// How a run goes on after its first step: it ends where the step
    /// reports a contradiction, a solved grid or no action, and is the run
    /// from the next solver where the step reports a rule.
    pub proof fn lemma_run_steps(self)
        ensures
            self.run() == match self.step().1 {
                Err(e) => (self.step().0, Err::<bool, SolvingError>(e)),
                Ok(ActionView::Solved) => (self.step().0, Ok::<bool, SolvingError>(true)),
                Ok(ActionView::NoAction) => (self.step().0, Ok::<bool, SolvingError>(false)),
                Ok(_) => self.step().0.run(),
            },
    {
        self.lemma_step();
    }

    /// The sixth rule, where it fires, refines one cell.
    pub proof fn lemma_try_refines(self)
        ensures
            self.try_and_see() matches Some(o) ==> self.grid.refined_to(o.0),
    {
        if self.try_and_see() is Some {
            let n = self.grid.cells.len() as int;
            lemma_first(n, self.cell_decides());
            let i = first(n, self.cell_decides()).unwrap();
            assert(self.cell_decides()(i));
            lemma_first(2, self.trial_decides(i));
            let t = first(2, self.trial_decides(i)).unwrap();
            let set = self.grid.candidates(i).unwrap();
            set.lemma_as_seq();
            let tried = self.trial_digit(i, t);
            let other = self.trial_digit(i, 1 - t);
            assert(set.spec_as_seq().contains(tried));
            assert(set.spec_as_seq().contains(other));
            assert(self.grid.refines(i, CellContent::Number(tried)));
            assert(self.grid.refines(i, CellContent::Number(other)));
        }
    }

    /// The rule that fires refines one cell.
    pub proof fn lemma_rule_refines(self)
        ensures
            self.rule() matches Some(o) ==> self.grid.refined_to(o.0.0) && o.0.1
                != ActionView::NoAction && o.0.1 != ActionView::Solved && o.1
                == o.0.1.difficulty(),
    {
        self.grid.lemma_rules_refine();
        self.lemma_try_refines();
        lemma_first(self.grid.cells.len() as int, self.cell_decides());
    }

    /// A step leaves the depths alone and opens nothing that was closed; a
    /// step that reports a contradiction, a solved grid or no action changes
    /// nothing; every other step brings the grid nearer to its end.
    pub proof fn lemma_step(self)
        ensures
            self.step().0.max_level == self.max_level,
            self.step().0.level == self.level,
            self.grid.narrows_to(self.step().0.grid),
            self.step().1 is Err || self.step().1 == Ok::<ActionView, SolvingError>(
                ActionView::Solved,
            ) || self.step().1 == Ok::<ActionView, SolvingError>(ActionView::NoAction)
                ==> self.step().0 == self,
            self.step().1 matches Ok(action) && action != ActionView::Solved && action
                != ActionView::NoAction ==> self.progressed_to(self.step().0),
    {
        self.lemma_rule_refines();
        if self.rule() is Some {
            self.grid.lemma_refined(self.rule().unwrap().0.0);
        }
        let seeded = self.grid.seeded();
        assert(self.grid.narrows_to(seeded)) by {
            assert forall|i: int, d: u8|
                0 <= i < self.grid.cells.len() && #[trigger] seeded.cells[i].content.allows(
                    d,
                ) implies self.grid.cells[i].content.allows(d) by {
                if self.grid.cells[i].content is Undefined {
                    let set = full_set(self.grid.zone_size(self.grid.cells[i].c_zone));
                    assert(set@.contains(d) == set.spec_contains(d));
                    set.lemma_members_are_digits(d);
                }
            }
        }
    }
}

impl SolverView {
    /// A run leaves the depths alone and opens nothing that was closed: no
    /// cell allows at its end a digit that it did not allow at its start.
    pub proof fn lemma_run_narrows(self)
        ensures
            self.run().0.max_level == self.max_level,
            self.run().0.level == self.level,
            self.grid.narrows_to(self.run().0.grid),
        decreases self.unseeded(), self.grid.rank(),
    {
        self.lemma_step();
        self.lemma_run_steps();
        let next = self.step().0;
        match self.step().1 {
            Ok(action) => {
                if action != ActionView::Solved && action != ActionView::NoAction {
                    next.lemma_run_narrows();
                    self.grid.lemma_narrows_twice(next.grid, next.run().0.grid);
                }
            },
            Err(e) => {},
        }
    }
}

/// The outcome of a check, from the contradiction that it looked for.
pub open spec fn check_result(found: Option<SolvingError>) -> Result<(), SolvingError> {
    match found {
        Some(e) => Err(e),
        None => Ok(()),
    }
}

/// The report of a step, with the action as a mathematical value.
pub open spec fn report_view(report: Result<SolvingAction, SolvingError>) -> Result<
    ActionView,
    SolvingError,
> {
    match report {
        Ok(action) => Ok(action@),
        Err(e) => Err(e),
    }
}

/// What a rule leaves behind: where it fired (`outcome` holds the grid after
/// it and the action), the solver has that grid and reports that action;
/// where it did not, nothing changed and no action is reported.
pub open spec fn rule_applied(
    before: SolverView,
    outcome: Option<(GridView, ActionView)>,
    after: SolverView,
    action: ActionView,
) -> bool {
    match outcome {
        Some((grid, fired)) => after == (SolverView { grid, ..before }) && action == fired,
        None => after == before && action == ActionView::NoAction,
    }
}

/// The offsets of the `e`-th pattern of the pair rule: that of the second
/// cell of the pair and that of the cell to strike digits from.
fn pair_pattern(e: u8) -> (r: ((i32, i32), (i32, i32)))
    requires
        e < 12,
    ensures
        r.0.0 == crate::rules::pair_offset(e as int).0,
        r.0.1 == crate::rules::pair_offset(e as int).1,
        r.1.0 == crate::rules::target_offset(e as int).0,
        r.1.1 == crate::rules::target_offset(e as int).1,
{
    if e == 0 {
        ((0, 1), (-1, 0))
    } else if e == 1 {
        ((0, 1), (-1, 1))
    } else if e == 2 {
        ((0, 1), (1, 0))
    } else if e == 3 {
        ((0, 1), (1, 1))
    } else if e == 4 {
        ((1, -1), (0, -1))
    } else if e == 5 {
        ((1, -1), (1, 0))
    } else if e == 6 {
        ((1, 0), (0, -1))
    } else if e == 7 {
        ((1, 0), (0, 1))
    } else if e == 8 {
        ((1, 0), (1, -1))
    } else if e == 9 {
        ((1, 0), (1, 1))
    } else if e == 10 {
        ((1, 1), (0, 1))
    } else {
        ((1, 1), (1, 0))
    }
}

/// A solver of tectonic grids. It works on a grid of its own, copied from
/// the grid that it was made for.
///
/// The solver expects a puzzle with exactly one solution
/// (`GridView::decided`). Its propagation rules hold for any puzzle, but
/// where it tries a candidate and the copy of the grid comes out solved, it
/// takes the candidate for the digit of the cell: that is right only if no
/// other solution exists. It also expects a sound grid
/// (`GridView::well_formed`); on any other grid it still does what
/// `SolverView::step` says, but that says little about the puzzle.
#[derive(Debug)]
pub struct Solver {
    /// The grid as solved so far.
    pub grid: Grid,
    /// Whether the cells without content have been given their candidates.
    pub init_cell_contents: bool,
    /// The hardest rule used so far.
    pub difficulty_level: DifficultyLevel,
    /// Depth up to which the solver may try candidates.
    pub max_try_and_see_recursion_level: i32,
    /// Depth at which this solver works.
    pub try_and_see_recursion_level: i32,
}

impl Default for Solver {
    /// A solver on the grid without cells, which may not try candidates.
    fn default() -> (r: Self)
        ensures
            r@ == (SolverView {
                grid: GridView::spec_empty(),
                seeded: false,
                difficulty: DifficultyLevel::Unknown,
                max_level: 0,
                level: 0,
            }),
    {
        Solver {
            grid: Grid::default(),
            init_cell_contents: false,
            difficulty_level: DifficultyLevel::default(),
            max_try_and_see_recursion_level: 0,
            try_and_see_recursion_level: 0,
        }
    }
}

impl View for Solver {
    type V = SolverView;

    open spec fn view(&self) -> SolverView {
        SolverView {
            grid: self.grid@,
            seeded: self.init_cell_contents,
            difficulty: self.difficulty_level,
            max_level: self.max_try_and_see_recursion_level as int,
            level: self.try_and_see_recursion_level as int,
        }
    }
}

impl Solver {
    /// A solver for `grid`, which it copies. Solving starts afresh: no
    /// candidates set, difficulty unknown, depth 0 of at most 3.
    #[must_use]
    pub fn new(grid: &Grid) -> (r: Self)
        ensures
            r@ == (SolverView {
                grid: grid@,
                seeded: false,
                difficulty: DifficultyLevel::Unknown,
                max_level: DEFAULT_MAX_TRY_AND_SEE_RECURSION_LEVEL as int,
                level: 0,
            }),
    {
        Solver {
            grid: grid.clone(),
            init_cell_contents: false,
            difficulty_level: DifficultyLevel::default(),
            max_try_and_see_recursion_level: DEFAULT_MAX_TRY_AND_SEE_RECURSION_LEVEL,
            try_and_see_recursion_level: 0,
        }
    }

    /// Whether every cell holds a digit.
    #[must_use]
    pub fn is_solved(&self) -> (r: bool)
        ensures
            r == self@.grid.all_numbers(),
    {
        let mut i: usize = 0;
        while i < self.grid.cells.len()
            invariant
                i <= self.grid.cells.len(),
                forall|j: int| 0 <= j < i ==> (#[trigger] self.grid@.cells[j]).content is Number,
            decreases self.grid.cells.len() - i,
        {
            match self.grid.cells[i].content {
                CellContent::Number(_) => {},
                _ => {
                    return false;
                },
            }
            i += 1;
        }
        true
    }

    /// Looks for a zone with more than nine cells.
    fn check_zone_too_long(&self) -> (r: Result<(), SolvingError>)
        ensures
            r == check_result(self@.grid.find_zone_too_long()),
    {
        let ghost g = self.grid@;
        let ghost p = g.zone_too_long();
        let mut z: usize = 0;
        while z < self.grid.zones.len()
            invariant
                z <= self.grid.zones.len(),
                g == self.grid@,
                p == g.zone_too_long(),
                never(z as int, p),
            decreases self.grid.zones.len() - z,
        {
            if self.grid.zones[z].set_line_column.len() > 9 {
                proof {
                    assert(p(z as int));
                    lemma_first_is(z as int, g.zones.len() as int, p);
                }
                return Err(SolvingError::ZoneTooLong(self.grid.zones[z].c_zone));
            }
            assert(!p(z as int));
            z += 1;
        }
        proof {
            lemma_first_none(g.zones.len() as int, p);
        }
        Ok(())
    }

    /// Looks for a cell that holds a digit above the size of its zone.
    fn check_zone_with_unexpected_number(&self) -> (r: Result<(), SolvingError>)
        ensures
            r == check_result(self@.grid.find_unexpected_number()),
    {
        let ghost g = self.grid@;
        let ghost p = g.zone_misfits();
        let mut z: usize = 0;
        while z < self.grid.zones.len()
            invariant
                z <= self.grid.zones.len(),
                g == self.grid@,
                p == g.zone_misfits(),
                never(z as int, p),
            decreases self.grid.zones.len() - z,
        {
            let zone = &self.grid.zones[z];
            let zone_len = zone.set_line_column.len();
            let ghost q = g.misfit_in(z as int);
            let mut m: usize = 0;
            while m < zone_len
                invariant
                    m <= zone_len,
                    z < self.grid.zones.len(),
                    zone == &self.grid.zones[z as int],
                    zone_len == zone.set_line_column.len(),
                    g == self.grid@,
                    q == g.misfit_in(z as int),
                    p == g.zone_misfits(),
                    never(z as int, p),
                    never(m as int, q),
                decreases zone_len - m,
            {
                let line_column = zone.set_line_column[m];
                match self.grid.number_on(line_column) {
                    Some(n) => {
                        if n as usize > zone_len {
                            proof {
                                assert(q(m as int));
                                lemma_first_is(m as int, zone_len as int, q);
                                assert(p(z as int));
                                lemma_first_is(z as int, g.zones.len() as int, p);
                            }
                            return Err(
                                SolvingError::ZoneWithUnexpectedNumber(zone.c_zone, line_column, n),
                            );
                        }
                    },
                    None => {},
                }
                assert(!q(m as int));
                m += 1;
            }
            proof {
                lemma_first_none(zone_len as int, q);
                assert(!p(z as int));
            }
            z += 1;
        }
        proof {
            lemma_first_none(g.zones.len() as int, p);
        }
        Ok(())
    }

    /// Looks for two cells that touch and hold the same digit.
    fn check_neighboring_cells(&self) -> (r: Result<(), SolvingError>)
        ensures
            r == check_result(self@.grid.find_neighbor_clash()),
    {
        let ghost g = self.grid@;
        let ghost p = g.cell_clashes();
        let mut i: usize = 0;
        while i < self.grid.cells.len()
            invariant
                i <= self.grid.cells.len(),
                g == self.grid@,
                p == g.cell_clashes(),
                never(i as int, p),
            decreases self.grid.cells.len() - i,
        {
            let cell = self.grid.cells[i];
            let ghost q = g.clash_around(i as int);
            match cell.content {
                CellContent::Number(n) => {
                    let around = NeighboringLineColumns::new(
                        cell.line_column,
                        self.grid.min_line_column,
                        self.grid.max_line_column,
                    ).collect();
                    let mut j: usize = 0;
                    while j < around.len()
                        invariant
                            j <= around.len(),
                            i < self.grid.cells.len(),
                            cell == self.grid.cells[i as int],
                            cell.content == CellContent::Number(n),
                            around@ == g.around(i as int),
                            g == self.grid@,
                            q == g.clash_around(i as int),
                            p == g.cell_clashes(),
                            never(i as int, p),
                            never(j as int, q),
                        decreases around.len() - j,
                    {
                        match self.grid.number_on(around[j]) {
                            Some(neighboring_n) => {
                                if n == neighboring_n {
                                    proof {
                                        assert(q(j as int));
                                        lemma_first_is(j as int, around.len() as int, q);
                                        assert(p(i as int));
                                        lemma_first_is(i as int, g.cells.len() as int, p);
                                    }
                                    return Err(
                                        SolvingError::NeighboringWithSameNumber(
                                            cell.line_column,
                                            around[j],
                                            n,
                                        ),
                                    );
                                }
                            },
                            None => {},
                        }
                        assert(!q(j as int));
                        j += 1;
                    }
                    proof {
                        lemma_first_none(around.len() as int, q);
                    }
                },
                _ => {
                    proof {
                        assert forall|j: int| 0 <= j < g.around(i as int).len() implies !#[trigger] q(
                            j,
                        ) by {}
                        lemma_first_none(g.around(i as int).len() as int, q);
                    }
                },
            }
            assert(!p(i as int));
            i += 1;
        }
        proof {
            lemma_first_none(g.cells.len() as int, p);
        }
        Ok(())
    }

    /// Looks for a zone that holds a digit twice.
    fn check_zone_numbers(&self) -> (r: Result<(), SolvingError>)
        ensures
            r == check_result(self@.grid.find_zone_repeat()),
    {
        let ghost g = self.grid@;
        let ghost p = g.zone_repeats();
        let mut z: usize = 0;
        while z < self.grid.zones.len()
            invariant
                z <= self.grid.zones.len(),
                g == self.grid@,
                p == g.zone_repeats(),
                never(z as int, p),
            decreases self.grid.zones.len() - z,
        {
            let zone = &self.grid.zones[z];
            let ghost q = g.repeat_in(z as int);
            let mut zone_numbers = Simple09Set::default();
            let mut m: usize = 0;
            while m < zone.set_line_column.len()
                invariant
                    m <= zone.set_line_column.len(),
                    z < self.grid.zones.len(),
                    zone == &self.grid.zones[z as int],
                    g == self.grid@,
                    q == g.repeat_in(z as int),
                    p == g.zone_repeats(),
                    never(z as int, p),
                    never(m as int, q),
                    zone_numbers == g.numbers_among(zone.set_line_column@, m as nat),
                decreases zone.set_line_column.len() - m,
            {
                match self.grid.number_on(zone.set_line_column[m]) {
                    Some(n) => {
                        if zone_numbers.contains(n) {
                            proof {
                                assert(q(m as int));
                                lemma_first_is(m as int, zone.set_line_column.len() as int, q);
                                assert(p(z as int));
                                lemma_first_is(z as int, g.zones.len() as int, p);
                            }
                            return Err(SolvingError::ZoneWithSameNumber(zone.c_zone, n));
                        }
                        zone_numbers.insert(n);
                    },
                    None => {},
                }
                assert(!q(m as int));
                m += 1;
            }
            proof {
                lemma_first_none(zone.set_line_column.len() as int, q);
                assert(!p(z as int));
            }
            z += 1;
        }
        proof {
            lemma_first_none(g.zones.len() as int, p);
        }
        Ok(())
    }

    /// Looks for a cell without a candidate left.
    fn check_cell_with_no_possible_values(&self) -> (r: Result<(), SolvingError>)
        ensures
            r == check_result(self@.grid.find_no_candidate()),
    {
        let ghost g = self.grid@;
        let ghost p = g.no_candidate();
        let mut i: usize = 0;
        while i < self.grid.cells.len()
            invariant
                i <= self.grid.cells.len(),
                g == self.grid@,
                p == g.no_candidate(),
                never(i as int, p),
            decreases self.grid.cells.len() - i,
        {
            match self.grid.cells[i].content {
                CellContent::PossibleNumbers(set) => {
                    if set.is_empty() {
                        proof {
                            assert(p(i as int));
                            lemma_first_is(i as int, g.cells.len() as int, p);
                        }
                        return Err(SolvingError::NoPossibleNumber(self.grid.cells[i].line_column));
                    }
                },
                _ => {},
            }
            assert(!p(i as int));
            i += 1;
        }
        proof {
            lemma_first_none(g.cells.len() as int, p);
        }
        Ok(())
    }

    /// Checks that the grid obeys the rules of the puzzle as far as it is
    /// filled, and reports the first contradiction: a zone of more than nine
    /// cells or a digit above the size of its zone (both only until the
    /// candidates are set), two cells that touch with the same digit, a
    /// digit twice in a zone, a cell without a candidate left.
    pub fn check(&self) -> (r: Result<(), SolvingError>)
        ensures
            r == check_result(self@.grid.contradiction(self@.seeded)),
            r is Ok <==> self@.grid.consistent(self@.seeded),
    {
        proof {
            self@.grid.lemma_contradiction(self@.seeded);
        }
        if !self.init_cell_contents {
            match self.check_zone_too_long() {
                Err(e) => {
                    return Err(e);
                },
                Ok(()) => {},
            }
            match self.check_zone_with_unexpected_number() {
                Err(e) => {
                    return Err(e);
                },
                Ok(()) => {},
            }
        }
        match self.check_neighboring_cells() {
            Err(e) => {
                return Err(e);
            },
            Ok(()) => {},
        }
        match self.check_zone_numbers() {
            Err(e) => {
                return Err(e);
            },
            Ok(()) => {},
        }
        self.check_cell_with_no_possible_values()
    }

    /// First step of solving: every cell without content gets the digits
    /// from 1 to the size of its zone as candidates.
    fn solve_step_possible_numbers(&mut self) -> (r: SolvingAction)
        requires
            old(self)@.grid.zones_small(),
        ensures
            final(self)@ == (SolverView { grid: old(self)@.grid.seeded(), ..old(self)@ }),
            r@ == ActionView::InitPossibleNumbers,
    {
        let ghost g = self.grid@;
        // The candidates of a cell, zone by zone.
        let mut zone_sets: Vec<Simple09Set> = Vec::new();
        let mut z: usize = 0;
        while z < self.grid.zones.len()
            invariant
                z <= self.grid.zones.len(),
                g == self.grid@,
                g.zones_small(),
                zone_sets@.len() == z,
                forall|y: int|
                    0 <= y < z ==> #[trigger] zone_sets@[y] == full_set(
                        g.zones[y].members.len(),
                    ),
            decreases self.grid.zones.len() - z,
        {
            let nb_cases = self.grid.zones[z].set_line_column.len();
            assert(!g.zone_too_long()(z as int));
            let mut simple_09_set = Simple09Set::default();
            let mut n: usize = 0;
            while n < nb_cases
                invariant
                    n <= nb_cases <= 9,
                    simple_09_set == full_set(n as nat),
                decreases nb_cases - n,
            {
                n += 1;
                simple_09_set.insert(n as u8);
            }
            zone_sets.push(simple_09_set);
            z += 1;
        }
        let mut i: usize = 0;
        while i < self.grid.cells.len()
            invariant
                i <= self.grid.cells.len(),
                self@ == (SolverView { grid: self.grid@, ..old(self)@ }),
                self.grid@.cells.len() == g.cells.len(),
                self.grid@ == (GridView { cells: self.grid@.cells, ..g }),
                forall|j: int| 0 <= j < i ==> #[trigger] self.grid@.cells[j] == g.seeded_cell(j),
                forall|j: int| i <= j < g.cells.len() ==> #[trigger] self.grid@.cells[j] == g.cells[j],
                zone_sets@.len() == g.zones.len(),
                forall|y: int|
                    0 <= y < g.zones.len() ==> #[trigger] zone_sets@[y] == full_set(
                        g.zones[y].members.len(),
                    ),
            decreases self.grid.cells.len() - i,
        {
            let cell = self.grid.cells[i];
            match cell.content {
                CellContent::Undefined => {
                    let candidates = match self.grid.zone_position(cell.c_zone) {
                        Some(z) => zone_sets[z],
                        None => Simple09Set::default(),
                    };
                    self.grid.set_content(i, CellContent::PossibleNumbers(candidates));
                },
                _ => {},
            }
            i += 1;
        }
        proof {
            assert(self.grid@.cells =~= g.seeded().cells);
        }
        SolvingAction::InitPossibleNumbers
    }

    /// First rule: a cell with a single candidate takes it as its digit.
    fn solve_single_possible_number(&mut self) -> (r: SolvingAction)
        ensures
            rule_applied(old(self)@, old(self)@.grid.single_possible_number(), final(self)@, r@),
    {
        let ghost g = self.grid@;
        let ghost p = g.single();
        let mut i: usize = 0;
        while i < self.grid.cells.len()
            invariant
                i <= self.grid.cells.len(),
                self == old(self),
                g == self.grid@,
                p == g.single(),
                never(i as int, p),
            decreases self.grid.cells.len() - i,
        {
            let cell = self.grid.cells[i];
            match cell.content {
                CellContent::PossibleNumbers(simple_09_set) => {
                    if simple_09_set.len() == 1 {
                        proof {
                            simple_09_set.lemma_as_seq();
                            assert(p(i as int));
                            lemma_first_is(i as int, g.cells.len() as int, p);
                        }
                        let vec_n = simple_09_set.as_vec_u8();
                        let n = vec_n[0];
                        self.grid.set_content(i, CellContent::Number(n));
                        return SolvingAction::SinglePossibleNumber(cell.line_column, n);
                    }
                },
                _ => {},
            }
            assert(!p(i as int));
            i += 1;
        }
        proof {
            lemma_first_none(g.cells.len() as int, p);
        }
        SolvingAction::NoAction
    }

    /// Second rule: a cell loses the candidates that are placed in its zone.
    fn solve_numbers_in_zone(&mut self) -> (r: SolvingAction)
        ensures
            rule_applied(old(self)@, old(self)@.grid.numbers_in_zone(), final(self)@, r@),
    {
        let ghost g = self.grid@;
        let ghost p = g.zone_strikes();
        // The digits placed, zone by zone.
        let mut zone_sets: Vec<Simple09Set> = Vec::new();
        let mut z: usize = 0;
        while z < self.grid.zones.len()
            invariant
                z <= self.grid.zones.len(),
                self == old(self),
                g == self.grid@,
                zone_sets@.len() == z,
                forall|y: int|
                    0 <= y < z ==> #[trigger] zone_sets@[y] == g.numbers_among(
                        g.zones[y].members,
                        g.zones[y].members.len(),
                    ),
            decreases self.grid.zones.len() - z,
        {
            let placed = self.grid.numbers_among(&self.grid.zones[z].set_line_column);
            zone_sets.push(placed);
            z += 1;
        }
        let mut i: usize = 0;
        while i < self.grid.cells.len()
            invariant
                i <= self.grid.cells.len(),
                self == old(self),
                g == self.grid@,
                p == g.zone_strikes(),
                never(i as int, p),
                zone_sets@.len() == g.zones.len(),
                forall|y: int|
                    0 <= y < g.zones.len() ==> #[trigger] zone_sets@[y] == g.numbers_among(
                        g.zones[y].members,
                        g.zones[y].members.len(),
                    ),
            decreases self.grid.cells.len() - i,
        {
            let cell = self.grid.cells[i];
            match cell.content {
                CellContent::PossibleNumbers(cell_simple_09_set) => {
                    let placed = match self.grid.zone_position(cell.c_zone) {
                        Some(z) => zone_sets[z],
                        None => Simple09Set::default(),
                    };
                    let gone = cell_simple_09_set.intersection(placed);
                    if !gone.is_empty() {
                        proof {
                            assert(p(i as int));
                            lemma_first_is(i as int, g.cells.len() as int, p);
                        }
                        let vec_n = gone.as_vec_u8();
                        self.grid.set_content(
                            i,
                            CellContent::PossibleNumbers(cell_simple_09_set.without(gone)),
                        );
                        return SolvingAction::NumbersInZone(cell.line_column, cell.c_zone, vec_n);
                    }
                },
                _ => {},
            }
            assert(!p(i as int));
            i += 1;
        }
        proof {
            lemma_first_none(g.cells.len() as int, p);
        }
        SolvingAction::NoAction
    }

    /// The one member of zone `z` that has `digit` among its candidates, if
    /// there is exactly one.
    fn sole_holder(&self, z: usize, digit: u8) -> (r: Option<usize>)
        requires
            z < self@.grid.zones.len(),
        ensures
            r == match self@.grid.sole_holder(z as int, digit) {
                Some(m) => Some(m as usize),
                None => None,
            },
            r matches Some(m) ==> m < self@.grid.zones[z as int].members.len()
                && self@.grid.holds(z as int, digit)(m as int),
    {
        let ghost g = self.grid@;
        let ghost h = g.holds(z as int, digit);
        let zone = &self.grid.zones[z];
        let mut found: Option<usize> = None;
        let mut m: usize = 0;
        while m < zone.set_line_column.len()
            invariant
                m <= zone.set_line_column.len(),
                z < self.grid.zones.len(),
                zone == &self.grid.zones[z as int],
                g == self.grid@,
                h == g.holds(z as int, digit),
                match found {
                    Some(k) => is_first(k as int, m as int, h) && forall|j: int|
                        k < j < m ==> !#[trigger] h(j),
                    None => never(m as int, h),
                },
            decreases zone.set_line_column.len() - m,
        {
            let held = match self.grid.candidates_on(zone.set_line_column[m]) {
                Some(set) => set.contains(digit),
                None => false,
            };
            assert(held == h(m as int));
            if held {
                match found {
                    Some(k) => {
                        proof {
                            lemma_first_is(k as int, zone.set_line_column.len() as int, h);
                        }
                        return None;
                    },
                    None => {
                        found = Some(m);
                    },
                }
            }
            m += 1;
        }
        proof {
            match found {
                Some(k) => {
                    lemma_first_is(k as int, zone.set_line_column.len() as int, h);
                },
                None => {
                    lemma_first_none(zone.set_line_column.len() as int, h);
                },
            }
        }
        found
    }

    /// Third rule: where a single cell of a zone can hold a digit, it takes
    /// the digit.
    fn solve_only_number_in_zone(&mut self) -> (r: SolvingAction)
        ensures
            rule_applied(old(self)@, old(self)@.grid.only_number_in_zone(), final(self)@, r@),
    {
        let ghost g = self.grid@;
        let ghost p = g.zone_settles();
        let mut z: usize = 0;
        while z < self.grid.zones.len()
            invariant
                z <= self.grid.zones.len(),
                self == old(self),
                g == self.grid@,
                p == g.zone_settles(),
                never(z as int, p),
            decreases self.grid.zones.len() - z,
        {
            let ghost q = g.digit_settles(z as int);
            let mut digit: u8 = 0;
            while digit <= 9
                invariant
                    digit <= 10,
                    z < self.grid.zones.len(),
                    self == old(self),
                    g == self.grid@,
                    p == g.zone_settles(),
                    q == g.digit_settles(z as int),
                    never(z as int, p),
                    never(digit as int, q),
                decreases 10 - digit,
            {
                match self.sole_holder(z, digit) {
                    Some(m) => {
                        let c_zone = self.grid.zones[z].c_zone;
                        let line_column = self.grid.zones[z].set_line_column[m];
                        proof {
                            assert(q(digit as int));
                            lemma_first_is(digit as int, 10, q);
                            assert(p(z as int));
                            lemma_first_is(z as int, g.zones.len() as int, p);
                            assert(g.holds(z as int, digit)(m as int));
                        }
                        match self.grid.cell_position(line_column) {
                            Some(i) => {
                                self.grid.set_content(i, CellContent::Number(digit));
                            },
                            None => {},
                        }
                        return SolvingAction::OnlyNumberInZone(c_zone, line_column, digit);
                    },
                    None => {},
                }
                assert(!q(digit as int));
                digit += 1;
            }
            proof {
                lemma_first_none(10, q);
                assert(!p(z as int));
            }
            z += 1;
        }
        proof {
            lemma_first_none(g.zones.len() as int, p);
        }
        SolvingAction::NoAction
    }

    /// Fourth rule: a cell loses the candidates that are placed around it.
    fn solve_numbers_neighboring(&mut self) -> (r: SolvingAction)
        ensures
            rule_applied(old(self)@, old(self)@.grid.numbers_neighboring(), final(self)@, r@),
    {
        let ghost g = self.grid@;
        let ghost p = g.neighbor_strikes();
        let mut i: usize = 0;
        while i < self.grid.cells.len()
            invariant
                i <= self.grid.cells.len(),
                self == old(self),
                g == self.grid@,
                p == g.neighbor_strikes(),
                never(i as int, p),
            decreases self.grid.cells.len() - i,
        {
            let cell = self.grid.cells[i];
            match cell.content {
                CellContent::PossibleNumbers(cell_simple_09_set) => {
                    let around = NeighboringLineColumns::new(
                        cell.line_column,
                        self.grid.min_line_column,
                        self.grid.max_line_column,
                    ).collect();
                    let placed = self.grid.numbers_among(&around);
                    let gone = cell_simple_09_set.intersection(placed);
                    if !gone.is_empty() {
                        proof {
                            assert(p(i as int));
                            lemma_first_is(i as int, g.cells.len() as int, p);
                        }
                        let vec_n = gone.as_vec_u8();
                        self.grid.set_content(
                            i,
                            CellContent::PossibleNumbers(cell_simple_09_set.without(gone)),
                        );
                        return SolvingAction::NumbersNeighboring(cell.line_column, vec_n);
                    }
                },
                _ => {},
            }
            assert(!p(i as int));
            i += 1;
        }
        proof {
            lemma_first_none(g.cells.len() as int, p);
        }
        SolvingAction::NoAction
    }

    /// Fifth rule: a cell that touches two cells with one pair of candidates
    /// loses the digits of the pair.
    fn solve_dual_values_pair(&mut self) -> (r: SolvingAction)
        ensures
            rule_applied(old(self)@, old(self)@.grid.dual_values_pair(), final(self)@, r@),
    {
        let ghost g = self.grid@;
        let ghost p = g.pair_strikes();
        let mut i: usize = 0;
        while i < self.grid.cells.len()
            invariant
                i <= self.grid.cells.len(),
                self == old(self),
                g == self.grid@,
                p == g.pair_strikes(),
                never(i as int, p),
            decreases self.grid.cells.len() - i,
        {
            let cell = self.grid.cells[i];
            let ghost q = g.pair_hits(i as int);
            let pair = match cell.content {
                CellContent::PossibleNumbers(set) => if set.len() == 2 {
                    Some(set)
                } else {
                    None
                },
                _ => None,
            };
            match pair {
                Some(simple_09_set_a) => {
                    let mut e: u8 = 0;
                    while e < 12
                        invariant
                            e <= 12,
                            i < self.grid.cells.len(),
                            self == old(self),
                            g == self.grid@,
                            cell == g.cells[i as int],
                            g.candidates(i as int) == Some(simple_09_set_a),
                            simple_09_set_a@.len() == 2,
                            p == g.pair_strikes(),
                            q == g.pair_hits(i as int),
                            never(i as int, p),
                            never(e as int, q),
                        decreases 12 - e,
                    {
                        let (relative_b, relative_c) = pair_pattern(e);
                        let line_column_b = cell.line_column.shifted(relative_b.0, relative_b.1);
                        let line_column_c = cell.line_column.shifted(relative_c.0, relative_c.1);
                        match (line_column_b, line_column_c) {
                            (Some(second), Some(target)) => {
                                let same_pair = match self.grid.candidates_on(second) {
                                    Some(simple_09_set_b) => simple_09_set_a == simple_09_set_b,
                                    None => false,
                                };
                                if same_pair {
                                    match self.grid.candidates_on(target) {
                                        Some(simple_09_set_c) => {
                                            let gone = simple_09_set_c.intersection(simple_09_set_a);
                                            if !gone.is_empty() {
                                                proof {
                                                    assert(q(e as int));
                                                    lemma_first_is(e as int, 12, q);
                                                    assert(p(i as int));
                                                    lemma_first_is(
                                                        i as int,
                                                        g.cells.len() as int,
                                                        p,
                                                    );
                                                }
                                                let vec_n = gone.as_vec_u8();
                                                match self.grid.cell_position(target) {
                                                    Some(c) => {
                                                        self.grid.set_content(
                                                            c,
                                                            CellContent::PossibleNumbers(
                                                                simple_09_set_c.without(gone),
                                                            ),
                                                        );
                                                    },
                                                    None => {},
                                                }
                                                return SolvingAction::DualValuesPair(
                                                    cell.line_column,
                                                    second,
                                                    target,
                                                    vec_n,
                                                );
                                            }
                                        },
                                        None => {},
                                    }
                                }
                            },
                            _ => {},
                        }
                        assert(!q(e as int));
                        e += 1;
                    }
                    proof {
                        lemma_first_none(12, q);
                    }
                },
                None => {
                    proof {
                        assert forall|e: int| 0 <= e < 12 implies !#[trigger] q(e) by {}
                        lemma_first_none(12, q);
                    }
                },
            }
            assert(!p(i as int));
            i += 1;
        }
        proof {
            lemma_first_none(g.cells.len() as int, p);
        }
        SolvingAction::NoAction
    }

    /// Puts digit `n` into cell `i` of a copy of the grid and solves the
    /// copy, one level deeper.
    fn try_digit(&self, i: usize, n: u8) -> (r: Result<bool, SolvingError>)
        requires
            i < self@.grid.cells.len(),
            self@.level < self@.max_level,
        ensures
            r == self@.trial(i as int, n).run().1,
        decreases self@.budget(), self@.unseeded(), self@.grid.rank(), 1nat,
    {
        let mut new_grid = self.grid.clone();
        new_grid.set_content(i, CellContent::Number(n));
        let mut new_solver = Solver::new(&new_grid);
        new_solver.max_try_and_see_recursion_level = self.max_try_and_see_recursion_level;
        new_solver.try_and_see_recursion_level = self.try_and_see_recursion_level + 1;
        new_solver.run()
    }

    /// Sixth rule: on a cell with two candidates, tries one of them on a
    /// copy of the grid and sees where solving the copy leads. A
    /// contradiction rules the candidate out; a solved copy confirms it,
    /// given that the puzzle has one solution only. Does nothing once the
    /// solver works at the deepest level it may.
    fn solve_try_and_see(&mut self) -> (r: SolvingAction)
        ensures
            rule_applied(old(self)@, old(self)@.try_and_see(), final(self)@, r@),
        decreases old(self)@.budget(), old(self)@.unseeded(), old(self)@.grid.rank(), 2nat,
    {
        if self.try_and_see_recursion_level >= self.max_try_and_see_recursion_level {
            return SolvingAction::NoAction;
        }
        let ghost s = self@;
        let ghost p = s.cell_decides();
        let mut i: usize = 0;
        while i < self.grid.cells.len()
            invariant
                i <= self.grid.cells.len(),
                self == old(self),
                s == self@,
                s.level < s.max_level,
                p == s.cell_decides(),
                never(i as int, p),
            decreases self.grid.cells.len() - i,
        {
            let cell = self.grid.cells[i];
            let ghost q = s.trial_decides(i as int);
            let pair = match cell.content {
                CellContent::PossibleNumbers(set) => if set.len() == 2 {
                    Some(set)
                } else {
                    None
                },
                _ => None,
            };
            match pair {
                Some(simple_09_set) => {
                    proof {
                        simple_09_set.lemma_as_seq();
                    }
                    let vec_n = simple_09_set.as_vec_u8();
                    let mut t: usize = 0;
                    while t < 2
                        invariant
                            t <= 2,
                            i < self.grid.cells.len(),
                            self == old(self),
                            s == self@,
                            s.level < s.max_level,
                            cell == s.grid.cells[i as int],
                            s.grid.candidates(i as int) == Some(simple_09_set),
                            vec_n@ == simple_09_set.spec_as_seq(),
                            vec_n@.len() == 2,
                            simple_09_set@.len() == 2,
                            p == s.cell_decides(),
                            q == s.trial_decides(i as int),
                            never(i as int, p),
                            never(t as int, q),
                        decreases 2 - t,
                    {
                        let n = vec_n[t];
                        let autre_n = vec_n[1 - t];
                        match self.try_digit(i, n) {
                            Err(_) => {
                                proof {
                                    assert(q(t as int));
                                    lemma_first_is(t as int, 2, q);
                                    assert(p(i as int));
                                    lemma_first_is(i as int, s.grid.cells.len() as int, p);
                                }
                                self.grid.set_content(i, CellContent::Number(autre_n));
                                return SolvingAction::TryAndFail(cell.line_column, n, autre_n);
                            },
                            Ok(solved) => {
                                if solved {
                                    proof {
                                        assert(q(t as int));
                                        lemma_first_is(t as int, 2, q);
                                        assert(p(i as int));
                                        lemma_first_is(i as int, s.grid.cells.len() as int, p);
                                    }
                                    self.grid.set_content(i, CellContent::Number(n));
                                    return SolvingAction::TryAndSolve(cell.line_column, n, autre_n);
                                }
                            },
                        }
                        assert(!q(t as int));
                        t += 1;
                    }
                    proof {
                        lemma_first_none(2, q);
                    }
                },
                None => {},
            }
            assert(!p(i as int));
            i += 1;
        }
        proof {
            lemma_first_none(s.grid.cells.len() as int, p);
        }
        SolvingAction::NoAction
    }

    /// Raises the difficulty to `level` after a rule has fired.
    fn fired(&mut self, action: SolvingAction, level: DifficultyLevel) -> (r: Result<
        SolvingAction,
        SolvingError,
    >)
        ensures
            final(self)@ == old(self)@.after_rule(old(self)@.grid, level),
            r == Ok::<SolvingAction, SolvingError>(action),
    {
        self.difficulty_level = self.difficulty_level.at_least(level);
        Ok(action)
    }

    /// One solving step. Checks the grid first and reports the contradiction
    /// it finds, leaving the grid alone. On a sound grid the first step sets
    /// the candidates of the cells without content; a later step reports
    /// `Solved` where every cell holds a digit, and else lets the first rule
    /// that applies fire once: a single candidate, digits placed in the
    /// zone, the only cell for a digit of a zone, digits placed around the
    /// cell, a pair of cells with the same two candidates, and last a
    /// candidate tried and seen. The difficulty rises to the level of the
    /// rule that fired. Where no rule applies the step reports `NoAction`.
    pub fn solve_step(&mut self) -> (r: Result<SolvingAction, SolvingError>)
        ensures
            final(self)@ == old(self)@.step().0,
            report_view(r) == old(self)@.step().1,
            old(self)@.grid.narrows_to(final(self)@.grid),
            r is Err || r == Ok::<SolvingAction, SolvingError>(SolvingAction::Solved) || r == Ok::<
                SolvingAction,
                SolvingError,
            >(SolvingAction::NoAction) ==> final(self)@ == old(self)@,
        decreases old(self)@.budget(), old(self)@.unseeded(), old(self)@.grid.rank(), 4nat,
    {
        proof {
            self@.lemma_step();
        }
        match self.check() {
            Err(e) => {
                return Err(e);
            },
            Ok(()) => {},
        }
        if !self.init_cell_contents {
            proof {
                self@.grid.lemma_contradiction(false);
            }
            self.init_cell_contents = true;
            return Ok(self.solve_step_possible_numbers());
        }
        if self.is_solved() {
            return Ok(SolvingAction::Solved);
        }
        let action = self.solve_single_possible_number();
        match action {
            SolvingAction::NoAction => {},
            _ => {
                return self.fired(action, DifficultyLevel::Easy);
            },
        }
        let action = self.solve_numbers_in_zone();
        match action {
            SolvingAction::NoAction => {},
            _ => {
                return self.fired(action, DifficultyLevel::Easy);
            },
        }
        let action = self.solve_only_number_in_zone();
        match action {
            SolvingAction::NoAction => {},
            _ => {
                return self.fired(action, DifficultyLevel::Easy);
            },
        }
        let action = self.solve_numbers_neighboring();
        match action {
            SolvingAction::NoAction => {},
            _ => {
                return self.fired(action, DifficultyLevel::Medium);
            },
        }
        let action = self.solve_dual_values_pair();
        match action {
            SolvingAction::NoAction => {},
            _ => {
                return self.fired(action, DifficultyLevel::Hard);
            },
        }
        let action = self.solve_try_and_see();
        match action {
            SolvingAction::NoAction => {},
            _ => {
                return self.fired(action, DifficultyLevel::VeryHard);
            },
        }
        Ok(SolvingAction::NoAction)
    }

    /// Steps until the grid is solved, no rule applies or a contradiction
    /// shows, at the depths that the solver has.
    fn run(&mut self) -> (r: Result<bool, SolvingError>)
        ensures
            final(self)@ == old(self)@.run().0,
            r == old(self)@.run().1,
        decreases old(self)@.budget(), old(self)@.unseeded(), old(self)@.grid.rank(), 5nat,
    {
        loop
            invariant
                self@.run() == old(self)@.run(),
                self@.budget() == old(self)@.budget(),
                self@.unseeded() < old(self)@.unseeded() || (self@.unseeded() == old(
                    self,
                )@.unseeded() && self@.grid.rank() <= old(self)@.grid.rank()),
            decreases self@.unseeded(), self@.grid.rank(),
        {
            proof {
                self@.lemma_step();
            }
            match self.solve_step() {
                Err(e) => {
                    return Err(e);
                },
                Ok(SolvingAction::Solved) => {
                    return Ok(true);
                },
                Ok(SolvingAction::NoAction) => {
                    return Ok(false);
                },
                Ok(_) => {},
            }
        }
    }

    /// Solves the grid as far as the rules lead: steps until the grid is
    /// solved (`Ok(true)`), no rule applies (`Ok(false)`) or a contradiction
    /// shows (the error). The depth up to which candidates may be tried is
    /// that of the first option, 3 where there is none.
    pub fn solve(&mut self, options: &[SolvingOption]) -> (r: Result<bool, SolvingError>)
        ensures
            final(self)@ == (SolverView {
                max_level: spec_max_level(
                    options@,
                    DEFAULT_MAX_TRY_AND_SEE_RECURSION_LEVEL,
                ) as int,
                ..old(self)@
            }).run().0,
            r == (SolverView {
                max_level: spec_max_level(
                    options@,
                    DEFAULT_MAX_TRY_AND_SEE_RECURSION_LEVEL,
                ) as int,
                ..old(self)@
            }).run().1,
            old(self)@.grid.narrows_to(final(self)@.grid),
    {
        self.max_try_and_see_recursion_level = SolvingOption::get_max_try_and_see_recursion_level(
            options,
            DEFAULT_MAX_TRY_AND_SEE_RECURSION_LEVEL,
        );
        proof {
            self@.lemma_run_narrows();
        }
        self.run()
    }
}

impl Solver {
    /// Solves the grid as [`Solver::solve`] does and shows each step to
    /// `observer`: after every step that reports an action, the observer is
    /// called with the action and with the solver as the step left it. What
    /// the observer does has no part in the solving.
    pub fn solve_observed<F: Fn(&SolvingAction, &Solver)>(
        &mut self,
        options: &[SolvingOption],
        observer: F,
    ) -> (r: Result<bool, SolvingError>)
        requires
            forall|action: &SolvingAction, solver: &Solver|
                call_requires(observer, (action, solver)),
        ensures
            final(self)@ == (SolverView {
                max_level: spec_max_level(
                    options@,
                    DEFAULT_MAX_TRY_AND_SEE_RECURSION_LEVEL,
                ) as int,
                ..old(self)@
            }).run().0,
            r == (SolverView {
                max_level: spec_max_level(
                    options@,
                    DEFAULT_MAX_TRY_AND_SEE_RECURSION_LEVEL,
                ) as int,
                ..old(self)@
            }).run().1,
            old(self)@.grid.narrows_to(final(self)@.grid),
    {
        self.max_try_and_see_recursion_level = SolvingOption::get_max_try_and_see_recursion_level(
            options,
            DEFAULT_MAX_TRY_AND_SEE_RECURSION_LEVEL,
        );
        proof {
            self@.lemma_run_narrows();
        }
        let ghost start = self@;
        loop
            invariant
                self@.run() == start.run(),
                old(self)@.grid.narrows_to(start.run().0.grid),
                start == (SolverView {
                    max_level: spec_max_level(
                        options@,
                        DEFAULT_MAX_TRY_AND_SEE_RECURSION_LEVEL,
                    ) as int,
                    ..old(self)@
                }),
                forall|action: &SolvingAction, solver: &Solver|
                    call_requires(observer, (action, solver)),
            decreases self@.unseeded(), self@.grid.rank(),
        {
            proof {
                self@.lemma_step();
            }
            match self.solve_step() {
                Err(e) => {
                    return Err(e);
                },
                Ok(action) => {
                    observer(&action, &*self);
                    match action {
                        SolvingAction::Solved => {
                            return Ok(true);
                        },
                        SolvingAction::NoAction => {
                            return Ok(false);
                        },
                        _ => {},
                    }
                },
            }
        }
    }
}

impl SolvingOption {
    /// The depth that the options ask for: that of the first option,
    /// `default_level` where there is none.
    pub fn get_max_try_and_see_recursion_level(options: &[SolvingOption], default_level: i32) -> (r:
        i32)
        ensures
            r == spec_max_level(options@, default_level),
    {
        if options.len() == 0 {
            default_level
        } else {
            match options[0] {
                SolvingOption::MaxTryAndSeeRecursionLevel(level) => level,
            }
        }
    }
}

} // verus!
