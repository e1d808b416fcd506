//! What a solving step reports: the action it took, or the contradiction it
//! found, and how hard the puzzle has proved so far.
use crate::line_column::LineColumn;
use vstd::prelude::*;

verus! {

/// What one solving step did.
#[derive(Debug, PartialEq, Eq)]
pub enum SolvingAction {
    /// The grid is solved.
    Solved,
    /// Every cell without content got the digits of its zone as candidates.
    InitPossibleNumbers,
    /// The cell had one candidate left, which is now its digit.
    SinglePossibleNumber(LineColumn, u8),
    /// The digits listed are placed elsewhere in the zone of the cell and
    /// were struck from its candidates.
    NumbersInZone(LineColumn, char, Vec<u8>),
    /// The cell was the only one of the zone that could hold the digit, which
    /// is now its digit.
    OnlyNumberInZone(char, LineColumn, u8),
    /// The digits listed are placed in cells around the cell and were struck
    /// from its candidates.
    NumbersNeighboring(LineColumn, Vec<u8>),
    /// The first two cells share one pair of candidates; the digits listed
    /// were struck from the candidates of the third cell, which touches both.
    DualValuesPair(LineColumn, LineColumn, LineColumn, Vec<u8>),
    /// Of the two candidates of the cell, the first led to a solved grid and
    /// is now its digit; the second is the candidate given up.
    TryAndSolve(LineColumn, u8, u8),
    /// Of the two candidates of the cell, the first led to a contradiction;
    /// the second is now its digit.
    TryAndFail(LineColumn, u8, u8),
    /// No rule applies.
    NoAction,
}

/// Mathematical value of a [`SolvingAction`].
pub ghost enum ActionView {
    Solved,
    InitPossibleNumbers,
    SinglePossibleNumber(LineColumn, u8),
    NumbersInZone(LineColumn, char, Seq<u8>),
    OnlyNumberInZone(char, LineColumn, u8),
    NumbersNeighboring(LineColumn, Seq<u8>),
    DualValuesPair(LineColumn, LineColumn, LineColumn, Seq<u8>),
    TryAndSolve(LineColumn, u8, u8),
    TryAndFail(LineColumn, u8, u8),
    NoAction,
}

impl View for SolvingAction {
    type V = ActionView;

    open spec fn view(&self) -> ActionView {
        match self {
            SolvingAction::Solved => ActionView::Solved,
            SolvingAction::InitPossibleNumbers => ActionView::InitPossibleNumbers,
            SolvingAction::SinglePossibleNumber(p, n) => ActionView::SinglePossibleNumber(*p, *n),
            SolvingAction::NumbersInZone(p, c, v) => ActionView::NumbersInZone(*p, *c, v@),
            SolvingAction::OnlyNumberInZone(c, p, n) => ActionView::OnlyNumberInZone(*c, *p, *n),
            SolvingAction::NumbersNeighboring(p, v) => ActionView::NumbersNeighboring(*p, v@),
            SolvingAction::DualValuesPair(a, b, c, v) => ActionView::DualValuesPair(
                *a,
                *b,
                *c,
                v@,
            ),
            SolvingAction::TryAndSolve(p, n, m) => ActionView::TryAndSolve(*p, *n, *m),
            SolvingAction::TryAndFail(p, n, m) => ActionView::TryAndFail(*p, *n, *m),
            SolvingAction::NoAction => ActionView::NoAction,
        }
    }
}

/// A contradiction in the grid.
#[derive(Clone, Copy, Debug, PartialEq, Eq, Structural)]
pub enum SolvingError {
    /// The zone has more than nine cells.
    ZoneTooLong(char),
    /// The cell holds a digit above the number of cells of its zone.
    ZoneWithUnexpectedNumber(char, LineColumn, u8),
    /// Two cells that touch hold the same digit.
    NeighboringWithSameNumber(LineColumn, LineColumn, u8),
    /// Two cells of the zone hold the same digit.
    ZoneWithSameNumber(char, u8),
    /// No digit is possible for the cell.
    NoPossibleNumber(LineColumn),
    /// A state that the solver cannot reach. No function of this library
    /// returns it.
    BadImplementation,
}

/// How hard a puzzle has proved: the hardest rule that solving it needed.
#[derive(Clone, Copy, Debug, PartialEq, Eq, PartialOrd, Ord, Structural)]
pub enum DifficultyLevel {
    Unknown,
    Easy,
    Medium,
    Hard,
    VeryHard,
}

impl Default for DifficultyLevel {
    /// `Unknown`: nothing has been solved yet.
    fn default() -> (r: Self)
        ensures
            r == DifficultyLevel::Unknown,
    {
        DifficultyLevel::Unknown
    }
}

impl DifficultyLevel {
    /// Place of the level in the order `Unknown < Easy < Medium < Hard < VeryHard`.
    pub open spec fn spec_rank(self) -> nat {
        match self {
            DifficultyLevel::Unknown => 0,
            DifficultyLevel::Easy => 1,
            DifficultyLevel::Medium => 2,
            DifficultyLevel::Hard => 3,
            DifficultyLevel::VeryHard => 4,
        }
    }

    /// The harder of two levels.
    pub open spec fn spec_at_least(self, other: DifficultyLevel) -> DifficultyLevel {
        if self.spec_rank() >= other.spec_rank() {
            self
        } else {
            other
        }
    }

    /// Place of the level in the order `Unknown < Easy < Medium < Hard < VeryHard`.
    pub fn rank(self) -> (r: u8)
        ensures
            r == self.spec_rank(),
    {
        match self {
            DifficultyLevel::Unknown => 0,
            DifficultyLevel::Easy => 1,
            DifficultyLevel::Medium => 2,
            DifficultyLevel::Hard => 3,
            DifficultyLevel::VeryHard => 4,
        }
    }

    /// The harder of two levels.
    pub fn at_least(self, other: DifficultyLevel) -> (r: DifficultyLevel)
        ensures
            r == self.spec_at_least(other),
    {
        if self.rank() >= other.rank() {
            self
        } else {
            other
        }
    }
}

impl ActionView {
    /// The level of the rule that takes the action; `Unknown` for the
    /// actions that no rule takes.
    pub open spec fn difficulty(self) -> DifficultyLevel {
        match self {
            ActionView::SinglePossibleNumber(..) => DifficultyLevel::Easy,
            ActionView::NumbersInZone(..) => DifficultyLevel::Easy,
            ActionView::OnlyNumberInZone(..) => DifficultyLevel::Easy,
            ActionView::NumbersNeighboring(..) => DifficultyLevel::Medium,
            ActionView::DualValuesPair(..) => DifficultyLevel::Hard,
            ActionView::TryAndSolve(..) => DifficultyLevel::VeryHard,
            ActionView::TryAndFail(..) => DifficultyLevel::VeryHard,
            _ => DifficultyLevel::Unknown,
        }
    }
}

} // verus!
