use std::str::FromStr;
use tectonic::{CellContent, Grid, LineColumn, Simple09Set, Solver, SolvingAction, SolvingError};

#[test]
fn a_zone_of_ten_cells_is_too_long() {
    let mut grid = Grid::default();
    grid.add_line(0, vec![('b', None), ('b', None)]);
    grid.add_line(
        1,
        vec![
            ('a', None),
            ('a', None),
            ('a', None),
            ('a', None),
            ('a', None),
            ('a', None),
            ('a', None),
            ('a', None),
            ('a', None),
            ('a', None),
        ],
    );
    let mut solver = Solver::new(&grid);
    assert_eq!(solver.check(), Err(SolvingError::ZoneTooLong('a')));
    assert_eq!(solver.solve_step(), Err(SolvingError::ZoneTooLong('a')));
    assert_eq!(solver.solve(&[]), Err(SolvingError::ZoneTooLong('a')));
    assert!(!solver.init_cell_contents);
}

#[test]
fn a_zone_of_nine_cells_is_not_too_long() {
    let mut grid = Grid::default();
    grid.add_line(
        0,
        vec![
            ('a', None),
            ('a', None),
            ('a', None),
            ('a', None),
            ('a', None),
            ('a', None),
            ('a', None),
            ('a', None),
            ('a', Some(9)),
        ],
    );
    let solver = Solver::new(&grid);
    assert_eq!(solver.check(), Ok(()));
}

#[test]
fn a_digit_above_the_size_of_its_zone_is_unexpected() {
    let grid = Grid::from_str(
        "
        a1 b  b
        b  b7  b
        c  c  c2
        ",
    )
    .unwrap();
    let solver = Solver::new(&grid);
    assert_eq!(
        solver.check(),
        Err(SolvingError::ZoneWithUnexpectedNumber(
            'b',
            LineColumn::new(1, 1),
            7
        ))
    );
}

#[test]
fn two_touching_cells_with_the_same_digit_clash() {
    let grid = Grid::from_str(
        "
        a3 a a
        b3 b b
        ",
    )
    .unwrap();
    let mut solver = Solver::new(&grid);
    let clash =
        SolvingError::NeighboringWithSameNumber(LineColumn::new(0, 0), LineColumn::new(1, 0), 3);
    assert_eq!(solver.check(), Err(clash));
    // The first step reports it before it sets a candidate.
    assert_eq!(solver.solve_step(), Err(clash));
    assert!(!solver.init_cell_contents);
    assert_eq!(
        solver.grid.cells[1].content,
        CellContent::Undefined
    );
}

#[test]
fn cells_that_touch_by_a_corner_clash_too() {
    let grid = Grid::from_str(
        "
        a1 b  b2
        b4 b1 b
        c  c  c2
        ",
    )
    .unwrap();
    let solver = Solver::new(&grid);
    assert_eq!(
        solver.check(),
        Err(SolvingError::NeighboringWithSameNumber(
            LineColumn::new(0, 0),
            LineColumn::new(1, 1),
            1
        ))
    );
}

#[test]
fn a_digit_twice_in_a_zone_is_reported_with_the_zone() {
    let grid = Grid::from_str("a2 a a2").unwrap();
    let solver = Solver::new(&grid);
    assert_eq!(solver.check(), Err(SolvingError::ZoneWithSameNumber('a', 2)));
}

#[test]
fn a_cell_without_candidates_is_reported() {
    let mut grid = Grid::from_str("a1 a a").unwrap();
    grid.set_content(2, CellContent::PossibleNumbers(Simple09Set::default()));
    let solver = Solver::new(&grid);
    assert_eq!(
        solver.check(),
        Err(SolvingError::NoPossibleNumber(LineColumn::new(0, 2)))
    );
}

#[test]
fn the_size_of_the_zones_is_checked_only_before_the_first_step() {
    // A zone of one cell with the digit 0 passes; so does the grid after
    // the first step.
    let grid = Grid::from_str("a0 b b").unwrap();
    let mut solver = Solver::new(&grid);
    assert_eq!(solver.check(), Ok(()));
    assert_eq!(solver.solve_step(), Ok(SolvingAction::InitPossibleNumbers));
    assert!(solver.init_cell_contents);
    assert_eq!(solver.check(), Ok(()));
}

#[test]
fn the_checks_come_in_a_fixed_order() {
    // Too long a zone is reported before a digit that does not fit.
    let mut grid = Grid::default();
    grid.add_line(0, vec![('b', Some(5)), ('b', None)]);
    grid.add_line(
        2,
        vec![
            ('a', None),
            ('a', None),
            ('a', None),
            ('a', None),
            ('a', None),
            ('a', None),
            ('a', None),
            ('a', None),
            ('a', None),
            ('a', None),
        ],
    );
    assert_eq!(
        Solver::new(&grid).check(),
        Err(SolvingError::ZoneTooLong('a'))
    );
    // A digit that does not fit is reported before two cells that clash.
    let grid = Grid::from_str("a1 a1 b9").unwrap();
    assert_eq!(
        Solver::new(&grid).check(),
        Err(SolvingError::ZoneWithUnexpectedNumber(
            'b',
            LineColumn::new(0, 2),
            9
        ))
    );
    // Two cells that clash are reported before a digit twice in a zone.
    let grid = Grid::from_str("a1 a1 a").unwrap();
    assert_eq!(
        Solver::new(&grid).check(),
        Err(SolvingError::NeighboringWithSameNumber(
            LineColumn::new(0, 0),
            LineColumn::new(0, 1),
            1
        ))
    );
}

#[test]
fn a_solved_grid_passes_the_check() {
    let grid = Grid::from_str(
        "
        a1 b3 b2
        b4 b5 b1
        c1 c3 c2
        ",
    )
    .unwrap();
    let mut solver = Solver::new(&grid);
    assert_eq!(solver.check(), Ok(()));
    assert!(solver.is_solved());
    assert_eq!(solver.solve(&[]), Ok(true));
    assert_eq!(solver.check(), Ok(()));
    assert!(solver.is_solved());
    assert_eq!(solver.grid.cells, grid.cells);
}
