use std::str::FromStr;
use tectonic::{
    Cell, CellContent, DifficultyLevel, Grid, LineColumn, Solver, SolvingAction, SolvingError,
    SolvingOption,
};

const SMALL: &str = "
a1 b  b2
b4 b  b
c  c  c2
";

const HARD: &str = "
a  a5 a  b  b
c  a  a  b3 b
d  e  e  e  f
d5 d  e2 e  g
d  d  g  g1 g
";

fn lc(line: i32, column: i32) -> LineColumn {
    LineColumn::new(line, column)
}

fn digits(solver: &Solver) -> Vec<Option<u8>> {
    solver
        .grid
        .cells
        .iter()
        .map(|cell| match cell.content {
            CellContent::Number(n) => Some(n),
            _ => None,
        })
        .collect()
}

fn allows(content: CellContent, digit: u8) -> bool {
    match content {
        CellContent::Undefined => digit <= 9,
        CellContent::Number(n) => n == digit,
        CellContent::PossibleNumbers(set) => set.contains(digit),
    }
}

fn digits_are_lawful(cells: &[Cell], zone_size: &dyn Fn(char) -> usize) -> bool {
    for (i, a) in cells.iter().enumerate() {
        if let CellContent::Number(n) = a.content {
            if usize::from(n) > zone_size(a.c_zone) {
                return false;
            }
            for (j, b) in cells.iter().enumerate() {
                if i != j && b.content == CellContent::Number(n) {
                    let near = (a.line_column.line - b.line_column.line).abs() <= 1
                        && (a.line_column.column - b.line_column.column).abs() <= 1;
                    if near || a.c_zone == b.c_zone {
                        return false;
                    }
                }
            }
        }
    }
    true
}

#[test]
fn the_small_puzzle_is_solved() {
    let mut grid = Grid::default();
    grid.add_cell((0, 0), 'a', Some(1));
    grid.add_cell((0, 1), 'b', None);
    grid.add_cell((0, 2), 'b', Some(2));
    grid.add_cell((1, 0), 'b', Some(4));
    grid.add_cell((1, 1), 'b', None);
    grid.add_cell((1, 2), 'b', None);
    grid.add_cell((2, 0), 'c', None);
    grid.add_cell((2, 1), 'c', None);
    grid.add_cell((2, 2), 'c', Some(2));
    let mut solver = Solver::new(&grid);
    assert_eq!(solver.solve(&[]), Ok(true));
    assert!(solver.is_solved());
    assert_eq!(
        digits(&solver),
        vec![
            Some(1),
            Some(3),
            Some(2),
            Some(4),
            Some(5),
            Some(1),
            Some(1),
            Some(3),
            Some(2)
        ]
    );
    assert_eq!(solver.difficulty_level, DifficultyLevel::Medium);
}

#[test]
fn the_small_puzzle_takes_these_steps() {
    let grid = Grid::from_str(SMALL).unwrap();
    let mut solver = Solver::new(&grid);
    let expected = vec![
        SolvingAction::InitPossibleNumbers,
        SolvingAction::NumbersInZone(lc(0, 1), 'b', vec![2, 4]),
        SolvingAction::NumbersInZone(lc(1, 1), 'b', vec![2, 4]),
        SolvingAction::NumbersInZone(lc(1, 2), 'b', vec![2, 4]),
        SolvingAction::NumbersInZone(lc(2, 0), 'c', vec![2]),
        SolvingAction::NumbersInZone(lc(2, 1), 'c', vec![2]),
        SolvingAction::NumbersNeighboring(lc(0, 1), vec![1]),
        SolvingAction::NumbersNeighboring(lc(1, 1), vec![1]),
        SolvingAction::OnlyNumberInZone('b', lc(1, 2), 1),
        SolvingAction::NumbersNeighboring(lc(2, 1), vec![1]),
        SolvingAction::SinglePossibleNumber(lc(2, 1), 3),
        SolvingAction::NumbersInZone(lc(2, 0), 'c', vec![3]),
        SolvingAction::SinglePossibleNumber(lc(2, 0), 1),
        SolvingAction::NumbersNeighboring(lc(1, 1), vec![3]),
        SolvingAction::SinglePossibleNumber(lc(1, 1), 5),
        SolvingAction::NumbersInZone(lc(0, 1), 'b', vec![5]),
        SolvingAction::SinglePossibleNumber(lc(0, 1), 3),
        SolvingAction::Solved,
    ];
    for action in expected {
        assert_eq!(solver.solve_step(), Ok(action));
    }
    assert!(solver.is_solved());
}

#[test]
fn the_first_step_sets_the_candidates_of_each_zone() {
    let grid = Grid::from_str(SMALL).unwrap();
    let mut solver = Solver::new(&grid);
    assert_eq!(solver.solve_step(), Ok(SolvingAction::InitPossibleNumbers));
    let candidates: Vec<Vec<u8>> = solver
        .grid
        .cells
        .iter()
        .map(|cell| match cell.content {
            CellContent::PossibleNumbers(set) => set.as_vec_u8(),
            _ => vec![],
        })
        .collect();
    assert_eq!(
        candidates,
        vec![
            vec![],
            vec![1, 2, 3, 4, 5],
            vec![],
            vec![],
            vec![1, 2, 3, 4, 5],
            vec![1, 2, 3, 4, 5],
            vec![1, 2, 3],
            vec![1, 2, 3],
            vec![],
        ]
    );
    assert_eq!(solver.difficulty_level, DifficultyLevel::Unknown);
}

#[test]
fn a_step_after_solved_reports_solved_and_changes_nothing() {
    let grid = Grid::from_str(SMALL).unwrap();
    let mut solver = Solver::new(&grid);
    assert_eq!(solver.solve(&[]), Ok(true));
    let cells = solver.grid.cells.clone();
    let difficulty = solver.difficulty_level;
    for _ in 0..3 {
        assert_eq!(solver.solve_step(), Ok(SolvingAction::Solved));
        assert_eq!(solver.grid.cells, cells);
        assert_eq!(solver.difficulty_level, difficulty);
        assert!(solver.init_cell_contents);
    }
    assert_eq!(solver.solve(&[]), Ok(true));
    assert_eq!(solver.grid.cells, cells);
}

#[test]
fn the_digits_obey_the_rules_after_each_step_of_a_puzzle_with_a_solution() {
    for text in [SMALL, HARD] {
        let grid = Grid::from_str(text).unwrap();
        let sizes: Vec<(char, usize)> = grid
            .zones
            .iter()
            .map(|zone| (zone.c_zone, zone.set_line_column.len()))
            .collect();
        let zone_size = |letter: char| {
            sizes
                .iter()
                .find(|(c, _)| *c == letter)
                .map_or(0, |(_, n)| *n)
        };
        let mut solver = Solver::new(&grid);
        loop {
            let action = solver.solve_step().unwrap();
            assert!(digits_are_lawful(&solver.grid.cells, &zone_size));
            if action == SolvingAction::Solved || action == SolvingAction::NoAction {
                break;
            }
        }
        assert!(solver.is_solved());
    }
}

#[test]
fn a_digit_that_breaks_a_rule_is_reported_by_the_next_step() {
    // Zone `a` must hold 1 and 2, but each of its cells touches a 1.
    let grid = Grid::from_str("b1 a a c1").unwrap();
    let mut solver = Solver::new(&grid);
    let expected = vec![
        SolvingAction::InitPossibleNumbers,
        SolvingAction::NumbersNeighboring(lc(0, 1), vec![1]),
        SolvingAction::SinglePossibleNumber(lc(0, 1), 2),
        SolvingAction::NumbersInZone(lc(0, 2), 'a', vec![2]),
        SolvingAction::SinglePossibleNumber(lc(0, 2), 1),
    ];
    for action in expected {
        assert_eq!(solver.solve_step(), Ok(action));
    }
    let clash = SolvingError::NeighboringWithSameNumber(lc(0, 2), lc(0, 3), 1);
    assert_eq!(solver.solve_step(), Err(clash));
    // The contradiction stays: nothing is retried.
    assert_eq!(solver.solve_step(), Err(clash));
    assert_eq!(solver.solve(&[]), Err(clash));
    assert_eq!(
        digits(&solver),
        vec![Some(1), Some(2), Some(1), Some(1)]
    );
}

#[test]
fn candidates_never_come_back() {
    for text in [SMALL, HARD, "b1 a a c1", "a a b b\nc c c c\n"] {
        let grid = Grid::from_str(text).unwrap();
        let mut solver = Solver::new(&grid);
        let mut before = solver.grid.cells.clone();
        for _ in 0..200 {
            let step = solver.solve_step();
            let after = solver.grid.cells.clone();
            assert_eq!(before.len(), after.len());
            for (old, new) in before.iter().zip(after.iter()) {
                assert_eq!(old.line_column, new.line_column);
                assert_eq!(old.c_zone, new.c_zone);
                for digit in 0..=9 {
                    assert!(!allows(new.content, digit) || allows(old.content, digit));
                }
            }
            before = after;
            match step {
                Ok(SolvingAction::Solved) | Ok(SolvingAction::NoAction) | Err(_) => break,
                Ok(_) => {}
            }
        }
    }
}

#[test]
fn a_puzzle_that_the_first_rules_solve_is_easy() {
    for (text, solution) in [
        ("a", vec![Some(1)]),
        ("a1 a", vec![Some(1), Some(2)]),
        ("a a2", vec![Some(1), Some(2)]),
        ("a2 a a1", vec![Some(2), Some(3), Some(1)]),
    ] {
        let grid = Grid::from_str(text).unwrap();
        let mut solver = Solver::new(&grid);
        assert_eq!(solver.solve(&[]), Ok(true));
        assert_eq!(digits(&solver), solution);
        assert_eq!(solver.difficulty_level, DifficultyLevel::Easy);
    }
}

#[test]
fn the_difficulty_is_that_of_the_hardest_rule_and_never_falls() {
    let grid = Grid::from_str(HARD).unwrap();
    let mut solver = Solver::new(&grid);
    let mut last = DifficultyLevel::Unknown;
    loop {
        let action = solver.solve_step().unwrap();
        let level = match action {
            SolvingAction::SinglePossibleNumber(..)
            | SolvingAction::NumbersInZone(..)
            | SolvingAction::OnlyNumberInZone(..) => DifficultyLevel::Easy,
            SolvingAction::NumbersNeighboring(..) => DifficultyLevel::Medium,
            SolvingAction::DualValuesPair(..) => DifficultyLevel::Hard,
            SolvingAction::TryAndSolve(..) | SolvingAction::TryAndFail(..) => {
                DifficultyLevel::VeryHard
            }
            _ => DifficultyLevel::Unknown,
        };
        assert_eq!(solver.difficulty_level, last.max(level));
        assert_eq!(solver.difficulty_level, last.at_least(level));
        last = solver.difficulty_level;
        if action == SolvingAction::Solved {
            break;
        }
    }
    assert_eq!(solver.difficulty_level, DifficultyLevel::VeryHard);
}

#[test]
fn the_levels_of_difficulty_are_ordered() {
    assert!(DifficultyLevel::Unknown < DifficultyLevel::Easy);
    assert!(DifficultyLevel::Easy < DifficultyLevel::Medium);
    assert!(DifficultyLevel::Medium < DifficultyLevel::Hard);
    assert!(DifficultyLevel::Hard < DifficultyLevel::VeryHard);
    assert_eq!(DifficultyLevel::default(), DifficultyLevel::Unknown);
    assert_eq!(DifficultyLevel::Unknown.rank(), 0);
    assert_eq!(DifficultyLevel::VeryHard.rank(), 4);
    assert_eq!(
        DifficultyLevel::Medium.at_least(DifficultyLevel::Easy),
        DifficultyLevel::Medium
    );
    assert_eq!(
        DifficultyLevel::Medium.at_least(DifficultyLevel::Hard),
        DifficultyLevel::Hard
    );
}

#[test]
fn without_trying_the_hard_puzzle_stays_open() {
    let grid = Grid::from_str(HARD).unwrap();
    let mut solver = Solver::new(&grid);
    assert_eq!(
        solver.solve(&[SolvingOption::MaxTryAndSeeRecursionLevel(0)]),
        Ok(false)
    );
    assert_eq!(solver.max_try_and_see_recursion_level, 0);
    assert!(!solver.is_solved());
    assert_eq!(solver.difficulty_level, DifficultyLevel::Hard);
    assert_eq!(solver.solve_step(), Ok(SolvingAction::NoAction));
    // With the depth back the same solver goes on to the end.
    assert_eq!(
        solver.solve(&[SolvingOption::MaxTryAndSeeRecursionLevel(3)]),
        Ok(true)
    );
    assert!(solver.is_solved());
    assert_eq!(solver.difficulty_level, DifficultyLevel::VeryHard);
}

#[test]
fn the_hard_puzzle_keeps_its_digits_and_fills_each_zone() {
    let grid = Grid::from_str(HARD).unwrap();
    let mut solver = Solver::new(&grid);
    assert_eq!(solver.solve(&[]), Ok(true));
    assert_eq!(solver.max_try_and_see_recursion_level, 3);
    assert_eq!(solver.try_and_see_recursion_level, 0);
    for (given, solved) in grid.cells.iter().zip(solver.grid.cells.iter()) {
        if let CellContent::Number(_) = given.content {
            assert_eq!(given, solved);
        }
    }
    for zone in solver.grid.zones.iter() {
        let mut found: Vec<u8> = zone
            .set_line_column
            .iter()
            .map(|p| solver.grid.number_on(*p).unwrap())
            .collect();
        found.sort();
        let wanted: Vec<u8> = (1..=zone.set_line_column.len() as u8).collect();
        assert_eq!(found, wanted);
    }
}

#[test]
fn the_depth_is_that_of_the_first_option() {
    assert_eq!(
        SolvingOption::get_max_try_and_see_recursion_level(&[], 3),
        3
    );
    assert_eq!(
        SolvingOption::get_max_try_and_see_recursion_level(&[], 7),
        7
    );
    assert_eq!(
        SolvingOption::get_max_try_and_see_recursion_level(
            &[
                SolvingOption::MaxTryAndSeeRecursionLevel(1),
                SolvingOption::MaxTryAndSeeRecursionLevel(5)
            ],
            3
        ),
        1
    );
}

#[test]
fn a_pair_of_candidates_strikes_the_cells_that_touch_both() {
    let grid = Grid::from_str("a a b b\nc c c c\n").unwrap();
    let mut solver = Solver::new(&grid);
    let expected = vec![
        SolvingAction::InitPossibleNumbers,
        SolvingAction::DualValuesPair(lc(0, 0), lc(0, 1), lc(1, 0), vec![1, 2]),
        SolvingAction::DualValuesPair(lc(0, 0), lc(0, 1), lc(1, 1), vec![1, 2]),
        SolvingAction::DualValuesPair(lc(0, 1), lc(0, 2), lc(1, 2), vec![1, 2]),
        SolvingAction::OnlyNumberInZone('c', lc(1, 3), 1),
    ];
    for action in expected {
        assert_eq!(solver.solve_step(), Ok(action));
    }
    assert_eq!(solver.difficulty_level, DifficultyLevel::Hard);
}

#[test]
fn a_new_solver_starts_afresh_on_its_own_grid() {
    let mut grid = Grid::from_str(SMALL).unwrap();
    let solver = Solver::new(&grid);
    grid.add_cell((5, 5), 'z', None);
    assert_eq!(solver.grid.cells.len(), 9);
    assert!(!solver.init_cell_contents);
    assert_eq!(solver.difficulty_level, DifficultyLevel::Unknown);
    assert_eq!(solver.max_try_and_see_recursion_level, 3);
    assert_eq!(solver.try_and_see_recursion_level, 0);
}

#[test]
fn an_observer_sees_each_step_and_changes_nothing() {
    let grid = Grid::from_str(SMALL).unwrap();
    let seen: std::cell::RefCell<Vec<(String, usize)>> = std::cell::RefCell::new(Vec::new());
    let mut observed = Solver::new(&grid);
    let result = observed.solve_observed(&[], |action, solver| {
        let open = solver
            .grid
            .cells
            .iter()
            .filter(|cell| !matches!(cell.content, CellContent::Number(_)))
            .count();
        seen.borrow_mut().push((format!("{:?}", action), open));
    });
    assert_eq!(result, Ok(true));
    let seen = seen.into_inner();
    assert_eq!(seen.len(), 18);
    assert_eq!(seen[0], ("InitPossibleNumbers".to_string(), 5));
    assert_eq!(
        seen[8],
        (
            "OnlyNumberInZone('b', LineColumn { line: 1, column: 2 }, 1)".to_string(),
            4
        )
    );
    assert_eq!(seen[17], ("Solved".to_string(), 0));

    let mut plain = Solver::new(&grid);
    assert_eq!(plain.solve(&[]), result);
    assert_eq!(plain.grid.cells, observed.grid.cells);
    assert_eq!(plain.difficulty_level, observed.difficulty_level);
}

#[test]
fn an_observer_sees_no_step_that_fails() {
    let grid = Grid::from_str("b1 a a c1").unwrap();
    let count = std::cell::Cell::new(0);
    let mut solver = Solver::new(&grid);
    let result = solver.solve_observed(
        &[SolvingOption::MaxTryAndSeeRecursionLevel(0)],
        |_, _| count.set(count.get() + 1),
    );
    assert_eq!(
        result,
        Err(SolvingError::NeighboringWithSameNumber(lc(0, 2), lc(0, 3), 1))
    );
    assert_eq!(count.get(), 5);
    assert_eq!(solver.max_try_and_see_recursion_level, 0);
}

#[test]
fn trying_a_candidate_rules_it_out_or_confirms_it() {
    let grid = Grid::from_str("a3 a b b\nb a a a2\n").unwrap();
    let mut solver = Solver::new(&grid);
    let expected = vec![
        SolvingAction::InitPossibleNumbers,
        SolvingAction::NumbersInZone(lc(0, 1), 'a', vec![2, 3]),
        SolvingAction::NumbersInZone(lc(1, 1), 'a', vec![2, 3]),
        SolvingAction::NumbersInZone(lc(1, 2), 'a', vec![2, 3]),
        SolvingAction::NumbersNeighboring(lc(0, 2), vec![2]),
        SolvingAction::NumbersNeighboring(lc(0, 3), vec![2]),
        SolvingAction::OnlyNumberInZone('b', lc(1, 0), 2),
        SolvingAction::DualValuesPair(lc(0, 2), lc(0, 3), lc(1, 2), vec![1]),
        SolvingAction::TryAndFail(lc(0, 2), 1, 3),
        SolvingAction::NumbersInZone(lc(0, 3), 'b', vec![3]),
        SolvingAction::SinglePossibleNumber(lc(0, 3), 1),
        SolvingAction::TryAndSolve(lc(1, 2), 4, 5),
        SolvingAction::NumbersInZone(lc(0, 1), 'a', vec![4]),
        SolvingAction::NumbersInZone(lc(1, 1), 'a', vec![4]),
        SolvingAction::TryAndSolve(lc(0, 1), 1, 5),
        SolvingAction::NumbersInZone(lc(1, 1), 'a', vec![1]),
        SolvingAction::SinglePossibleNumber(lc(1, 1), 5),
        SolvingAction::Solved,
    ];
    for action in expected {
        assert_eq!(solver.solve_step(), Ok(action));
        // The solver itself stays at its depth while it tries.
        assert_eq!(solver.try_and_see_recursion_level, 0);
    }
    assert_eq!(
        digits(&solver),
        vec![
            Some(3),
            Some(1),
            Some(3),
            Some(1),
            Some(2),
            Some(5),
            Some(4),
            Some(2)
        ]
    );
    assert_eq!(solver.difficulty_level, DifficultyLevel::VeryHard);
}

#[test]
fn a_solver_at_its_deepest_level_does_not_try() {
    let grid = Grid::from_str("a3 a b b\nb a a a2\n").unwrap();
    let mut solver = Solver::new(&grid);
    solver.max_try_and_see_recursion_level = 2;
    solver.try_and_see_recursion_level = 2;
    let mut last = SolvingAction::InitPossibleNumbers;
    for _ in 0..9 {
        last = solver.solve_step().unwrap();
    }
    assert_eq!(last, SolvingAction::NoAction);
    assert_eq!(solver.difficulty_level, DifficultyLevel::Hard);
    assert!(!solver.is_solved());
}

#[test]
fn a_grid_without_a_cell_of_two_candidates_gives_nothing_to_try() {
    let grid = Grid::from_str("a a a\nb b b\n").unwrap();
    let mut solver = Solver::new(&grid);
    assert_eq!(solver.solve_step(), Ok(SolvingAction::InitPossibleNumbers));
    assert_eq!(solver.solve_step(), Ok(SolvingAction::NoAction));
    assert_eq!(solver.solve(&[]), Ok(false));
    assert_eq!(solver.difficulty_level, DifficultyLevel::Unknown);
}

#[test]
fn an_empty_grid_is_solved() {
    let mut solver = Solver::new(&Grid::default());
    assert!(solver.is_solved());
    assert_eq!(solver.solve_step(), Ok(SolvingAction::InitPossibleNumbers));
    assert_eq!(solver.solve_step(), Ok(SolvingAction::Solved));
    assert_eq!(Solver::default().solve(&[]), Ok(true));
}
