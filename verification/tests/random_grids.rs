use tectonic::{CellContent, Grid, Solver, SolvingAction};

/// A grid of a few lines and columns, with zones and digits drawn from
/// `seed`.
fn drawn_grid(seed: &mut u64) -> Grid {
    let mut next = |n: u64| {
        *seed = seed
            .wrapping_mul(6364136223846793005)
            .wrapping_add(1442695040888963407);
        (*seed >> 33) % n
    };
    let lines = 1 + next(3);
    let columns = 1 + next(4);
    let letters = 1 + next(5);
    let mut grid = Grid::default();
    for line in 0..lines {
        let mut cells = Vec::new();
        for _ in 0..columns {
            let letter = (b'a' + next(letters) as u8) as char;
            let digit = if next(4) == 0 {
                Some(1 + next(4) as u8)
            } else {
                None
            };
            cells.push((letter, digit));
        }
        grid.add_line(line as i32, cells);
    }
    grid
}

fn is_a_solution(grid: &Grid) -> bool {
    for zone in grid.zones.iter() {
        let mut found: Vec<u8> = Vec::new();
        for position in zone.set_line_column.iter() {
            match grid.number_on(*position) {
                Some(n) => found.push(n),
                None => return false,
            }
        }
        found.sort();
        let wanted: Vec<u8> = (1..=zone.set_line_column.len() as u8).collect();
        if found != wanted {
            return false;
        }
    }
    for a in grid.cells.iter() {
        for b in grid.cells.iter() {
            let near = a.line_column != b.line_column
                && (a.line_column.line - b.line_column.line).abs() <= 1
                && (a.line_column.column - b.line_column.column).abs() <= 1;
            if near && a.content == b.content {
                return false;
            }
        }
    }
    true
}

#[test]
fn a_grid_reported_solved_is_a_solution() {
    let mut seed: u64 = 2024;
    let mut solved = 0;
    let mut open = 0;
    let mut failed = 0;
    for _ in 0..400 {
        let grid = drawn_grid(&mut seed);
        let mut solver = Solver::new(&grid);
        match solver.solve(&[]) {
            Ok(true) => {
                solved += 1;
                assert!(solver.is_solved());
                assert!(is_a_solution(&solver.grid));
                assert_eq!(solver.check(), Ok(()));
                for (given, found) in grid.cells.iter().zip(solver.grid.cells.iter()) {
                    if let CellContent::Number(_) = given.content {
                        assert_eq!(given, found);
                    }
                }
            }
            Ok(false) => {
                open += 1;
                assert!(!solver.is_solved());
                assert_eq!(solver.check(), Ok(()));
                assert_eq!(solver.solve_step(), Ok(SolvingAction::NoAction));
            }
            Err(e) => {
                failed += 1;
                assert_eq!(solver.check(), Err(e));
                assert_eq!(solver.solve_step(), Err(e));
            }
        }
    }
    assert_eq!(solved + open + failed, 400);
    assert!(solved > 0);
    assert!(failed > 0);
}

#[test]
fn solving_a_second_time_gives_the_same_steps() {
    let mut seed: u64 = 77;
    for _ in 0..100 {
        let grid = drawn_grid(&mut seed);
        let mut one = Solver::new(&grid);
        let mut other = Solver::new(&grid.clone());
        for _ in 0..200 {
            let a = one.solve_step();
            let b = other.solve_step();
            assert_eq!(a, b);
            assert_eq!(one.grid.cells, other.grid.cells);
            match a {
                Ok(SolvingAction::Solved) | Ok(SolvingAction::NoAction) | Err(_) => break,
                Ok(_) => {}
            }
        }
    }
}

#[test]
fn a_puzzle_with_a_solution_is_never_found_contradictory() {
    let solutions: [&[(i32, i32, char, u8)]; 2] = [
        &[
            (0, 0, 'a', 1),
            (0, 1, 'b', 3),
            (0, 2, 'b', 2),
            (1, 0, 'b', 4),
            (1, 1, 'b', 5),
            (1, 2, 'b', 1),
            (2, 0, 'c', 1),
            (2, 1, 'c', 3),
            (2, 2, 'c', 2),
        ],
        &[
            (0, 0, 'a', 3),
            (0, 1, 'a', 1),
            (0, 2, 'b', 3),
            (0, 3, 'b', 1),
            (1, 0, 'b', 2),
            (1, 1, 'a', 5),
            (1, 2, 'a', 4),
            (1, 3, 'a', 2),
        ],
    ];
    let mut seed: u64 = 31;
    for solution in solutions {
        for _ in 0..150 {
            let mut grid = Grid::default();
            for (line, column, letter, digit) in solution.iter() {
                seed = seed
                    .wrapping_mul(6364136223846793005)
                    .wrapping_add(1442695040888963407);
                let given = (seed >> 33) % 3 == 0;
                grid.add_cell((*line, *column), *letter, if given { Some(*digit) } else { None });
            }
            let mut solver = Solver::new(&grid);
            loop {
                let action = solver.solve_step().unwrap();
                assert_eq!(solver.check(), Ok(()));
                if action == SolvingAction::Solved {
                    assert!(is_a_solution(&solver.grid));
                    break;
                }
                if action == SolvingAction::NoAction {
                    break;
                }
            }
        }
    }
}
