use std::str::FromStr;
use tectonic::{Grid, Solver};

#[test]
fn test_check_ok() {
    let grid = Grid::from_str(
        "
        a1 b  b2
        b4 b  b
        c  c  c2
        ",
    )
    .unwrap();

    let solver = Solver::new(&grid);

    assert!(solver.check().is_ok());
}

#[test]
fn test_check_zone_too_long() {
    let grid = Grid::from_str(
        "
        # NOK car trop de cases dans la zone 'a'
        a1 a  a  b  a
        b  b  a  a  a
        c  c  a  a  a
        c  c  a  a  a
        ",
    )
    .unwrap();

    let solver = Solver::new(&grid);

    assert!(solver.check().is_err());
}

#[test]
fn test_check_zone_with_unexpected_number() {
    let grid = Grid::from_str(
        "
        # NOK car b7 n'est pas possible dans une zone de 5 cases
        a1 b  b
        b  b7  b
        c  c  c2
        ",
    )
    .unwrap();

    let solver = Solver::new(&grid);

    assert!(solver.check().is_err());
}

#[test]
fn test_check_neighboring_nok() {
    let grid = Grid::from_str(
        "
        # NOK car a1 et b1 sont voisins
        a1 b  b2
        b4 b1 b
        c  c  c2
        ",
    )
    .unwrap();

    let solver = Solver::new(&grid);

    assert!(solver.check().is_err());
}

#[test]
fn test_check_zone_nok() {
    let grid = Grid::from_str(
        "
        # NOK car 2 apparaît 2 x dans la zone b
        a1 b  b2
        b4 b2 b
        c  c  c2
        ",
    )
    .unwrap();

    let solver = Solver::new(&grid);

    assert!(solver.check().is_err());
}

#[test]
fn test_is_solved_ok() {
    let grid = Grid::from_str(
        "
        a1 b3 b2
        b4 b5 b1
        c1 c3 c2
        ",
    )
    .unwrap();

    let solver = Solver::new(&grid);

    assert!(solver.check().is_ok());
    assert!(solver.is_solved());
}

#[test]
fn test_is_solved_nok() {
    let grid = Grid::from_str(
        "
        a1 b  b2
        b4 b  b
        c  c  c2
        ",
    )
    .unwrap();

    let solver = Solver::new(&grid);

    assert!(solver.check().is_ok());
    assert!(!solver.is_solved());
}

#[test]
fn test_hard_puzzle_is_solved() {
    let grid = Grid::from_str(
        "
            # Jeu Le Routard no 13 - page 38 (niveau rouge)
            a  a5 a  b  b
            c  a  a  b3 b
            d  e  e  e  f
            d5 d  e2 e  g
            d  d  g  g1 g
        ",
    )
    .unwrap();

    let mut solver = Solver::new(&grid);
    let _ = solver.solve(&[]);
    assert!(solver.is_solved());
}
