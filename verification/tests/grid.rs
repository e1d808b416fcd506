use std::str::FromStr;
use tectonic::{CellContent, Grid, LineColumn, ParseGridError};

#[test]
fn test_grid_add_cell() {
    // Empty grid
    let mut grid = Grid::default();

    // Line/column/zone/digit of the cell to place
    let line_column = (1, 2);
    let c_zone = 'a';
    let content_number = 1;

    let struct_line_column = LineColumn::new(line_column.0, line_column.1);

    // An empty grid knows neither the zone nor the cell
    assert!(grid.get_zone(c_zone).is_none());
    assert!(grid.get_cell(struct_line_column).is_none());

    // Adds the cell that holds the digit in the zone
    grid.add_cell(line_column, c_zone, Some(content_number));

    // The box of the grid: min_line_column stays at (0, 0)
    assert_eq!(grid.max_line_column.line, line_column.0);
    assert_eq!(grid.max_line_column.column, line_column.1);

    // The zone is known now
    assert!(grid.zones.iter().any(|zone| zone.c_zone == c_zone));
    assert!(grid.get_zone(c_zone).is_some());

    // The cell is known now
    assert!(grid
        .cells
        .iter()
        .any(|cell| cell.line_column == struct_line_column));
    assert!(grid.get_cell(struct_line_column).is_some());

    // The zone lists the cell
    let zone = grid.get_zone(c_zone).unwrap();
    assert_eq!(zone.c_zone, c_zone);
    assert!(zone.set_line_column.contains(&struct_line_column));

    // The cell is as defined
    let cell = grid.get_cell(struct_line_column).unwrap();
    assert_eq!(cell.c_zone, c_zone);
    assert_eq!(cell.line_column, struct_line_column);
    assert_eq!(cell.content, CellContent::Number(content_number));
}

#[test]
fn test_parse_grid_ok() {
    let result_grid = Grid::from_str(
        "
        a1 b  b2
        b4 b  b
        c  c  c2
        ",
    );

    assert!(result_grid.is_ok());
}

#[test]
fn test_parse_grid_nok() {
    // The cell b22 is no cell (line=1, column=1)
    let result_grid = Grid::from_str(
        "
        a1 b  b2
        b4 b22 b
        c  c  c2
        ",
    );

    assert!(result_grid.is_err());
    if let Err(ParseGridError(line, column)) = result_grid {
        assert_eq!(line, 1);
        assert_eq!(column, 1);
    } else {
        panic!("ParseGridError non détectée");
    }
}

#[test]
fn test_parse_grid_nok_2() {
    // The cell bz is no cell (line=1, column=1)
    let result_grid = Grid::from_str(
        "
        a1 b  b2
        b4 bz b
        c  c  c2
        ",
    );

    assert!(result_grid.is_err());
    if let Err(ParseGridError(line, column)) = result_grid {
        assert_eq!(line, 1);
        assert_eq!(column, 1);
    } else {
        panic!("ParseGridError non détectée");
    }
}
