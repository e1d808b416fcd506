use std::str::FromStr;
use tectonic::{parse_grid, Cell, CellContent, Grid, LineColumn, ParseGridError, Simple09Set};

#[test]
fn cells_and_zones_keep_the_order_in_which_they_came() {
    let mut grid = Grid::default();
    grid.add_line(0, vec![('b', None), ('a', Some(2)), ('b', Some(1))]);
    grid.add_cell((1, 0), 'a', None);
    let positions: Vec<(i32, i32)> = grid
        .cells
        .iter()
        .map(|cell| (cell.line_column.line, cell.line_column.column))
        .collect();
    assert_eq!(positions, vec![(0, 0), (0, 1), (0, 2), (1, 0)]);
    let letters: Vec<char> = grid.zones.iter().map(|zone| zone.c_zone).collect();
    assert_eq!(letters, vec!['b', 'a']);
    assert_eq!(
        grid.zones[0].set_line_column,
        vec![LineColumn::new(0, 0), LineColumn::new(0, 2)]
    );
    assert_eq!(
        grid.zones[1].set_line_column,
        vec![LineColumn::new(0, 1), LineColumn::new(1, 0)]
    );
    assert_eq!(grid.cells[1].content, CellContent::Number(2));
    assert_eq!(grid.cells[3].content, CellContent::Undefined);
}

#[test]
fn a_cell_added_twice_is_replaced() {
    let mut grid = Grid::default();
    grid.add_cell((0, 0), 'a', Some(1));
    grid.add_cell((0, 1), 'a', None);
    grid.add_cell((0, 0), 'a', Some(2));
    assert_eq!(grid.cells.len(), 2);
    assert_eq!(
        grid.cells[0],
        Cell {
            c_zone: 'a',
            line_column: LineColumn::new(0, 0),
            content: CellContent::Number(2),
        }
    );
    assert_eq!(
        grid.zones[0].set_line_column,
        vec![LineColumn::new(0, 0), LineColumn::new(0, 1)]
    );
}

#[test]
fn a_cell_added_again_in_another_zone_leaves_the_first() {
    let mut grid = Grid::default();
    grid.add_cell((0, 0), 'a', Some(1));
    grid.add_cell((0, 1), 'a', None);
    grid.add_cell((0, 0), 'b', None);
    assert_eq!(grid.cells.len(), 2);
    assert_eq!(grid.cells[0].c_zone, 'b');
    assert_eq!(grid.cells[0].content, CellContent::Undefined);
    assert_eq!(grid.zones.len(), 2);
    assert_eq!(grid.zones[0].set_line_column, vec![LineColumn::new(0, 1)]);
    assert_eq!(grid.zones[1].c_zone, 'b');
    assert_eq!(grid.zones[1].set_line_column, vec![LineColumn::new(0, 0)]);
}

#[test]
fn the_box_grows_around_the_origin() {
    let mut grid = Grid::default();
    assert_eq!(grid.min_line_column, LineColumn::new(0, 0));
    assert_eq!(grid.max_line_column, LineColumn::new(0, 0));
    grid.add_cell((2, 3), 'a', None);
    assert_eq!(grid.min_line_column, LineColumn::new(0, 0));
    assert_eq!(grid.max_line_column, LineColumn::new(2, 3));
    grid.add_cell((-1, 5), 'a', None);
    assert_eq!(grid.min_line_column, LineColumn::new(-1, 0));
    assert_eq!(grid.max_line_column, LineColumn::new(2, 5));
}

#[test]
fn get_mut_cell_writes_into_the_grid() {
    let mut grid = Grid::default();
    grid.add_line(0, vec![('a', None), ('a', None)]);
    assert!(grid.get_mut_cell(LineColumn::new(3, 3)).is_none());
    let cell = grid.get_mut_cell(LineColumn::new(0, 1)).unwrap();
    cell.content = CellContent::PossibleNumbers(Simple09Set::new(&[1, 2]));
    assert_eq!(
        grid.get_cell(LineColumn::new(0, 1)).unwrap().content,
        CellContent::PossibleNumbers(Simple09Set::new(&[1, 2]))
    );
    assert_eq!(
        grid.get_cell(LineColumn::new(0, 0)).unwrap().content,
        CellContent::Undefined
    );
}

#[test]
fn a_clone_is_a_grid_of_its_own() {
    let mut grid = Grid::default();
    grid.add_line(0, vec![('a', Some(1)), ('a', None)]);
    let mut copy = grid.clone();
    copy.set_content(1, CellContent::Number(2));
    copy.add_cell((1, 0), 'b', None);
    assert_eq!(grid.cells.len(), 2);
    assert_eq!(grid.cells[1].content, CellContent::Undefined);
    assert_eq!(grid.zones.len(), 1);
    assert_eq!(copy.cells.len(), 3);
    assert_eq!(copy.cells[1].content, CellContent::Number(2));
}

#[test]
fn lookups_find_the_digit_and_the_candidates_of_a_cell() {
    let mut grid = Grid::default();
    grid.add_line(0, vec![('a', Some(4)), ('a', None)]);
    grid.set_content(1, CellContent::PossibleNumbers(Simple09Set::new(&[1, 2])));
    assert_eq!(grid.number_on(LineColumn::new(0, 0)), Some(4));
    assert_eq!(grid.number_on(LineColumn::new(0, 1)), None);
    assert_eq!(grid.number_on(LineColumn::new(5, 5)), None);
    assert_eq!(grid.candidates_on(LineColumn::new(0, 0)), None);
    assert_eq!(
        grid.candidates_on(LineColumn::new(0, 1)),
        Some(Simple09Set::new(&[1, 2]))
    );
    assert_eq!(grid.cell_position(LineColumn::new(0, 1)), Some(1));
    assert_eq!(grid.cell_position(LineColumn::new(1, 1)), None);
    assert_eq!(grid.zone_position('a'), Some(0));
    assert_eq!(grid.zone_position('z'), None);
    assert_eq!(
        grid.numbers_among(&vec![
            LineColumn::new(0, 1),
            LineColumn::new(0, 0),
            LineColumn::new(9, 9)
        ]),
        Simple09Set::new(&[4])
    );
}

#[test]
fn a_text_gives_the_cells_line_by_line() {
    let grid = parse_grid("a1 b\n\n# a comment\nb0\tc\r\n").unwrap();
    let cells: Vec<(i32, i32, char, CellContent)> = grid
        .cells
        .iter()
        .map(|cell| {
            (
                cell.line_column.line,
                cell.line_column.column,
                cell.c_zone,
                cell.content,
            )
        })
        .collect();
    assert_eq!(
        cells,
        vec![
            (0, 0, 'a', CellContent::Number(1)),
            (0, 1, 'b', CellContent::Undefined),
            (1, 0, 'b', CellContent::Number(0)),
            (1, 1, 'c', CellContent::Undefined),
        ]
    );
    assert_eq!(grid.max_line_column, LineColumn::new(1, 1));
}

#[test]
fn an_empty_text_gives_an_empty_grid() {
    for text in ["", "\n\n", "   \n\t\n", "# only a comment", "  #x a1 b22\n"] {
        let grid = Grid::from_str(text).unwrap();
        assert!(grid.cells.is_empty());
        assert!(grid.zones.is_empty());
    }
}

#[test]
fn the_error_names_the_first_word_that_is_no_cell() {
    assert_eq!(parse_grid("abc").err(), Some(ParseGridError(0, 0)));
    assert_eq!(parse_grid("a b1 c# d").err(), Some(ParseGridError(0, 2)));
    assert_eq!(
        parse_grid("# skipped\n\na\nb c1 d12 e123\n").err(),
        Some(ParseGridError(1, 2))
    );
    assert_eq!(parse_grid("a\nb\nc d e fx").err(), Some(ParseGridError(2, 3)));
}

#[test]
fn a_zone_letter_may_be_any_character() {
    let grid = parse_grid("é1 É ?9 99").unwrap();
    let letters: Vec<char> = grid.cells.iter().map(|cell| cell.c_zone).collect();
    assert_eq!(letters, vec!['é', 'É', '?', '9']);
    assert_eq!(grid.cells[3].content, CellContent::Number(9));
}

#[test]
fn from_str_reads_what_parse_grid_reads() {
    let text = "a1 b  b2\nb4 b  b\nc  c  c2\n";
    let one = Grid::from_str(text).unwrap();
    let other = parse_grid(text).unwrap();
    assert_eq!(one.cells, other.cells);
    assert_eq!(one.cells.len(), 9);
    assert_eq!(one.zones.len(), 3);
    assert_eq!(one.zones[1].set_line_column.len(), 5);
}
