use tectonic::{LineColumn, NeighboringLineColumns};

#[test]
fn test_neighboring_cells() {
    // The grid goes from (0, 0) to (5, 5)
    let min_line_column = (0, 0);
    let max_line_column = (5, 5);

    // Each case: the cell in the middle and the cells around it in the grid
    let vec_tests = vec![
        (
            LineColumn::new(1, 1),
            vec![
                LineColumn::new(0, 0),
                LineColumn::new(0, 1),
                LineColumn::new(0, 2),
                LineColumn::new(1, 0),
                LineColumn::new(1, 2),
                LineColumn::new(2, 0),
                LineColumn::new(2, 1),
                LineColumn::new(2, 2),
            ],
        ),
        (
            LineColumn::new(0, 0),
            vec![
                LineColumn::new(0, 1),
                LineColumn::new(1, 0),
                LineColumn::new(1, 1),
            ],
        ),
        (
            LineColumn::new(5, 5),
            vec![
                LineColumn::new(4, 4),
                LineColumn::new(4, 5),
                LineColumn::new(5, 4),
            ],
        ),
    ];

    let min_line_column = LineColumn::new(min_line_column.0, min_line_column.1);
    let max_line_column = LineColumn::new(max_line_column.0, max_line_column.1);

    for test in vec_tests {
        let neighboring_cells =
            NeighboringLineColumns::new(test.0, min_line_column, max_line_column);
        let neighboring_cells_found: Vec<LineColumn> = neighboring_cells.collect();

        for v in test.1 {
            assert!(neighboring_cells_found.contains(&v));
        }
    }
}
