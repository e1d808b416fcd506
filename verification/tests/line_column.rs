use tectonic::LineColumn;

#[test]
fn test_line_column_min_max() {
    let mut lc = LineColumn::default();
    assert_eq!(lc.line, 0);
    assert_eq!(lc.column, 0);

    lc.max(LineColumn::new(2, 3));
    assert_eq!(lc.line, 2);
    assert_eq!(lc.column, 3);

    lc.min(LineColumn::new(1, 2));
    assert_eq!(lc.line, 1);
    assert_eq!(lc.column, 2);
}

#[test]
fn test_line_column_arithmetic() {
    let lc = LineColumn::new(1, 2);

    assert_eq!(lc, LineColumn::new(1, 2));
    assert_ne!(lc, LineColumn::default());

    let lc_add = lc
        + LineColumn {
            line: 2,
            column: -1,
        };
    assert_eq!(lc_add, LineColumn::new(1 + 2, 2 - 1));
}
