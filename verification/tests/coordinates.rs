use tectonic::{LineColumn, NeighboringLineColumns};

#[test]
fn shifted_moves_by_lines_and_columns() {
    let lc = LineColumn::new(3, -2);
    assert_eq!(lc.shifted(1, 1), Some(LineColumn::new(4, -1)));
    assert_eq!(lc.shifted(-3, 2), Some(LineColumn::new(0, 0)));
    assert_eq!(lc.shifted(0, 0), Some(lc));
}

#[test]
fn shifted_past_the_range_of_i32_is_none() {
    let corner = LineColumn::new(i32::MAX, i32::MIN);
    assert_eq!(corner.shifted(1, 0), None);
    assert_eq!(corner.shifted(0, -1), None);
    assert_eq!(corner.shifted(-1, 1), Some(LineColumn::new(i32::MAX - 1, i32::MIN + 1)));
}

#[test]
fn min_and_max_work_component_by_component() {
    let mut low = LineColumn::new(2, -5);
    low.min(LineColumn::new(-1, 7));
    assert_eq!(low, LineColumn::new(-1, -5));
    let mut high = LineColumn::new(2, -5);
    high.max(LineColumn::new(-1, 7));
    assert_eq!(high, LineColumn::new(2, 7));
}

#[test]
fn neighbors_come_north_first_then_clockwise() {
    let around = NeighboringLineColumns::new(
        LineColumn::new(1, 1),
        LineColumn::new(0, 0),
        LineColumn::new(5, 5),
    )
    .collect();
    assert_eq!(
        around,
        vec![
            LineColumn::new(0, 1),
            LineColumn::new(0, 2),
            LineColumn::new(1, 2),
            LineColumn::new(2, 2),
            LineColumn::new(2, 1),
            LineColumn::new(2, 0),
            LineColumn::new(1, 0),
            LineColumn::new(0, 0),
        ]
    );
}

#[test]
fn neighbors_outside_the_box_are_left_out() {
    let top_left = NeighboringLineColumns::new(
        LineColumn::new(0, 0),
        LineColumn::new(0, 0),
        LineColumn::new(5, 5),
    )
    .collect();
    assert_eq!(
        top_left,
        vec![
            LineColumn::new(0, 1),
            LineColumn::new(1, 1),
            LineColumn::new(1, 0),
        ]
    );
    let alone = NeighboringLineColumns::new(
        LineColumn::new(2, 2),
        LineColumn::new(2, 2),
        LineColumn::new(2, 2),
    )
    .collect();
    assert!(alone.is_empty());
}

#[test]
fn next_gives_each_neighbor_once_and_then_nothing() {
    let mut walk = NeighboringLineColumns::new(
        LineColumn::new(0, 1),
        LineColumn::new(0, 0),
        LineColumn::new(0, 2),
    );
    assert_eq!(walk.next(), Some(LineColumn::new(0, 2)));
    assert_eq!(walk.next(), Some(LineColumn::new(0, 0)));
    assert_eq!(walk.next(), None);
    assert_eq!(walk.next(), None);
}

#[test]
fn neighbors_at_the_end_of_the_range_do_not_overflow() {
    let around = NeighboringLineColumns::new(
        LineColumn::new(i32::MAX, i32::MAX),
        LineColumn::new(i32::MAX - 1, i32::MAX - 1),
        LineColumn::new(i32::MAX, i32::MAX),
    )
    .collect();
    assert_eq!(
        around,
        vec![
            LineColumn::new(i32::MAX - 1, i32::MAX),
            LineColumn::new(i32::MAX, i32::MAX - 1),
            LineColumn::new(i32::MAX - 1, i32::MAX - 1),
        ]
    );
}
