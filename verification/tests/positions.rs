use vexpr::position::Position;

#[test]
fn new_keeps_the_six_numbers() {
    let pos = Position::new(1, 2, 3, 4, 5, 6);
    assert_eq!(pos.start, 1);
    assert_eq!(pos.end, 2);
    assert_eq!(pos.line_start, 3);
    assert_eq!(pos.line_end, 4);
    assert_eq!(pos.column_start, 5);
    assert_eq!(pos.column_end, 6);
}

#[test]
fn extend_takes_the_larger_of_each_end() {
    let mut pos = Position::new(2, 5, 0, 0, 2, 5);
    pos.extend(Position::new(8, 11, 1, 2, 0, 3));
    assert_eq!(pos, Position::new(2, 11, 0, 2, 2, 5));
}

#[test]
fn extend_never_shrinks() {
    let mut pos = Position::new(10, 20, 3, 4, 7, 9);
    pos.extend(Position::new(0, 1, 0, 0, 0, 1));
    assert_eq!(pos, Position::new(10, 20, 3, 4, 7, 9));
}

#[test]
fn extend_by_itself_changes_nothing() {
    let mut pos = Position::new(1, 4, 0, 1, 1, 4);
    let same = pos;
    pos.extend(same);
    assert_eq!(pos, same);
}

#[test]
fn position_reads_as_line_and_column() {
    assert_eq!(Position::new(7, 9, 3, 3, 12, 14).text(), "<ln: 3, column: 12>");
    assert_eq!(Position::new(0, 0, 0, 0, 0, 0).text(), "<ln: 0, column: 0>");
    assert_eq!(
        Position::new(0, 0, 1234567890, 1234567890, 100, 101).text(),
        "<ln: 1234567890, column: 100>"
    );
}
