//! The squares of the board and their rendering.

use backtracking::position::Position;

#[test]
fn print_position() {
    assert_eq!("A1", Position::new(0, 0).to_string());
}

#[test]
fn print_lower_right_corner() {
    assert_eq!("H8", Position::new(7, 7).to_string());
}

#[test]
fn rows_columns_and_indices_agree() {
    for row in 0..8 {
        for column in 0..8 {
            let position = Position::new(row, column);
            assert_eq!(row, position.row());
            assert_eq!(column, position.column());
            assert_eq!((row * 8 + column) as usize, position.as_index());
        }
    }
}

#[test]
fn corner_reaches_two_fields() {
    let mut fields = Vec::new();
    Position::new(0, 0).reachable_fields(&mut fields);
    assert_eq!(vec![Position::new(2, 1), Position::new(1, 2)], fields);
}

#[test]
fn center_reaches_eight_fields() {
    let mut fields = Vec::new();
    Position::new(4, 4).reachable_fields(&mut fields);
    assert_eq!(8, fields.len());
}
