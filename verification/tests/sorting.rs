use ugolki_solver::sorting::{sort_ascending, sort_turns};
use ugolki_solver::text::append_number;
use ugolki_solver::{PieceColor, Position, Turn};

fn turn(from: u8, to: u8) -> Turn {
    Turn { from: Position(from), to: Position(to) }
}

#[test]
fn bytes_are_sorted_ascending() {
    let mut values = vec![5u8, 0, 7, 7, 2, 1, 0, 3, 6];
    sort_ascending(&mut values);
    assert_eq!(values, vec![0, 0, 1, 2, 3, 5, 6, 7, 7]);
    let mut empty: Vec<u8> = Vec::new();
    sort_ascending(&mut empty);
    assert!(empty.is_empty());
    let mut one = vec![9u8];
    sort_ascending(&mut one);
    assert_eq!(one, vec![9]);
    let mut down = vec![4u8, 3, 2, 1];
    sort_ascending(&mut down);
    assert_eq!(down, vec![1, 2, 3, 4]);
}

#[test]
fn turns_are_sorted_by_descending_progress() {
    let mut turns = vec![turn(0, 1), turn(9, 27), turn(10, 9), turn(2, 3), turn(0, 8), turn(20, 4)];
    sort_turns(&mut turns, PieceColor::White);
    assert_eq!(
        turns,
        vec![turn(9, 27), turn(0, 1), turn(2, 3), turn(0, 8), turn(10, 9), turn(20, 4)]
    );
    let mut turns = vec![turn(0, 1), turn(9, 27), turn(10, 9), turn(2, 3), turn(0, 8), turn(20, 4)];
    sort_turns(&mut turns, PieceColor::Black);
    assert_eq!(
        turns,
        vec![turn(20, 4), turn(10, 9), turn(0, 1), turn(2, 3), turn(0, 8), turn(9, 27)]
    );
    let mut none: Vec<Turn> = Vec::new();
    sort_turns(&mut none, PieceColor::White);
    assert!(none.is_empty());
}

#[test]
fn numbers_are_appended_in_decimal() {
    let mut text = String::from("n=");
    append_number(&mut text, 0);
    assert_eq!(text, "n=0");
    append_number(&mut text, -7);
    assert_eq!(text, "n=0-7");
    append_number(&mut text, 1203);
    assert_eq!(text, "n=0-71203");
    let mut least = String::new();
    append_number(&mut least, i32::MIN);
    assert_eq!(least, "-2147483648");
}
