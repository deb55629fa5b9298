use ugolki_solver::{Direction, PieceColor, Position, Turn};

#[test]
fn packing_round_trips_every_cell() {
    for x in 0..8u8 {
        for y in 0..8u8 {
            let pos = Position::from_xy(x, y);
            assert_eq!(pos.0, x + 8 * y);
            assert_eq!(pos.get_x(), x);
            assert_eq!(pos.get_y(), y);
        }
    }
}

#[test]
fn packing_examples() {
    assert_eq!(Position::from_xy(0, 0), Position(0));
    assert_eq!(Position::from_xy(7, 0), Position(7));
    assert_eq!(Position::from_xy(0, 1), Position(8));
    assert_eq!(Position::from_xy(5, 6), Position(53));
    assert_eq!(Position::from_xy(7, 7), Position(63));
    assert_eq!(Position(53).get_x(), 5);
    assert_eq!(Position(53).get_y(), 6);
}

#[test]
fn steps_inside_the_board() {
    let pos = Position::from_xy(3, 4);
    assert_eq!(pos.one_up(), Some(Position::from_xy(3, 3)));
    assert_eq!(pos.one_down(), Some(Position::from_xy(3, 5)));
    assert_eq!(pos.one_left(), Some(Position::from_xy(2, 4)));
    assert_eq!(pos.one_right(), Some(Position::from_xy(4, 4)));
}

#[test]
fn steps_stop_at_the_edges() {
    assert_eq!(Position::from_xy(3, 0).one_up(), None);
    assert_eq!(Position::from_xy(3, 7).one_down(), None);
    assert_eq!(Position::from_xy(0, 3).one_left(), None);
    assert_eq!(Position::from_xy(7, 3).one_right(), None);
    assert_eq!(Position(0).one_up(), None);
    assert_eq!(Position(0).one_left(), None);
    assert_eq!(Position(63).one_down(), None);
    assert_eq!(Position(63).one_right(), None);
    assert_eq!(Position(7).one_right(), None);
    assert_eq!(Position(8).one_left(), None);
    assert_eq!(Position(8).one_up(), Some(Position(0)));
    assert_eq!(Position(55).one_down(), Some(Position(63)));
}

#[test]
fn neighbour_agrees_with_the_four_steps() {
    for i in 0..64u8 {
        let pos = Position(i);
        assert_eq!(pos.neighbour(Direction::Up), pos.one_up());
        assert_eq!(pos.neighbour(Direction::Down), pos.one_down());
        assert_eq!(pos.neighbour(Direction::Left), pos.one_left());
        assert_eq!(pos.neighbour(Direction::Right), pos.one_right());
    }
}

#[test]
fn directions_turn_in_a_cycle() {
    assert_eq!(Direction::Up.turn(), Direction::Left);
    assert_eq!(Direction::Left.turn(), Direction::Down);
    assert_eq!(Direction::Down.turn(), Direction::Right);
    assert_eq!(Direction::Right.turn(), Direction::Up);
}

#[test]
fn colors_are_opposite_to_each_other() {
    assert_eq!(PieceColor::Black.opposite(), PieceColor::White);
    assert_eq!(PieceColor::White.opposite(), PieceColor::Black);
    assert_eq!(PieceColor::Black.opposite().opposite(), PieceColor::Black);
    assert_eq!(PieceColor::Black.index(), 0);
    assert_eq!(PieceColor::White.index(), 1);
    assert!(PieceColor::Black < PieceColor::White);
}

#[test]
fn turn_value_is_signed_progress() {
    let turn = Turn { from: Position::from_xy(1, 2), to: Position::from_xy(3, 2) };
    assert_eq!(turn.value_for(PieceColor::White), 2);
    assert_eq!(turn.value_for(PieceColor::Black), -2);
    let back = Turn { from: Position::from_xy(4, 6), to: Position::from_xy(4, 2) };
    assert_eq!(back.value_for(PieceColor::White), -4);
    assert_eq!(back.value_for(PieceColor::Black), 4);
    let far = Turn { from: Position(0), to: Position(63) };
    assert_eq!(far.value_for(PieceColor::White), 14);
    assert_eq!(far.value_for(PieceColor::Black), -14);
    let still = Turn { from: Position(9), to: Position(9) };
    assert_eq!(still.value_for(PieceColor::White), 0);
}
