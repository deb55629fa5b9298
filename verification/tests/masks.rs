use ugolki_solver::{PieceColor, Position, PositionMask};

#[test]
fn home_corners_hold_nine_cells_each() {
    let white = PositionMask::white_initial_position();
    let black = PositionMask::black_initial_position();
    assert_eq!(white.0, 7 | 7 << 8 | 7 << 16);
    assert_eq!(black.0, (224u64 | 224 << 8 | 224 << 16) << 40);
    assert_eq!(white.count(), 9);
    assert_eq!(black.count(), 9);
    assert_eq!(white.0 & black.0, 0);
    for x in 0..8u8 {
        for y in 0..8u8 {
            let pos = Position::from_xy(x, y);
            assert_eq!(white.has_piece_at(pos), x < 3 && y < 3);
            assert_eq!(black.has_piece_at(pos), x >= 5 && y >= 5);
        }
    }
    assert_eq!(PositionMask::initial_position(PieceColor::White), white);
    assert_eq!(PositionMask::initial_position(PieceColor::Black), black);
}

#[test]
fn adding_and_removing_single_cells() {
    let mut mask = PositionMask::default();
    assert_eq!(mask.0, 0);
    mask.add_position(Position(5));
    mask.add_position(Position(63));
    assert!(mask.has_piece_at(Position(5)));
    assert!(mask.has_piece_at(Position(63)));
    assert!(!mask.has_piece_at(Position(6)));
    assert_eq!(mask.0, (1 << 5) | (1 << 63));
    mask.add_position(Position(5));
    assert_eq!(mask.count(), 2);
    mask.remove_position(Position(5));
    assert!(!mask.has_piece_at(Position(5)));
    assert_eq!(mask.0, 1 << 63);
    mask.remove_position(Position(5));
    assert_eq!(mask.0, 1 << 63);
    mask.remove_position(Position(63));
    assert_eq!(mask, PositionMask(0));
}

#[test]
fn cells_come_in_ascending_order() {
    let mask = PositionMask((1 << 40) | (1 << 3) | (1 << 63) | 1);
    assert_eq!(
        mask.positions_iter(),
        vec![Position(0), Position(3), Position(40), Position(63)]
    );
    assert_eq!(PositionMask(0).positions_iter(), Vec::<Position>::new());
    assert_eq!(PositionMask(u64::MAX).positions_iter().len(), 64);
    assert_eq!(PositionMask(u64::MAX).count(), 64);
    assert_eq!(PositionMask(0).count(), 0);
}

#[test]
fn white_home_cells_listed() {
    let cells = PositionMask::white_initial_position().positions_iter();
    let expected: Vec<Position> =
        [0u8, 1, 2, 8, 9, 10, 16, 17, 18].iter().map(|i| Position(*i)).collect();
    assert_eq!(cells, expected);
}
