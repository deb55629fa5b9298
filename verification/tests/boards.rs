use ugolki_solver::{BoardPosition, PieceColor, Position, PositionMask, Turn};

fn mask_of(cells: &[u8]) -> PositionMask {
    let mut mask = PositionMask(0);
    for cell in cells {
        mask.add_position(Position(*cell));
    }
    mask
}

#[test]
fn starting_layout() {
    let board = BoardPosition::default();
    assert_eq!(board.0[0], PositionMask::black_initial_position());
    assert_eq!(board.0[1], PositionMask::white_initial_position());
    assert!(board.is_valid_position());
    assert_eq!(board.side(PieceColor::Black), board.0[0]);
    assert_eq!(board.side(PieceColor::White), board.0[1]);
    assert_eq!(board.all_pieces_mask().0, board.0[0].0 | board.0[1].0);
    assert_eq!(board.all_pieces_mask().count(), 18);
    assert_eq!(board.winner(0), None);
    assert!(!board.has_winner(0));
}

#[test]
fn validity_needs_nine_disjoint_pieces_each() {
    let white = PositionMask::white_initial_position();
    let black = PositionMask::black_initial_position();
    assert!(BoardPosition([black, white]).is_valid_position());
    assert!(BoardPosition([white, black]).is_valid_position());
    assert!(!BoardPosition([white, white]).is_valid_position());
    assert!(!BoardPosition([black, PositionMask(white.0 & !1)]).is_valid_position());
    assert!(!BoardPosition([black, PositionMask(white.0 | (1 << 30))]).is_valid_position());
    assert!(!BoardPosition([PositionMask(0), PositionMask(0)]).is_valid_position());
    let overlapping = BoardPosition([
        mask_of(&[0, 1, 2, 3, 4, 5, 6, 7, 8]),
        mask_of(&[8, 9, 10, 11, 12, 13, 14, 15, 16]),
    ]);
    assert!(!overlapping.is_valid_position());
}

#[test]
fn a_side_wins_by_filling_the_other_corner() {
    let white = PositionMask::white_initial_position();
    let black = PositionMask::black_initial_position();
    let swapped = BoardPosition([white, black]);
    assert_eq!(swapped.winner(0), Some(PieceColor::Black));
    assert!(swapped.has_winner(0));
    let middle = mask_of(&[24, 25, 26, 27, 28, 29, 30, 31, 32]);
    assert_eq!(BoardPosition([white, middle]).winner(7), Some(PieceColor::Black));
    assert_eq!(BoardPosition([middle, black]).winner(7), Some(PieceColor::White));
    assert_eq!(BoardPosition([middle, black]).winner(70), Some(PieceColor::White));
    assert_eq!(BoardPosition([middle, white]).winner(7), None);
}

#[test]
fn stalling_loses_after_fifty_plies() {
    let board = BoardPosition::default();
    assert_eq!(board.winner(50), None);
    assert_eq!(board.winner(51), Some(PieceColor::White));
    assert_eq!(board.winner(1_000_000), Some(PieceColor::White));
    let middle = mask_of(&[24, 25, 26, 27, 28, 29, 30, 31, 32]);
    let white = PositionMask::white_initial_position();
    let black = PositionMask::black_initial_position();
    let white_stalls = BoardPosition([middle, white]);
    assert_eq!(white_stalls.winner(50), None);
    assert_eq!(white_stalls.winner(51), Some(PieceColor::Black));
    let black_stalls = BoardPosition([black, middle]);
    assert_eq!(black_stalls.winner(50), None);
    assert_eq!(black_stalls.winner(51), Some(PieceColor::White));
    let one_at_home = BoardPosition([
        mask_of(&[63, 9, 10, 11, 12, 13, 14, 19, 20]),
        mask_of(&[24, 25, 26, 27, 28, 29, 30, 31, 32]),
    ]);
    assert_eq!(one_at_home.winner(51), Some(PieceColor::White));
    let nobody_at_home = BoardPosition([
        mask_of(&[9, 10, 11, 12, 13, 14, 19, 20, 21]),
        mask_of(&[24, 25, 26, 27, 28, 29, 30, 31, 32]),
    ]);
    assert_eq!(nobody_at_home.winner(51), None);
    assert!(!nobody_at_home.has_winner(1000));
}

#[test]
fn turn_validity_looks_at_both_ends() {
    let board = BoardPosition::default();
    let step = Turn { from: Position(2), to: Position(3) };
    assert!(board.is_valid_turn(step, PieceColor::White));
    assert!(!board.is_valid_turn(step, PieceColor::Black));
    let onto_own = Turn { from: Position(1), to: Position(2) };
    assert!(!board.is_valid_turn(onto_own, PieceColor::White));
    let onto_other = Turn { from: Position(2), to: Position(63) };
    assert!(!board.is_valid_turn(onto_other, PieceColor::White));
    let from_empty = Turn { from: Position(30), to: Position(31) };
    assert!(!board.is_valid_turn(from_empty, PieceColor::White));
    let nowhere = Turn { from: Position(2), to: Position(2) };
    assert!(!board.is_valid_turn(nowhere, PieceColor::White));
}

#[test]
fn performing_a_turn_moves_one_piece() {
    let board = BoardPosition::default();
    let turn = Turn { from: Position(2), to: Position(3) };
    let next = board.perform_turn(turn, PieceColor::White);
    assert_eq!(next.0[0], board.0[0]);
    assert!(!next.0[1].has_piece_at(Position(2)));
    assert!(next.0[1].has_piece_at(Position(3)));
    assert_eq!(next.0[1].0, (board.0[1].0 & !(1 << 2)) | (1 << 3));
    assert!(next.is_valid_position());
    assert_eq!(board, BoardPosition::default());
    let black_turn = Turn { from: Position(45), to: Position(37) };
    let after = next.perform_turn(black_turn, PieceColor::Black);
    assert_eq!(after.0[1], next.0[1]);
    assert_eq!(after.0[0].0, (board.0[0].0 & !(1 << 45)) | (1 << 37));
    assert!(after.is_valid_position());
}

#[test]
fn a_turn_is_undone_only_by_the_reverse_turn() {
    let board = BoardPosition::default();
    let turn = Turn { from: Position(1), to: Position(3) };
    let next = board.perform_turn(turn, PieceColor::White);
    assert_ne!(next, board);
    let reverse = Turn { from: turn.to, to: turn.from };
    assert_ne!(reverse, turn);
    assert!(next.is_valid_turn(reverse, PieceColor::White));
    assert!(!next.is_valid_turn(turn, PieceColor::White));
    assert_eq!(next.perform_turn(reverse, PieceColor::White), board);
    let reverse_is_legal =
        next.generate_all_turns_for(PieceColor::White).contains(&reverse);
    assert!(reverse_is_legal);
    let hop = Turn { from: Position(9), to: Position(27) };
    let far = BoardPosition([
        PositionMask::black_initial_position(),
        mask_of(&[0, 1, 2, 8, 9, 10, 16, 18, 19]),
    ]);
    assert!(far.generate_all_turns_for(PieceColor::White).contains(&hop));
    let landed = far.perform_turn(hop, PieceColor::White);
    let hop_back = Turn { from: hop.to, to: hop.from };
    assert_ne!(hop_back, hop);
    assert!(landed.generate_all_turns_for(PieceColor::White).contains(&hop_back));
    assert_eq!(landed.perform_turn(hop_back, PieceColor::White), far);
}

#[test]
fn boards_compare_by_their_masks() {
    let a = BoardPosition::default();
    let b = BoardPosition([
        PositionMask::black_initial_position(),
        PositionMask::white_initial_position(),
    ]);
    assert_eq!(a, b);
    assert_ne!(a, BoardPosition([b.0[1], b.0[0]]));
    assert_eq!(a.packed(), ((b.0[0].0 as u128) << 64) | b.0[1].0 as u128);
    assert_ne!(a.packed(), BoardPosition([b.0[1], b.0[0]]).packed());
}

#[test]
fn board_picture() {
    let expected = "WWW.....\nWWW.....\nWWW.....\n........\n........\n.....BBB\n.....BBB\n.....BBB\n";
    assert_eq!(BoardPosition::default().to_text(), expected);
    let empty = BoardPosition([PositionMask(0), PositionMask(0)]);
    assert_eq!(empty.to_text(), "........\n".repeat(8));
    assert_eq!(PieceColor::Black.to_text(), "Black");
    assert_eq!(PieceColor::White.to_text(), "White");
}
