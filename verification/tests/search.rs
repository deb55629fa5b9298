use ugolki_solver::EvaluationResult::{Defeat, InBetween, Victory};
use ugolki_solver::{BoardPosition, PieceColor, Position, PositionMask, Turn, TurnSearcher};

fn mask_of(cells: &[u8]) -> PositionMask {
    let mut mask = PositionMask(0);
    for cell in cells {
        mask.add_position(Position(*cell));
    }
    mask
}

fn turn(from: u8, to: u8) -> Turn {
    Turn { from: Position(from), to: Position(to) }
}

fn near_win() -> BoardPosition {
    BoardPosition([
        mask_of(&[0, 1, 2, 3, 4, 5, 6, 7, 8]),
        mask_of(&[44, 46, 47, 53, 54, 55, 61, 62, 63]),
    ])
}

fn passed_by() -> BoardPosition {
    BoardPosition([
        mask_of(&[9, 10, 11, 17, 18, 19, 25, 26, 27]),
        mask_of(&[36, 37, 38, 44, 45, 46, 52, 53, 54]),
    ])
}

#[test]
fn one_ply_from_the_start() {
    let board = BoardPosition::default();
    let mut searcher = TurnSearcher::new();
    for player in [PieceColor::White, PieceColor::Black] {
        let (result, chosen) = searcher.next_turn(board, player, 1, 0);
        assert!(matches!(result, InBetween { .. }));
        assert!(board.generate_all_turns_for(player).contains(&chosen));
    }
    assert_eq!(
        searcher.next_turn(board, PieceColor::White, 1, 0),
        (InBetween { score: 36400 }, turn(1, 3))
    );
    assert_eq!(
        searcher.next_turn(board, PieceColor::Black, 1, 0),
        (InBetween { score: 36400 }, turn(46, 44))
    );
}

#[test]
fn two_and_three_plies_from_the_start() {
    let board = BoardPosition::default();
    let mut searcher = TurnSearcher::default();
    assert_eq!(
        searcher.next_turn(board, PieceColor::White, 2, 0),
        (InBetween { score: 0 }, turn(1, 3))
    );
    assert_eq!(
        searcher.next_turn(board, PieceColor::Black, 2, 0),
        (InBetween { score: 0 }, turn(46, 44))
    );
    assert_eq!(
        searcher.next_turn(board, PieceColor::White, 3, 0),
        (InBetween { score: 72800 }, turn(9, 11))
    );
    assert_eq!(
        searcher.next_turn(board, PieceColor::Black, 3, 0),
        (InBetween { score: 72800 }, turn(46, 44))
    );
}

#[test]
fn search_in_the_middle_of_a_game() {
    let board = passed_by();
    let mut searcher = TurnSearcher::new();
    assert_eq!(
        searcher.next_turn(board, PieceColor::White, 1, 12),
        (InBetween { score: 28030 }, turn(45, 47))
    );
    assert_eq!(
        searcher.next_turn(board, PieceColor::Black, 1, 13),
        (InBetween { score: 28030 }, turn(18, 2))
    );
    assert_eq!(
        searcher.next_turn(board, PieceColor::White, 2, 12),
        (InBetween { score: 0 }, turn(45, 47))
    );
    assert_eq!(
        searcher.next_turn(board, PieceColor::White, 3, 12),
        (InBetween { score: 37770 }, turn(45, 47))
    );
    assert_eq!(
        searcher.next_turn(board, PieceColor::Black, 3, 13),
        (InBetween { score: 37770 }, turn(18, 2))
    );
}

#[test]
fn the_winning_step_is_found_at_every_depth() {
    let board = near_win();
    let mut searcher = TurnSearcher::new();
    for depth in 1..4 {
        let (result, chosen) = searcher.next_turn(board, PieceColor::White, depth, 10);
        assert_eq!(result, Victory { in_steps: 0 });
        assert_eq!(chosen, turn(44, 45));
        let after = board.perform_turn(chosen, PieceColor::White);
        assert_eq!(after.winner(11), Some(PieceColor::White));
    }
}

#[test]
fn a_stalled_mover_is_told_it_has_lost() {
    let board = BoardPosition::default();
    assert_eq!(board.winner(51), Some(PieceColor::White));
    let mut searcher = TurnSearcher::new();
    assert_eq!(
        searcher.next_turn(board, PieceColor::Black, 2, 51),
        (Defeat { in_steps: 0 }, turn(0, 0))
    );
    assert_eq!(
        searcher.next_turn(board, PieceColor::Black, 1, 51),
        (Defeat { in_steps: 0 }, turn(45, 37))
    );
    assert_eq!(
        searcher.next_turn(board, PieceColor::White, 2, 51),
        (Victory { in_steps: 0 }, turn(1, 3))
    );
}

#[test]
fn the_answer_does_not_depend_on_earlier_searches() {
    let start = BoardPosition::default();
    let other = passed_by();
    let mut fresh = TurnSearcher::new();
    let expected = fresh.next_turn(start, PieceColor::White, 3, 0);
    let mut used = TurnSearcher::new();
    let _ = used.next_turn(other, PieceColor::Black, 3, 13);
    let _ = used.next_turn(start, PieceColor::Black, 2, 7);
    let first = used.next_turn(start, PieceColor::White, 3, 0);
    let second = used.next_turn(start, PieceColor::White, 3, 0);
    assert_eq!(first, expected);
    assert_eq!(second, expected);
    let mut copy = used.clone();
    assert_eq!(copy.next_turn(start, PieceColor::White, 3, 0), expected);
}

#[test]
fn nodes_below_the_root() {
    let board = BoardPosition::default();
    let mut searcher = TurnSearcher::new();
    let low = Defeat { in_steps: 0 };
    let high = Victory { in_steps: 0 };
    let shallow = searcher.next_turn_impl_at_depht1(board, PieceColor::White, 0);
    assert_eq!(shallow, (InBetween { score: 36400 }, turn(1, 3)));
    let first = searcher.next_turn_impl(board, PieceColor::White, 1, low, high, 0);
    assert_eq!(first, InBetween { score: 36400 });
    let noted = searcher.next_turn_impl(board, PieceColor::White, 2, low, high, 0);
    assert_eq!(noted, InBetween { score: 36400 });
    let mut other = TurnSearcher::new();
    let deeper = other.next_turn_impl(board, PieceColor::White, 2, low, high, 0);
    assert_eq!(deeper, InBetween { score: 0 });
    let mut root = TurnSearcher::new();
    assert_eq!(
        root.next_turn_initial_impl(board, PieceColor::White, 2, 0),
        (InBetween { score: 0 }, turn(1, 3))
    );
}

#[test]
fn a_search_counts_and_notes_positions() {
    let start = BoardPosition::default();
    let mut searcher = TurnSearcher::new();
    assert_eq!(searcher.positions_searched(), 0);
    assert_eq!(searcher.noted(PieceColor::White, start), None);
    let _ = searcher.next_turn(start, PieceColor::White, 2, 0);
    assert_eq!(searcher.positions_searched(), 144);
    assert_eq!(searcher.noted(PieceColor::White, start), None);
    let after_jump = start.perform_turn(turn(1, 3), PieceColor::White);
    assert_eq!(searcher.noted(PieceColor::Black, after_jump), Some(InBetween { score: 0 }));
    assert_eq!(searcher.noted(PieceColor::White, after_jump), None);
    let after_step = start.perform_turn(turn(2, 3), PieceColor::White);
    assert_eq!(searcher.noted(PieceColor::Black, after_step), Some(InBetween { score: 18200 }));
    let mut noted = 0;
    for chosen in start.generate_all_turns_for(PieceColor::White) {
        let next = start.perform_turn(chosen, PieceColor::White);
        if searcher.noted(PieceColor::Black, next).is_some() {
            noted += 1;
        }
    }
    assert_eq!(noted, 12);
    let _ = searcher.next_turn(start, PieceColor::White, 1, 0);
    assert_eq!(searcher.positions_searched(), 12);
    assert_eq!(searcher.noted(PieceColor::Black, after_jump), None);
    let _ = searcher.next_turn(start, PieceColor::Black, 3, 0);
    assert_eq!(searcher.positions_searched(), 639);
}
