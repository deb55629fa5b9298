use ugolki_solver::EvaluationResult::{Defeat, InBetween, Victory};
use ugolki_solver::{BoardPosition, PieceColor, Position, PositionMask};

fn mask_of(cells: &[u8]) -> PositionMask {
    let mut mask = PositionMask(0);
    for cell in cells {
        mask.add_position(Position(*cell));
    }
    mask
}

fn near_win() -> BoardPosition {
    BoardPosition([
        mask_of(&[0, 1, 2, 3, 4, 5, 6, 7, 8]),
        mask_of(&[44, 46, 47, 53, 54, 55, 61, 62, 63]),
    ])
}

fn chain_board() -> BoardPosition {
    BoardPosition([
        PositionMask::black_initial_position(),
        mask_of(&[0, 1, 3, 16, 17, 18, 24, 25, 26]),
    ])
}

fn passed_by() -> BoardPosition {
    BoardPosition([
        mask_of(&[9, 10, 11, 17, 18, 19, 25, 26, 27]),
        mask_of(&[36, 37, 38, 44, 45, 46, 52, 53, 54]),
    ])
}

#[test]
fn parts_of_the_starting_position() {
    let board = BoardPosition::default();
    for color in [PieceColor::Black, PieceColor::White] {
        assert_eq!(board.starter_square_pieces(color), 9);
        assert_eq!(board.distance_to_end_point(color), 4080);
        assert_eq!(board.positional_weight(color), (-1850, -640));
        assert_eq!(board.turns_weight(color), 29);
        assert_eq!(board.evaluation_helper_position_value(color, 0), -816000);
        assert_eq!(board.evaluation_helper_position_value(color, 10), -816000);
        assert_eq!(board.evaluation_helper_position_value(color, 20), -1464000);
        assert_eq!(board.evaluation_helper_position_value(color, 50), -3408000);
        assert_eq!(board.evaluation_helper_position_value(color, 100), -6648000);
        assert_eq!(board.evaluation_helper_position_value(color, 30000), -1944168000);
    }
}

#[test]
fn parts_of_a_position_near_the_end() {
    let board = near_win();
    assert_eq!(board.starter_square_pieces(PieceColor::White), 0);
    assert_eq!(board.distance_to_end_point(PieceColor::White), 82);
    assert_eq!(board.positional_weight(PieceColor::White), (1600, 10));
    assert_eq!(board.turns_weight(PieceColor::White), 7);
    assert_eq!(board.evaluation_helper_position_value(PieceColor::White, 10), 55510);
    assert_eq!(board.starter_square_pieces(PieceColor::Black), 0);
    assert_eq!(board.distance_to_end_point(PieceColor::Black), 705);
    assert_eq!(board.positional_weight(PieceColor::Black), (1430, -130));
    assert_eq!(board.turns_weight(PieceColor::Black), 8);
    assert_eq!(board.evaluation_helper_position_value(PieceColor::Black, 10), -402260);
}

#[test]
fn parts_with_some_pieces_at_home() {
    let board = chain_board();
    assert_eq!(board.starter_square_pieces(PieceColor::White), 5);
    assert_eq!(board.distance_to_end_point(PieceColor::White), 3443);
    assert_eq!(board.positional_weight(PieceColor::White), (-1190, -640));
    assert_eq!(board.turns_weight(PieceColor::White), 34);
    assert_eq!(board.evaluation_helper_position_value(PieceColor::White, 0), -688600);
    assert_eq!(board.evaluation_helper_position_value(PieceColor::White, 30), -1088600);
    assert_eq!(board.evaluation_helper_position_value(PieceColor::Black, 30), -2112000);
}

#[test]
fn placing_counts_differently_late_in_the_game() {
    let board = passed_by();
    for color in [PieceColor::Black, PieceColor::White] {
        assert_eq!(board.starter_square_pieces(color), 0);
        assert_eq!(board.distance_to_end_point(color), 216);
        assert_eq!(board.positional_weight(color), (430, 0));
        assert_eq!(board.turns_weight(color), 30);
        assert_eq!(board.evaluation_helper_position_value(color, 12), -120200);
        assert_eq!(board.evaluation_helper_position_value(color, 29), -120200);
        assert_eq!(board.evaluation_helper_position_value(color, 30), -150300);
        assert_eq!(board.evaluation_helper_position_value(color, 40), -150300);
        assert_eq!(board.evaluation_helper_position_value(color, 1_000_000), -150300);
    }
}

#[test]
fn immediate_results() {
    let start = BoardPosition::default();
    assert_eq!(start.immediately_evaluate_for(PieceColor::White, 0), InBetween { score: 0 });
    assert_eq!(start.immediately_evaluate_for(PieceColor::Black, 0), InBetween { score: 0 });
    assert_eq!(start.immediately_evaluate_for(PieceColor::White, 20), InBetween { score: 0 });
    let board = near_win();
    assert_eq!(
        board.immediately_evaluate_for(PieceColor::White, 10),
        InBetween { score: 457770 }
    );
    assert_eq!(
        board.immediately_evaluate_for(PieceColor::Black, 10),
        InBetween { score: -457770 }
    );
    let chain = chain_board();
    assert_eq!(chain.immediately_evaluate_for(PieceColor::White, 0), InBetween { score: 127400 });
    assert_eq!(
        chain.immediately_evaluate_for(PieceColor::White, 30),
        InBetween { score: 1023400 }
    );
    assert_eq!(
        chain.immediately_evaluate_for(PieceColor::Black, 31),
        InBetween { score: -1068200 }
    );
    assert_eq!(passed_by().immediately_evaluate_for(PieceColor::White, 60), InBetween { score: 0 });
}

#[test]
fn a_decided_game_is_valued_as_won_or_lost_at_once() {
    let start = BoardPosition::default();
    assert_eq!(start.immediately_evaluate_for(PieceColor::White, 51), Victory { in_steps: 0 });
    assert_eq!(start.immediately_evaluate_for(PieceColor::Black, 51), Defeat { in_steps: 0 });
    let swapped = BoardPosition([
        PositionMask::white_initial_position(),
        PositionMask::black_initial_position(),
    ]);
    assert_eq!(swapped.immediately_evaluate_for(PieceColor::Black, 3), Victory { in_steps: 0 });
    assert_eq!(swapped.immediately_evaluate_for(PieceColor::White, 3), Defeat { in_steps: 0 });
}

#[test]
fn looking_ahead_for_a_forced_end() {
    let board = near_win();
    assert_eq!(board.deep_evaluate_for(PieceColor::White, 0, 10), InBetween { score: 457770 });
    assert_eq!(board.deep_evaluate_for(PieceColor::White, 1, 10), Victory { in_steps: 1 });
    assert_eq!(board.deep_evaluate_for(PieceColor::White, 2, 10), Victory { in_steps: 1 });
    assert_eq!(board.deep_evaluate_for(PieceColor::Black, 2, 10), Defeat { in_steps: 1 });
    let start = BoardPosition::default();
    assert_eq!(start.deep_evaluate_for(PieceColor::White, 2, 0), InBetween { score: 0 });
    assert_eq!(start.deep_evaluate_for(PieceColor::White, 2, 51), Victory { in_steps: 0 });
    assert_eq!(start.deep_evaluate_for(PieceColor::Black, 0, 51), Defeat { in_steps: 0 });
    assert_eq!(passed_by().deep_evaluate_for(PieceColor::White, 2, 12), InBetween { score: 0 });
}

#[test]
fn forecasts_of_single_nodes() {
    let board = near_win();
    let open = board.eval_helper(PieceColor::White, PieceColor::White, 0, 10);
    assert_eq!((open.victory, open.defeat), (None, None));
    let won = board.eval_helper(PieceColor::White, PieceColor::White, 1, 10);
    assert_eq!((won.victory, won.defeat), (Some(1), None));
    let lost = board.eval_helper(PieceColor::Black, PieceColor::White, 1, 10);
    assert_eq!((lost.victory, lost.defeat), (None, Some(0)));
    let decided = BoardPosition::default().eval_helper(PieceColor::Black, PieceColor::Black, 3, 51);
    assert_eq!((decided.victory, decided.defeat), (None, Some(0)));
}
