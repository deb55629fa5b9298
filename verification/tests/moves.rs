use ugolki_solver::{BoardPosition, PieceColor, Position, PositionMask, Turn};

fn mask_of(cells: &[u8]) -> PositionMask {
    let mut mask = PositionMask(0);
    for cell in cells {
        mask.add_position(Position(*cell));
    }
    mask
}

fn turns_of(pairs: &[(u8, u8)]) -> Vec<Turn> {
    pairs.iter().map(|(from, to)| Turn { from: Position(*from), to: Position(*to) }).collect()
}

fn chain_board() -> BoardPosition {
    BoardPosition([
        PositionMask::black_initial_position(),
        mask_of(&[0, 1, 3, 16, 17, 18, 24, 25, 26]),
    ])
}

#[test]
fn first_moves_of_white() {
    let turns = BoardPosition::default().generate_all_turns_for(PieceColor::White);
    let expected = turns_of(&[
        (1, 3),
        (2, 3),
        (8, 24),
        (9, 11),
        (9, 25),
        (10, 11),
        (10, 26),
        (16, 24),
        (17, 19),
        (17, 25),
        (18, 19),
        (18, 26),
    ]);
    assert_eq!(turns, expected);
}

#[test]
fn first_moves_of_black() {
    let turns = BoardPosition::default().generate_all_turns_for(PieceColor::Black);
    let expected = turns_of(&[
        (45, 37),
        (45, 44),
        (46, 38),
        (46, 44),
        (47, 39),
        (53, 37),
        (53, 52),
        (54, 38),
        (54, 52),
        (55, 39),
        (61, 60),
        (62, 60),
    ]);
    assert_eq!(turns, expected);
}

#[test]
fn chained_jumps_are_one_move() {
    let board = chain_board();
    let reach = board.generate_turn_for_white(Position(0));
    assert_eq!(reach.positions_iter(), vec![Position(2), Position(4), Position(8)]);
    assert_eq!(board.generate_turn_for_black(Position(0)), reach);
    let turns = board.generate_all_turns_for(PieceColor::White);
    let expected = turns_of(&[
        (0, 2),
        (0, 4),
        (0, 8),
        (1, 2),
        (1, 9),
        (3, 2),
        (3, 4),
        (3, 11),
        (16, 8),
        (16, 32),
        (17, 9),
        (17, 19),
        (17, 33),
        (18, 10),
        (18, 19),
        (18, 34),
        (24, 8),
        (24, 32),
        (25, 9),
        (25, 27),
        (25, 33),
        (26, 10),
        (26, 27),
        (26, 34),
    ]);
    assert_eq!(turns, expected);
}

#[test]
fn both_orders_of_search_reach_the_same_cells() {
    let boards = [BoardPosition::default(), chain_board()];
    for board in boards {
        for i in 0..64u8 {
            assert_eq!(
                board.generate_turn_for_black(Position(i)),
                board.generate_turn_for_white(Position(i))
            );
        }
    }
}

#[test]
fn a_blocked_piece_has_no_move() {
    let board = BoardPosition::default();
    assert_eq!(board.generate_turn_for_white(Position(0)), PositionMask(0));
    assert_eq!(board.generate_turn_for_black(Position(63)), PositionMask(0));
    assert_eq!(board.generate_turn_for_white(Position(2)).positions_iter(), vec![Position(3)]);
}

#[test]
fn every_legal_move_keeps_the_position_valid() {
    let boards = [BoardPosition::default(), chain_board()];
    for board in boards {
        for player in [PieceColor::Black, PieceColor::White] {
            let all = board.all_pieces_mask();
            let turns = board.generate_all_turns_for(player);
            assert!(!turns.is_empty());
            for i in 0..turns.len() {
                let turn = turns[i];
                assert!(board.side(player).has_piece_at(turn.from));
                assert!(!all.has_piece_at(turn.to));
                assert!(board.is_valid_turn(turn, player));
                assert!(board.perform_turn(turn, player).is_valid_position());
                if i > 0 {
                    assert!(turns[i - 1] < turn);
                }
            }
        }
    }
}

#[test]
fn sequences_of_single_jumps() {
    let board = BoardPosition::default();
    let found = board.generate_all_turns_seqences_for_pos(PieceColor::White, Position(18));
    assert_eq!(found, vec![turns_of(&[(18, 26)]), turns_of(&[(18, 19)])]);
    let found = board.generate_all_turns_seqences_for_pos(PieceColor::White, Position(9));
    assert_eq!(found, vec![turns_of(&[(9, 25)]), turns_of(&[(9, 11)])]);
    let found = board.generate_all_turns_seqences_for_pos(PieceColor::White, Position(0));
    assert_eq!(found, Vec::<Vec<Turn>>::new());
}

#[test]
fn sequences_follow_chains_and_stop_at_visited_cells() {
    let board = chain_board();
    let found = board.generate_all_turns_seqences_for_pos(PieceColor::White, Position(0));
    let expected = vec![
        turns_of(&[(0, 8)]),
        turns_of(&[(0, 2)]),
        turns_of(&[(0, 2), (2, 4)]),
        turns_of(&[(0, 2), (2, 4), (4, 2)]),
    ];
    assert_eq!(found, expected);
}

#[test]
fn sequences_end_on_the_cells_of_the_legal_moves() {
    let boards = [BoardPosition::default(), chain_board()];
    for board in boards {
        for player in [PieceColor::Black, PieceColor::White] {
            let turns = board.generate_all_turns_for(player);
            for pos in board.side(player).positions_iter() {
                let found = board.generate_all_turns_seqences_for_pos(player, pos);
                assert!(found.len() <= 4 + 4 * 64);
                for hops in &found {
                    assert!(!hops.is_empty());
                    assert!(hops.len() <= 64);
                    assert_eq!(hops[0].from, pos);
                    for i in 1..hops.len() {
                        assert_eq!(hops[i - 1].to, hops[i].from);
                        for j in 0..i {
                            assert_ne!(hops[j].from, hops[i].from);
                        }
                    }
                    let whole = Turn { from: pos, to: hops[hops.len() - 1].to };
                    assert!(turns.contains(&whole));
                }
                for turn in &turns {
                    if turn.from == pos {
                        assert!(found.iter().any(|hops| hops[hops.len() - 1].to == turn.to));
                    }
                }
            }
        }
    }
}

fn crowded_board() -> BoardPosition {
    BoardPosition([
        mask_of(&[3, 9, 10, 20, 27, 28, 35, 40, 44]),
        mask_of(&[8, 24, 26, 33, 46, 51, 53, 57, 63]),
    ])
}

#[test]
fn a_long_walk_over_many_pieces() {
    let board = crowded_board();
    assert!(board.is_valid_position());
    let reach = board.generate_turn_for_black(Position(20));
    let expected: Vec<Position> = [0u8, 2, 4, 12, 16, 18, 19, 21, 32, 34, 36, 38, 48, 50, 52, 54]
        .iter()
        .map(|i| Position(*i))
        .collect();
    assert_eq!(reach.positions_iter(), expected);
    assert_eq!(board.generate_turn_for_white(Position(20)), reach);
    assert_eq!(board.generate_all_turns_for(PieceColor::Black).len(), 49);
    let found = board.generate_all_turns_seqences_for_pos(PieceColor::Black, Position(20));
    assert_eq!(found.len(), 28);
    assert_eq!(found[0], turns_of(&[(20, 12)]));
    assert_eq!(found[3], turns_of(&[(20, 36)]));
    assert_eq!(found[4], turns_of(&[(20, 36), (36, 34)]));
    assert_eq!(found[9], turns_of(&[(20, 36), (36, 34), (34, 18), (18, 2), (2, 4), (4, 2)]));
    assert_eq!(found[14], turns_of(&[(20, 36), (36, 34), (34, 32), (32, 16), (16, 0), (0, 16)]));
    assert_eq!(found[27], turns_of(&[(20, 36), (36, 52), (52, 54), (54, 52)]));
    assert_eq!(found.iter().map(|hops| hops.len()).max(), Some(6));
}

#[test]
fn a_walk_leaves_every_cell_in_one_way_only() {
    let boards = [BoardPosition::default(), chain_board(), crowded_board()];
    for board in boards {
        for player in [PieceColor::Black, PieceColor::White] {
            for pos in board.side(player).positions_iter() {
                let found = board.generate_all_turns_seqences_for_pos(player, pos);
                let jumps: Vec<&Vec<Turn>> = found
                    .iter()
                    .filter(|hops| {
                        let dx = hops[0].to.get_x().abs_diff(hops[0].from.get_x());
                        let dy = hops[0].to.get_y().abs_diff(hops[0].from.get_y());
                        dx + dy == 2
                    })
                    .collect();
                for first in &jumps {
                    for second in &jumps {
                        for i in 0..first.len() {
                            for j in 0..second.len() {
                                if first[i].from == second[j].from {
                                    assert_eq!(i, j);
                                    assert_eq!(first[..i], second[..j]);
                                }
                            }
                        }
                    }
                }
            }
        }
    }
}
