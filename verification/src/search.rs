use crate::board::BoardPosition;
use crate::color::PieceColor;
use crate::coordinate::Position;
use crate::outcome::EvaluationResult;
use crate::sorting::{lemma_rankings, lemma_sort_keeps, sort_by, sort_turns, turn_order};
use crate::turn::Turn;
use std::collections::HashMap;
use vstd::prelude::*;

verus! {

/// What a search has noted so far: the best result found for each side to move and
/// position, and how many positions were valued without looking further.
#[verifier::ext_equal]
pub struct SearchState {
    pub memo: Map<(PieceColor, BoardPosition), EvaluationResult>,
    pub searched: nat,
}

/// The counter after `by` more positions; it stops at the greatest `usize`.
pub open spec fn counted(searched: nat, by: nat) -> nat {
    if searched + by <= usize::MAX {
        searched + by
    } else {
        usize::MAX as nat
    }
}

/// The move that stands for "no move": from the first cell to itself.
pub open spec fn no_turn() -> Turn {
    Turn { from: Position(0), to: Position(0) }
}

/// A result seen one ply earlier by the other side. The distance stays as it is
/// where it cannot grow within `i32`.
pub open spec fn one_ply_up(result: EvaluationResult) -> EvaluationResult {
    let flipped = result.flip();
    if flipped.can_step() {
        flipped.later()
    } else {
        flipped
    }
}

/// Every noted result is tame.
pub open spec fn tame_memo(memo: Map<(PieceColor, BoardPosition), EvaluationResult>) -> bool {
    forall|k: (PieceColor, BoardPosition)| memo.contains_key(k) ==> (#[trigger] memo[k]).tame()
}

impl SearchState {
    /// Nothing noted, nothing counted.
    pub open spec fn fresh() -> SearchState {
        SearchState { memo: Map::empty(), searched: 0 }
    }

    /// The state after `result` was found for `player` to move on `board`: it is
    /// noted, unless a better result for the same side and position is noted
    /// already.
    pub open spec fn record(
        self,
        player: PieceColor,
        board: BoardPosition,
        result: EvaluationResult,
    ) -> SearchState {
        let key = (player, board);
        let kept = if self.memo.contains_key(key) {
            self.memo[key].better(result)
        } else {
            result
        };
        SearchState { memo: self.memo.insert(key, kept), searched: self.searched }
    }
}

impl BoardPosition {
    /// What `turn` is worth to `player` right after it is played as ply
    /// `turns_count + 1`, without looking further.
    #[verifier::opaque]
    pub open spec fn worth_at_once(
        self,
        turn: Turn,
        player: PieceColor,
        turns_count: nat,
    ) -> EvaluationResult {
        self.after(turn, player).immediate(player, turns_count + 1)
    }

    /// The first of `turns` that is worth most at once, with its worth; a loss at
    /// once and no move where there is none.
    pub open spec fn best_at_once(
        self,
        player: PieceColor,
        turns_count: nat,
        turns: Seq<Turn>,
    ) -> (EvaluationResult, Turn)
        decreases turns.len(),
    {
        if turns.len() == 0 {
            (EvaluationResult::Defeat { in_steps: 0 }, no_turn())
        } else if turns.len() == 1 {
            (self.worth_at_once(turns[0], player, turns_count), turns[0])
        } else {
            let earlier = self.best_at_once(player, turns_count, turns.drop_last());
            let worth = self.worth_at_once(turns.last(), player, turns_count);
            if earlier.0.at_least(worth) {
                earlier
            } else {
                (worth, turns.last())
            }
        }
    }

    /// The moves of `player` in the order in which a node of the search tries them:
    /// by descending progress, moves of equal progress in the order of generation.
    pub open spec fn ordered_turns(self, player: PieceColor) -> Seq<Turn> {
        sort_by(self.all_turns(player), turn_order(player))
    }

    /// The result of a node with one ply left to look at: every move of `player` is
    /// valued at once and counted, and the best is taken.
    pub open spec fn shallow(self, state: SearchState, player: PieceColor, turns_count: nat) -> (
        SearchState,
        (EvaluationResult, Turn),
    ) {
        let turns = self.all_turns(player);
        (
            SearchState { memo: state.memo, searched: counted(state.searched, turns.len()) },
            self.best_at_once(player, turns_count, turns),
        )
    }

    /// The result of a node of the search for `player` to move, with `depth` plies
    /// left and the window from `alpha` to `beta`: the noted result where there is
    /// one, whatever depth and window it was found with; else the result of trying
    /// the moves, which is then noted.
    pub open spec fn node(
        self,
        state: SearchState,
        player: PieceColor,
        depth: nat,
        alpha: EvaluationResult,
        beta: EvaluationResult,
        turns_count: nat,
    ) -> (SearchState, EvaluationResult)
        decreases depth, 1nat, 0nat,
    {
        if state.memo.contains_key((player, self)) {
            (state, state.memo[(player, self)])
        } else {
            let (after, result) = if depth <= 1 {
                let (after, best) = self.shallow(state, player, turns_count);
                (after, best.0)
            } else {
                self.expand(
                    state,
                    player,
                    depth,
                    alpha,
                    beta,
                    turns_count,
                    self.ordered_turns(player),
                    0,
                )
            };
            (after.record(player, self, result), result)
        }
    }

    /// The result of trying the moves `turns` from the `k`-th on, with the best
    /// result so far in `alpha`. A move that decides the game is valued at once;
    /// any other by the node below it, seen one ply up. Once the best result
    /// reaches `beta`, the result is `beta` and no further move is tried.
    pub open spec fn expand(
        self,
        state: SearchState,
        player: PieceColor,
        depth: nat,
        alpha: EvaluationResult,
        beta: EvaluationResult,
        turns_count: nat,
        turns: Seq<Turn>,
        k: nat,
    ) -> (SearchState, EvaluationResult)
        decreases depth, 0nat, turns.len() - k,
    {
        if k >= turns.len() || depth == 0 {
            (state, alpha)
        } else {
            let next = self.after(turns[k as int], player);
            let (after, worth) = if next.winner_after(turns_count).is_some() {
                (state, next.immediate(player, turns_count))
            } else {
                let (after, below) = next.node(
                    state,
                    player.other(),
                    (depth - 1) as nat,
                    beta.flip(),
                    alpha.flip(),
                    turns_count + 1,
                );
                (after, one_ply_up(below))
            };
            let raised = alpha.better(worth);
            if raised.at_least(beta) {
                (after, beta)
            } else {
                self.expand(after, player, depth, raised, beta, turns_count, turns, k + 1)
            }
        }
    }

    /// The result of trying the moves `turns` from the `k`-th on at the root, with
    /// the best result so far in `alpha` and the move that gave it in `answer`. A
    /// later move replaces an earlier one only where it is strictly better.
    pub open spec fn root(
        self,
        state: SearchState,
        player: PieceColor,
        depth: nat,
        alpha: EvaluationResult,
        answer: Turn,
        turns_count: nat,
        turns: Seq<Turn>,
        k: nat,
    ) -> (SearchState, (EvaluationResult, Turn))
        decreases turns.len() - k,
    {
        if k >= turns.len() {
            (state, (alpha, answer))
        } else {
            let turn = turns[k as int];
            let next = self.after(turn, player);
            let (after, worth) = if next.winner_after(turns_count + 1).is_some() {
                (state, next.immediate(player, turns_count + 1))
            } else {
                let (after, below) = next.node(
                    state,
                    player.other(),
                    (depth - 1) as nat,
                    EvaluationResult::Defeat { in_steps: 0 },
                    alpha.flip(),
                    turns_count + 1,
                );
                (after, one_ply_up(below))
            };
            if alpha.below(worth) {
                self.root(after, player, depth, worth, turn, turns_count, turns, k + 1)
            } else {
                self.root(after, player, depth, alpha, answer, turns_count, turns, k + 1)
            }
        }
    }

    /// What a search of `depth` plies for `player` returns after `turns_count`
    /// plies, and what it leaves noted. It starts from nothing noted, so the answer
    /// depends on these four alone.
    pub open spec fn search(self, player: PieceColor, depth: nat, turns_count: nat) -> (
        SearchState,
        (EvaluationResult, Turn),
    ) {
        if depth == 1 {
            self.shallow(SearchState::fresh(), player, turns_count)
        } else {
            self.root(
                SearchState::fresh(),
                player,
                depth,
                EvaluationResult::Defeat { in_steps: 0 },
                no_turn(),
                turns_count,
                self.all_turns(player),
                0,
            )
        }
    }

    /// The moves that a node tries are the legal moves, each once, and no move comes
    /// before one of greater progress.
    pub proof fn lemma_ordered_turns(self, player: PieceColor)
        ensures
            self.ordered_turns(player).len() == self.all_turns(player).len(),
            self.ordered_turns(player).to_multiset() == self.all_turns(player).to_multiset(),
            forall|t: Turn| self.ordered_turns(player).contains(t) <==> self.legal(t, player),
            forall|i: int, j: int|
                0 <= i < j < self.ordered_turns(player).len() ==> self.ordered_turns(
                    player,
                )[i].progress(player) >= self.ordered_turns(player)[j].progress(player),
    {
        broadcast use vstd::seq_lib::group_to_multiset_ensures;

        let all = self.all_turns(player);
        let ordered = self.ordered_turns(player);
        lemma_rankings(player);
        crate::sorting::lemma_sort_by(all, turn_order(player));
        self.lemma_all_turns(player);
        assert forall|t: Turn| ordered.contains(t) <==> self.legal(t, player) by {
            assert(ordered.contains(t) <==> ordered.to_multiset().count(t) > 0);
            assert(all.contains(t) <==> all.to_multiset().count(t) > 0);
        }
        assert forall|i: int, j: int| 0 <= i < j < ordered.len() implies ordered[i].progress(player)
            >= ordered[j].progress(player) by {
            assert(turn_order(player)(ordered[i], ordered[j]));
        }
    }

    /// The `k`-th of `turns` is worth at once as much as any of them, and more than
    /// each one before it.
    pub open spec fn first_best(
        self,
        player: PieceColor,
        turns_count: nat,
        turns: Seq<Turn>,
        k: int,
    ) -> bool {
        &&& 0 <= k < turns.len()
        &&& forall|i: int|
            0 <= i < turns.len() ==> self.worth_at_once(turns[k], player, turns_count).at_least(
                self.worth_at_once(#[trigger] turns[i], player, turns_count),
            )
        &&& forall|i: int|
            0 <= i < k ==> self.worth_at_once(#[trigger] turns[i], player, turns_count).below(
                self.worth_at_once(turns[k], player, turns_count),
            )
    }

    /// The move taken from some moves by their worth at once is the first of them
    /// whose worth none of them exceeds.
    pub proof fn lemma_best_at_once(self, player: PieceColor, turns_count: nat, turns: Seq<Turn>) -> (k:
        int)
        requires
            turns.len() > 0,
        ensures
            self.first_best(player, turns_count, turns, k),
            self.best_at_once(player, turns_count, turns) == (
                self.worth_at_once(turns[k], player, turns_count),
                turns[k],
            ),
            turns.contains(self.best_at_once(player, turns_count, turns).1),
        decreases turns.len(),
    {
        if turns.len() == 1 {
            0
        } else {
            let head = turns.drop_last();
            let last = turns.len() - 1;
            let j = self.lemma_best_at_once(player, turns_count, head);
            let known = self.worth_at_once(head[j], player, turns_count);
            let worth = self.worth_at_once(turns[last], player, turns_count);
            assert(turns[j] == head[j]);
            let k = if known.at_least(worth) {
                j
            } else {
                last
            };
            let best = self.worth_at_once(turns[k], player, turns_count);
            assert forall|i: int| 0 <= i < turns.len() implies best.at_least(
                self.worth_at_once(#[trigger] turns[i], player, turns_count),
            ) by {
                if i < last {
                    assert(turns[i] == head[i]);
                    assert(known.at_least(self.worth_at_once(head[i], player, turns_count)));
                }
            }
            assert forall|i: int| 0 <= i < k implies self.worth_at_once(
                #[trigger] turns[i],
                player,
                turns_count,
            ).below(best) by {
                assert(turns[i] == head[i]);
                assert(known.at_least(self.worth_at_once(head[i], player, turns_count)));
            }
            k
        }
    }

    /// The answer at the root is the answer so far or one of the moves tried.
    pub proof fn lemma_root_answer(
        self,
        state: SearchState,
        player: PieceColor,
        depth: nat,
        alpha: EvaluationResult,
        answer: Turn,
        turns_count: nat,
        turns: Seq<Turn>,
        k: nat,
    )
        ensures
            ({
                let found = self.root(state, player, depth, alpha, answer, turns_count, turns, k).1;
                (found.0 == alpha && found.1 == answer) || turns.contains(found.1)
            }),
        decreases turns.len() - k,
    {
        if k < turns.len() {
            let turn = turns[k as int];
            let next = self.after(turn, player);
            let (after, worth) = if next.winner_after(turns_count + 1).is_some() {
                (state, next.immediate(player, turns_count + 1))
            } else {
                let (after, below) = next.node(
                    state,
                    player.other(),
                    (depth - 1) as nat,
                    EvaluationResult::Defeat { in_steps: 0 },
                    alpha.flip(),
                    turns_count + 1,
                );
                (after, one_ply_up(below))
            };
            if alpha.below(worth) {
                self.lemma_root_answer(after, player, depth, worth, turn, turns_count, turns, k + 1);
            } else {
                self.lemma_root_answer(
                    after,
                    player,
                    depth,
                    alpha,
                    answer,
                    turns_count,
                    turns,
                    k + 1,
                );
            }
        }
    }

    /// A search answers with a legal move of the mover, or with a loss at once and
    /// the move that stands for none. With one ply to look at, it answers with a
    /// legal move whenever there is one.
    pub proof fn lemma_search_answer(self, player: PieceColor, depth: nat, turns_count: nat)
        ensures
            ({
                let found = self.search(player, depth, turns_count).1;
                ||| self.legal(found.1, player)
                ||| found.0 == (EvaluationResult::Defeat { in_steps: 0 }) && found.1 == no_turn()
            }),
            depth == 1 && self.all_turns(player).len() > 0 ==> self.legal(
                self.search(player, depth, turns_count).1.1,
                player,
            ),
    {
        let turns = self.all_turns(player);
        self.lemma_all_turns(player);
        if depth == 1 {
            if turns.len() > 0 {
                let k = self.lemma_best_at_once(player, turns_count, turns);
            }
        } else {
            self.lemma_root_answer(
                SearchState::fresh(),
                player,
                depth,
                EvaluationResult::Defeat { in_steps: 0 },
                no_turn(),
                turns_count,
                turns,
                0,
            );
        }
    }

    /// The key under which the position is noted: Black's cells in the high half,
    /// White's in the low half.
    pub open spec fn key(self) -> u128 {
        ((self.0[0].0 as u128) << 64) | (self.0[1].0 as u128)
    }

    /// The key of the position.
    pub fn packed(self) -> (key: u128)
        ensures
            key == self.key(),
    {
        ((self.0[0].0 as u128) << 64) | (self.0[1].0 as u128)
    }

    /// Two positions with the same key are the same position.
    pub proof fn lemma_key_injective(self, other: BoardPosition)
        requires
            self.key() == other.key(),
        ensures
            self == other,
    {
        let a = self.0[0].0;
        let b = self.0[1].0;
        let c = other.0[0].0;
        let d = other.0[1].0;
        assert((((a as u128) << 64) | (b as u128)) == (((c as u128) << 64) | (d as u128)) ==> a == c
            && b == d) by (bit_vector);
        assert(self.0[0] == other.0[0]);
        assert(self.0[1] == other.0[1]);
        assert(self.0 =~= other.0);
    }
}

/// Looks a few plies ahead to choose a move, noting the result found for each side
/// to move and position on the way.
#[derive(Debug, Clone)]
pub struct TurnSearcher {
    black_cache: HashMap<u128, EvaluationResult>,
    white_cache: HashMap<u128, EvaluationResult>,
    positions_searched: usize,
}

impl View for TurnSearcher {
    type V = SearchState;

    closed spec fn view(&self) -> SearchState {
        SearchState {
            memo: Map::new(
                |k: (PieceColor, BoardPosition)| self.table(k.0).contains_key(k.1.key()),
                |k: (PieceColor, BoardPosition)| self.table(k.0)[k.1.key()],
            ),
            searched: self.positions_searched as nat,
        }
    }
}

impl TurnSearcher {
    /// What is noted for positions with `player` to move, by their keys.
    closed spec fn table(self, player: PieceColor) -> Map<u128, EvaluationResult> {
        match player {
            PieceColor::Black => self.black_cache@,
            PieceColor::White => self.white_cache@,
        }
    }

    /// A searcher that has noted nothing yet.
    pub fn new() -> (searcher: TurnSearcher)
        ensures
            searcher@ == SearchState::fresh(),
    {
        let searcher = TurnSearcher {
            black_cache: HashMap::new(),
            white_cache: HashMap::new(),
            positions_searched: 0,
        };
        assert(searcher@.memo =~= Map::empty());
        searcher
    }

    /// How many positions the last search valued without looking further.
    pub fn positions_searched(&self) -> (searched: usize)
        ensures
            searched == self@.searched,
    {
        self.positions_searched
    }

    /// The result that is noted for `player` to move on `board`, if any.
    pub fn noted(&self, player: PieceColor, board: BoardPosition) -> (found: Option<
        EvaluationResult,
    >)
        ensures
            found == if self@.memo.contains_key((player, board)) {
                Some(self@.memo[(player, board)])
            } else {
                None
            },
    {
        broadcast use vstd::std_specs::hash::group_hash_axioms;

        let key = board.packed();
        let found = match player {
            PieceColor::Black => self.black_cache.get(&key),
            PieceColor::White => self.white_cache.get(&key),
        };
        match found {
            Some(result) => Some(*result),
            None => None,
        }
    }

    /// Notes `result` for `player` to move on `board`, in place of what was noted.
    fn store(&mut self, player: PieceColor, board: BoardPosition, result: EvaluationResult)
        ensures
            final(self)@.memo == old(self)@.memo.insert((player, board), result),
            final(self)@.searched == old(self)@.searched,
    {
        broadcast use vstd::std_specs::hash::group_hash_axioms;

        let key = board.packed();
        match player {
            PieceColor::Black => {
                self.black_cache.insert(key, result);
            },
            PieceColor::White => {
                self.white_cache.insert(key, result);
            },
        }
        proof {
            let wanted = old(self)@.memo.insert((player, board), result);
            assert(self.table(player) == old(self).table(player).insert(key, result));
            assert(self.table(player.other()) == old(self).table(player.other()));
            assert forall|k: (PieceColor, BoardPosition)| #[trigger]
                self@.memo.contains_key(k) == wanted.contains_key(k) by {
                if k.0 == player && k.1.key() == key {
                    k.1.lemma_key_injective(board);
                }
            }
            assert forall|k: (PieceColor, BoardPosition)| #[trigger]
                self@.memo.contains_key(k) implies self@.memo[k] == wanted[k] by {
                if k.0 == player && k.1.key() == key {
                    k.1.lemma_key_injective(board);
                }
            }
            assert(self@.memo =~= wanted);
        }
    }

    /// Counts one more position; the counter stops at the greatest `usize`.
    fn count_position(&mut self)
        ensures
            final(self)@.memo == old(self)@.memo,
            final(self)@.searched == counted(old(self)@.searched, 1),
    {
        if self.positions_searched < usize::MAX {
            self.positions_searched += 1;
        }
    }

    /// Values every move of `player_color` at once and takes the first best.
    pub fn next_turn_impl_at_depht1(
        &mut self,
        board: BoardPosition,
        player_color: PieceColor,
        turns_count: usize,
    ) -> (best: (EvaluationResult, Turn))
        requires
            board.valid(),
            turns_count < usize::MAX,
        ensures
            (final(self)@, best) == board.shallow(old(self)@, player_color, turns_count as nat),
            best.0.tame(),
    {
        let ghost start = self@;
        let turns = board.generate_all_turns_for(player_color);
        let mut best = (
            EvaluationResult::Defeat { in_steps: 0 },
            Turn { from: Position(0), to: Position(0) },
        );
        let mut i: usize = 0;
        proof {
            assert(turns@.take(0) =~= Seq::<Turn>::empty());
        }
        while i < turns.len()
            invariant
                i <= turns.len(),
                board.valid(),
                turns_count < usize::MAX,
                turns@ == board.all_turns(player_color),
                forall|t: Turn| turns@.contains(t) ==> board.legal(t, player_color),
                best == board.best_at_once(player_color, turns_count as nat, turns@.take(i as int)),
                best.0.tame(),
                self@.memo == start.memo,
                self@.searched == counted(start.searched, i as nat),
            decreases turns.len() - i,
        {
            self.count_position();
            let turn = turns[i];
            proof {
                reveal(BoardPosition::worth_at_once);
                assert(turns@.contains(turns@[i as int]));
                board.lemma_legal_turn(turn, player_color);
                assert(turns@.take(i + 1).drop_last() =~= turns@.take(i as int));
                assert(turns@.take(i + 1).last() == turn);
                if i == 0 {
                    assert(turns@.take(1)[0] == turn);
                }
            }
            let worth = board.perform_turn(turn, player_color).immediately_evaluate_for(
                player_color,
                turns_count + 1,
            );
            if i == 0 {
                best = (worth, turn);
            } else if !(best.0 >= worth) {
                best = (worth, turn);
            }
            i += 1;
        }
        proof {
            assert(turns@.take(i as int) =~= turns@);
            assert(self@ =~= board.shallow(start, player_color, turns_count as nat).0);
        }
        best
    }

    /// A result seen one ply earlier by the other side.
    fn step_up(below: EvaluationResult) -> (above: EvaluationResult)
        requires
            below.tame(),
        ensures
            above == one_ply_up(below),
            above.tame(),
    {
        let flipped = below.opposite();
        let at_limit = match flipped {
            EvaluationResult::Defeat { in_steps } => in_steps == i32::MAX,
            EvaluationResult::Victory { in_steps } => in_steps == i32::MAX,
            EvaluationResult::InBetween { .. } => false,
        };
        if at_limit {
            flipped
        } else {
            flipped.add_step()
        }
    }

    /// The better of two results, the first where they rank equal.
    fn better_of(first: EvaluationResult, second: EvaluationResult) -> (best: EvaluationResult)
        ensures
            best == first.better(second),
    {
        if first >= second {
            first
        } else {
            second
        }
    }

    /// The result of a node of the search.
    pub fn next_turn_impl(
        &mut self,
        board: BoardPosition,
        player_color: PieceColor,
        max_depth: usize,
        alpha: EvaluationResult,
        beta: EvaluationResult,
        turns_count: usize,
    ) -> (result: EvaluationResult)
        requires
            board.valid(),
            max_depth >= 1,
            turns_count + max_depth <= usize::MAX,
            alpha.tame(),
            beta.tame(),
            tame_memo(old(self)@.memo),
        ensures
            (final(self)@, result) == board.node(
                old(self)@,
                player_color,
                max_depth as nat,
                alpha,
                beta,
                turns_count as nat,
            ),
            result.tame(),
            tame_memo(final(self)@.memo),
        decreases max_depth,
    {
        if let Some(ev) = self.noted(player_color, board) {
            return ev;
        }
        let ghost start = self@;
        let ret = if max_depth == 1 {
            self.next_turn_impl_at_depht1(board, player_color, turns_count).0
        } else {
            let mut turns = board.generate_all_turns_for(player_color);
            let ghost legal = |t: Turn| board.legal(t, player_color);
            proof {
                lemma_rankings(player_color);
                assert forall|k: int| 0 <= k < turns@.len() implies #[trigger] legal(turns@[k]) by {
                    assert(turns@.contains(turns@[k]));
                }
                lemma_sort_keeps(turns@, turn_order(player_color), legal);
            }
            sort_turns(&mut turns, player_color);
            proof {
                assert forall|k: int| 0 <= k < turns@.len() implies board.legal(
                    #[trigger] turns@[k],
                    player_color,
                ) by {
                    assert(legal(turns@[k]));
                }
            }
            let ghost target = board.expand(
                start,
                player_color,
                max_depth as nat,
                alpha,
                beta,
                turns_count as nat,
                turns@,
                0,
            );
            let mut alpha = alpha;
            let mut cut = false;
            let mut i: usize = 0;
            while i < turns.len() && !cut
                invariant
                    i <= turns.len(),
                    board.valid(),
                    max_depth >= 2,
                    turns_count + max_depth <= usize::MAX,
                    forall|k: int|
                        0 <= k < turns@.len() ==> board.legal(#[trigger] turns@[k], player_color),
                    alpha.tame(),
                    beta.tame(),
                    tame_memo(self@.memo),
                    target == if cut {
                        (self@, alpha)
                    } else {
                        board.expand(
                            self@,
                            player_color,
                            max_depth as nat,
                            alpha,
                            beta,
                            turns_count as nat,
                            turns@,
                            i as nat,
                        )
                    },
                decreases turns.len() - i,
            {
                let turn = turns[i];
                proof {
                    board.lemma_legal_turn(turn, player_color);
                }
                let new_board = board.perform_turn(turn, player_color);
                let evaluation = if new_board.has_winner(turns_count) {
                    new_board.immediately_evaluate_for(player_color, turns_count)
                } else {
                    let below = self.next_turn_impl(
                        new_board,
                        player_color.opposite(),
                        max_depth - 1,
                        beta.opposite(),
                        alpha.opposite(),
                        turns_count + 1,
                    );
                    Self::step_up(below)
                };
                alpha = Self::better_of(alpha, evaluation);
                if alpha >= beta {
                    alpha = beta;
                    cut = true;
                }
                i += 1;
            }
            alpha
        };
        match self.noted(player_color, board) {
            Some(noted) => {
                self.store(player_color, board, Self::better_of(noted, ret));
            },
            None => {
                self.store(player_color, board, ret);
            },
        }
        proof {
            let (after, result) = board.node(
                start,
                player_color,
                max_depth as nat,
                alpha,
                beta,
                turns_count as nat,
            );
            assert(result == ret);
            assert(self@ =~= after);
        }
        ret
    }

    /// The best move at the root of a search, with its result.
    pub fn next_turn_initial_impl(
        &mut self,
        board: BoardPosition,
        player_color: PieceColor,
        max_depth: usize,
        turns_count: usize,
    ) -> (best: (EvaluationResult, Turn))
        requires
            board.valid(),
            max_depth >= 1,
            turns_count + max_depth <= usize::MAX,
            old(self)@ == SearchState::fresh(),
        ensures
            (final(self)@, best) == board.search(player_color, max_depth as nat, turns_count as nat),
            best.0.tame(),
    {
        if max_depth == 1 {
            self.next_turn_impl_at_depht1(board, player_color, turns_count)
        } else {
            let mut alpha = EvaluationResult::Defeat { in_steps: 0 };
            let mut ans_turn = Turn { from: Position(0), to: Position(0) };
            let turns = board.generate_all_turns_for(player_color);
            let ghost target = board.search(player_color, max_depth as nat, turns_count as nat);
            let mut i: usize = 0;
            while i < turns.len()
                invariant
                    i <= turns.len(),
                    board.valid(),
                    max_depth >= 2,
                    turns_count + max_depth <= usize::MAX,
                    forall|t: Turn| turns@.contains(t) ==> board.legal(t, player_color),
                    alpha.tame(),
                    tame_memo(self@.memo),
                    target == board.root(
                        self@,
                        player_color,
                        max_depth as nat,
                        alpha,
                        ans_turn,
                        turns_count as nat,
                        turns@,
                        i as nat,
                    ),
                decreases turns.len() - i,
            {
                let turn = turns[i];
                proof {
                    assert(turns@.contains(turns@[i as int]));
                    board.lemma_legal_turn(turn, player_color);
                }
                let new_board = board.perform_turn(turn, player_color);
                let evaluation = if new_board.has_winner(turns_count + 1) {
                    new_board.immediately_evaluate_for(player_color, turns_count + 1)
                } else {
                    let below = self.next_turn_impl(
                        new_board,
                        player_color.opposite(),
                        max_depth - 1,
                        EvaluationResult::Defeat { in_steps: 0 },
                        alpha.opposite(),
                        turns_count + 1,
                    );
                    Self::step_up(below)
                };
                if evaluation > alpha {
                    alpha = evaluation;
                    ans_turn = turn;
                }
                i += 1;
            }
            (alpha, ans_turn)
        }
    }

    /// Chooses a move for `player_color` by looking `max_depth` plies ahead, after
    /// `turns_count` plies were played. Whatever was noted before is forgotten first,
    /// so the answer depends on the four arguments alone.
    pub fn next_turn(
        &mut self,
        board: BoardPosition,
        player_color: PieceColor,
        max_depth: usize,
        turns_count: usize,
    ) -> (best: (EvaluationResult, Turn))
        requires
            board.valid(),
            max_depth >= 1,
            turns_count + max_depth <= usize::MAX,
        ensures
            (final(self)@, best) == board.search(player_color, max_depth as nat, turns_count as nat),
            best.0.tame(),
            board.legal(best.1, player_color) || (best.0 == (EvaluationResult::Defeat {
                in_steps: 0,
            }) && best.1 == no_turn()),
    {
        proof {
            board.lemma_search_answer(player_color, max_depth as nat, turns_count as nat);
        }
        self.positions_searched = 0;
        self.black_cache.clear();
        self.white_cache.clear();
        assert(self@.memo =~= Map::empty());
        self.next_turn_initial_impl(board, player_color, max_depth, turns_count)
    }
}

impl Default for TurnSearcher {
    fn default() -> (searcher: TurnSearcher)
        ensures
            searcher@ == SearchState::fresh(),
    {
        TurnSearcher::new()
    }
}

} // verus!
