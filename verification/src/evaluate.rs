use crate::board::{BoardPosition, STALLING_LIMIT};
use crate::color::PieceColor;
use crate::coordinate::Position;
use crate::folds::{
    greatest_over, least_over, lemma_extremes, lemma_fold_step, lemma_sum_bounds,
    lemma_sum_positive, sum_over,
};
use crate::mask::{lemma_cells_where, PositionMask};
use crate::moves::can_reach;
use crate::outcome::{EvaluationResult, SCORE_LIMIT};
use crate::sorting::{byte_order, lemma_rankings, lemma_sort_keeps, sort_ascending, sort_by};
use crate::turn::Turn;
use vstd::prelude::*;

verus! {

/// The least weight starts from this cap.
pub const WEIGHT_CAP: i32 = 1_000_000;

/// `v` to the third power.
pub open spec fn cube(v: int) -> int {
    v * v * v
}

/// The distance between two numbers.
pub open spec fn gap(a: int, b: int) -> int {
    if a < b {
        b - a
    } else {
        a - b
    }
}

/// How far a coordinate is from the edge that the side `color` moves to: Black moves
/// to column and row 0, White to column and row 7.
pub open spec fn toward_goal(color: PieceColor, v: int) -> int {
    match color {
        PieceColor::Black => v,
        PieceColor::White => 7 - v,
    }
}

/// How far a cell is from the goal of `color` along the columns.
pub open spec fn column_distance(color: PieceColor) -> spec_fn(Position) -> u8 {
    |p: Position| toward_goal(color, p.x()) as u8
}

/// How far a cell is from the goal of `color` along the rows.
pub open spec fn row_distance(color: PieceColor) -> spec_fn(Position) -> u8 {
    |p: Position| toward_goal(color, p.y()) as u8
}

/// A distance along one axis of the board.
pub open spec fn on_axis() -> spec_fn(u8) -> bool {
    |v: u8| v < 8
}

/// What the `n` lowest of the sorted distances cost: the distance with rank `i`
/// should be `i / 3`, and a miss of `d` costs `(d + 1)^3 - 1`.
pub open spec fn slot_cost(sorted: Seq<u8>, n: nat) -> int
    decreases n,
{
    if n == 0 {
        0
    } else {
        slot_cost(sorted, (n - 1) as nat) + cube(gap(sorted[n - 1] as int, (n - 1) / 3) + 1) - 1
    }
}

/// What nine distances along one axis cost: the cost of their ranks, and fifteen
/// times the greatest of them.
pub open spec fn axis_cost(values: Seq<u8>) -> int {
    let sorted = sort_by(values, byte_order());
    slot_cost(sorted, 9) + 15 * sorted[8]
}

/// How well a piece of `color` stands on `p`, by its place relative to the diagonal.
pub open spec fn cell_weight(color: PieceColor, p: Position) -> int {
    let x = match color {
        PieceColor::Black => 3 - p.x(),
        PieceColor::White => p.x() - 4,
    };
    let y = match color {
        PieceColor::Black => 3 - p.y(),
        PieceColor::White => p.y() - 4,
    };
    let far = if x > y {
        x
    } else {
        y
    };
    let spread = if gap(x, y) > 3 {
        gap(x, y)
    } else {
        3
    };
    cube(far) * 10 - (spread - 3) * 100
}

/// `cell_weight` for `color`, as a function of the cell.
pub open spec fn weight_of(color: PieceColor) -> spec_fn(Position) -> int {
    |p: Position| cell_weight(color, p)
}

/// One for a cell of `home`, zero for any other.
pub open spec fn at_home(home: PositionMask) -> spec_fn(Position) -> int {
    |p: Position| if home.contains(p) {
        1int
    } else {
        0int
    }
}

/// What a move from `from` to the cell gains for `color`, and two more.
pub open spec fn gain_from(from: Position, color: PieceColor) -> spec_fn(Position) -> int {
    |to: Position| Turn { from, to }.progress(color) + 2
}

impl BoardPosition {
    /// The distances of the pieces of `color` from their goal along the columns, in
    /// the order of their cells.
    pub open spec fn column_distances(self, color: PieceColor) -> Seq<u8> {
        self.pieces(color).cells().map_values(column_distance(color))
    }

    /// The distances of the pieces of `color` from their goal along the rows.
    pub open spec fn row_distances(self, color: PieceColor) -> Seq<u8> {
        self.pieces(color).cells().map_values(row_distance(color))
    }

    /// How far the pieces of `color` are from filling the goal corner.
    pub open spec fn distance(self, color: PieceColor) -> int {
        axis_cost(self.column_distances(color)) + axis_cost(self.row_distances(color))
    }

    /// The sum of the cell weights of the pieces of `color`.
    pub open spec fn weight_sum(self, color: PieceColor) -> int {
        sum_over(self.pieces(color).cells(), weight_of(color))
    }

    /// The least cell weight among the pieces of `color`, capped.
    pub open spec fn weight_least(self, color: PieceColor) -> int {
        least_over(self.pieces(color).cells(), weight_of(color), WEIGHT_CAP as int)
    }

    /// The most that a move of the piece on `from` gains for `color`, and two more;
    /// zero where that is less or the piece cannot move.
    pub open spec fn best_gain(self, from: Position, color: PieceColor) -> int {
        greatest_over(self.destinations(from), gain_from(from, color), 0)
    }

    /// `best_gain` for `color`, as a function of the cell.
    pub open spec fn gain_of(self, color: PieceColor) -> spec_fn(Position) -> int {
        |from: Position| self.best_gain(from, color)
    }

    /// The best gains of all pieces of `color`, added up.
    pub open spec fn mobility(self, color: PieceColor) -> int {
        sum_over(self.pieces(color).cells(), self.gain_of(color))
    }

    /// How many pieces of `color` stand in their own home corner.
    pub open spec fn pieces_at_home(self, color: PieceColor) -> int {
        sum_over(self.pieces(color).cells(), at_home(PositionMask::home(color)))
    }

    /// What the position is worth to `color` on its own after `turns_count` plies.
    /// While a piece is still at home only the distance counts, and a penalty that
    /// grows with the square of the pieces at home and with the plies past the tenth.
    pub open spec fn side_value(self, color: PieceColor, turns_count: nat) -> int {
        let at_home = self.pieces_at_home(color);
        let late = if turns_count > 10 {
            turns_count - 10
        } else {
            0
        };
        let placing = if turns_count < 30 {
            (self.weight_sum(color) + self.weight_least(color)) * 70
        } else {
            self.weight_least(color) * 20
        };
        if at_home > 0 {
            -self.distance(color) * 200 - at_home * at_home * (late * 800)
        } else {
            placing - self.distance(color) * 700 + self.mobility(color) * 30
        }
    }

    /// The result for `color` without looking ahead: a win or a loss at once where
    /// the game is decided, else the value of its own side less that of the other.
    pub open spec fn immediate(self, color: PieceColor, turns_count: nat) -> EvaluationResult {
        match self.winner_after(turns_count) {
            Some(winner) => if winner == color {
                EvaluationResult::Victory { in_steps: 0 }
            } else {
                EvaluationResult::Defeat { in_steps: 0 }
            },
            None => EvaluationResult::InBetween {
                score: (self.side_value(color, turns_count) - self.side_value(
                    color.other(),
                    turns_count,
                )) as i32,
            },
        }
    }

    /// How many pieces of `player_color` stand in their own home corner.
    pub fn starter_square_pieces(self, player_color: PieceColor) -> (count: i32)
        ensures
            count == self.pieces_at_home(player_color),
            0 <= count <= self.pieces(player_color)@.len(),
    {
        let starter_mask = PositionMask::initial_position(player_color);
        let cells = self.side(player_color).positions_iter();
        let ghost counted = at_home(starter_mask);
        let mut count: i32 = 0;
        let mut i: usize = 0;
        proof {
            self.pieces(player_color).lemma_finite();
            assert(cells@.take(0) =~= Seq::<Position>::empty());
        }
        while i < cells.len()
            invariant
                i <= cells.len() <= 64,
                counted == at_home(starter_mask),
                forall|k: int| 0 <= k < cells@.len() ==> (#[trigger] cells@[k]).on_board(),
                count == sum_over(cells@.take(i as int), counted),
                0 <= count <= i,
            decreases cells.len() - i,
        {
            proof {
                lemma_fold_step(cells@, counted, i as int, 0);
            }
            if starter_mask.has_piece_at(cells[i]) {
                count += 1;
            }
            i += 1;
        }
        proof {
            assert(cells@.take(i as int) =~= cells@);
        }
        count
    }

    /// The sum and the capped least of the cell weights of the pieces of `player_color`.
    pub fn positional_weight(self, player_color: PieceColor) -> (weights: (i32, i32))
        ensures
            weights.0 == self.weight_sum(player_color),
            weights.1 == self.weight_least(player_color),
            -1040 * self.pieces(player_color)@.len() <= weights.0 <= 270 * self.pieces(
                player_color,
            )@.len(),
            -1040 <= weights.1 <= WEIGHT_CAP,
            self.pieces(player_color)@.len() > 0 ==> weights.1 <= 270,
    {
        let cells = self.side(player_color).positions_iter();
        let ghost weigh = weight_of(player_color);
        let mut weight: i32 = 0;
        let mut min_weight: i32 = WEIGHT_CAP;
        let mut i: usize = 0;
        proof {
            self.pieces(player_color).lemma_finite();
            assert(cells@.take(0) =~= Seq::<Position>::empty());
        }
        while i < cells.len()
            invariant
                i <= cells.len() <= 64,
                weigh == weight_of(player_color),
                forall|k: int| 0 <= k < cells@.len() ==> (#[trigger] cells@[k]).on_board(),
                weight == sum_over(cells@.take(i as int), weigh),
                min_weight == least_over(cells@.take(i as int), weigh, WEIGHT_CAP as int),
                -1040 * i <= weight <= 270 * i,
                -1040 <= min_weight <= WEIGHT_CAP,
                i > 0 ==> min_weight <= 270,
            decreases cells.len() - i,
        {
            proof {
                lemma_fold_step(cells@, weigh, i as int, WEIGHT_CAP as int);
            }
            let cur_weight = weigh_cell(player_color, cells[i]);
            weight += cur_weight;
            if cur_weight < min_weight {
                min_weight = cur_weight;
            }
            i += 1;
        }
        proof {
            assert(cells@.take(i as int) =~= cells@);
        }
        (weight, min_weight)
    }

    /// The best gains of all pieces of `player_color`, added up.
    pub fn turns_weight(self, player_color: PieceColor) -> (total: i32)
        ensures
            total == self.mobility(player_color),
            0 <= total <= 16 * self.pieces(player_color)@.len(),
    {
        let cells = self.side(player_color).positions_iter();
        let ghost gain = self.gain_of(player_color);
        let mut total: i32 = 0;
        let mut i: usize = 0;
        proof {
            self.pieces(player_color).lemma_finite();
            assert(cells@.take(0) =~= Seq::<Position>::empty());
        }
        while i < cells.len()
            invariant
                i <= cells.len() <= 64,
                gain == self.gain_of(player_color),
                forall|k: int| 0 <= k < cells@.len() ==> (#[trigger] cells@[k]).on_board(),
                total == sum_over(cells@.take(i as int), gain),
                0 <= total <= 16 * i,
            decreases cells.len() - i,
        {
            let from = cells[i];
            let reach = self.generate_turn_for_black(from);
            let tos = reach.positions_iter();
            let ghost gained = gain_from(from, player_color);
            let mut best: i32 = 0;
            let mut j: usize = 0;
            proof {
                reach.lemma_finite();
                assert(tos@.take(0) =~= Seq::<Position>::empty());
            }
            while j < tos.len()
                invariant
                    j <= tos.len() <= 64,
                    from.on_board(),
                    gained == gain_from(from, player_color),
                    forall|k: int| 0 <= k < tos@.len() ==> (#[trigger] tos@[k]).on_board(),
                    best == greatest_over(tos@.take(j as int), gained, 0),
                    0 <= best <= 16,
                decreases tos.len() - j,
            {
                let turn = Turn { from, to: tos[j] };
                proof {
                    lemma_fold_step(tos@, gained, j as int, 0);
                    turn.lemma_progress_bounds(player_color);
                }
                let value = turn.value_for(player_color) + 2;
                if value > best {
                    best = value;
                }
                j += 1;
            }
            proof {
                assert(tos@.take(j as int) =~= tos@);
                lemma_fold_step(cells@, gain, i as int, 0);
            }
            total += best;
            i += 1;
        }
        proof {
            assert(cells@.take(i as int) =~= cells@);
        }
        total
    }

    /// How far the pieces of `player_color` are from filling the goal corner.
    pub fn distance_to_end_point(self, player_color: PieceColor) -> (score: i32)
        requires
            self.valid(),
        ensures
            score == self.distance(player_color),
            0 <= score <= 9408,
    {
        let cells = self.side(player_color).positions_iter();
        let mut pos_x: Vec<u8> = Vec::new();
        let mut pos_y: Vec<u8> = Vec::new();
        let mut i: usize = 0;
        proof {
            assert(cells@.len() == 9);
            assert(cells@.take(0).map_values(column_distance(player_color)) =~= Seq::<u8>::empty());
            assert(cells@.take(0).map_values(row_distance(player_color)) =~= Seq::<u8>::empty());
        }
        while i < cells.len()
            invariant
                i <= cells.len(),
                forall|k: int| 0 <= k < cells@.len() ==> (#[trigger] cells@[k]).on_board(),
                pos_x@ == cells@.take(i as int).map_values(column_distance(player_color)),
                pos_y@ == cells@.take(i as int).map_values(row_distance(player_color)),
                forall|k: int| 0 <= k < i ==> #[trigger] on_axis()(pos_x@[k]),
                forall|k: int| 0 <= k < i ==> #[trigger] on_axis()(pos_y@[k]),
            decreases cells.len() - i,
        {
            let pos = cells[i];
            let (x, y): (u8, u8) = match player_color {
                PieceColor::Black => (pos.get_x(), pos.get_y()),
                PieceColor::White => (7 - pos.get_x(), 7 - pos.get_y()),
            };
            pos_x.push(x);
            pos_y.push(y);
            proof {
                assert(cells@.take(i + 1) =~= cells@.take(i as int).push(pos));
                assert(pos_x@ =~= cells@.take(i + 1).map_values(column_distance(player_color)));
                assert(pos_y@ =~= cells@.take(i + 1).map_values(row_distance(player_color)));
            }
            i += 1;
        }
        proof {
            assert(cells@.take(i as int) =~= cells@);
            crate::sorting::lemma_rankings(player_color);
            crate::sorting::lemma_sort_keeps(pos_x@, byte_order(), on_axis());
            crate::sorting::lemma_sort_keeps(pos_y@, byte_order(), on_axis());
        }
        sort_ascending(&mut pos_x);
        sort_ascending(&mut pos_y);
        let along_x = ranked_cost(&pos_x);
        let along_y = ranked_cost(&pos_y);
        assert(on_axis()(pos_x@[8]) && on_axis()(pos_y@[8]));
        along_x + along_y + 15 * pos_x[8] as i32 + 15 * pos_y[8] as i32
    }

    /// A side has a piece at home exactly when its mask and its home corner share a
    /// cell.
    pub proof fn lemma_pieces_at_home(self, color: PieceColor)
        ensures
            self.pieces_at_home(color) >= 0,
            self.pieces_at_home(color) > 0 <==> self.lingers(color),
    {
        let own = self.pieces(color);
        let home = PositionMask::home(color);
        let cells = own.cells();
        let f = at_home(home);
        lemma_cells_where(|p: Position| own.contains(p), 64);
        lemma_sum_positive(cells, f);
        own.lemma_overlaps(home);
        if self.pieces_at_home(color) > 0 {
            let k = choose|k: int| 0 <= k < cells.len() && #[trigger] f(cells[k]) > 0;
            assert(own.contains(cells[k]) && home.contains(cells[k]));
        }
        if self.lingers(color) {
            let p = choose|p: Position| #[trigger] own.contains(p) && home.contains(p);
            assert(cells.contains(p));
            let k = choose|k: int| 0 <= k < cells.len() && cells[k] == p;
            assert(f(cells[k]) > 0);
        }
    }

    /// The parts of the evaluation of a valid position lie within fixed bounds.
    pub proof fn lemma_parts_bounds(self, color: PieceColor)
        requires
            self.valid(),
        ensures
            0 <= self.pieces_at_home(color) <= 9,
            0 <= self.distance(color) <= 9408,
            -9360 <= self.weight_sum(color) <= 2430,
            -1040 <= self.weight_least(color) <= 270,
            0 <= self.mobility(color) <= 144,
    {
        let own = self.pieces(color);
        let cells = own.cells();
        own.lemma_finite();
        lemma_cells_where(|p: Position| own.contains(p), 64);
        assert(cells.len() == 9);
        assert forall|k: int| 0 <= k < cells.len() implies (#[trigger] cells[k]).on_board() by {
            assert(own.contains(cells[k]));
        }
        // pieces at home
        let homing = at_home(PositionMask::home(color));
        assert forall|k: int| 0 <= k < cells.len() implies 0 <= #[trigger] homing(cells[k]) <= 1 by {}
        lemma_sum_bounds(cells, homing, 0, 1);
        // weights
        let weigh = weight_of(color);
        assert forall|k: int| 0 <= k < cells.len() implies -1040 <= #[trigger] weigh(cells[k])
            <= 270 by {
            lemma_cell_weight(color, cells[k]);
        }
        lemma_sum_bounds(cells, weigh, -1040, 270);
        lemma_extremes(cells, weigh, WEIGHT_CAP as int);
        assert(weigh(cells[0]) <= 270);
        if least_over(cells, weigh, WEIGHT_CAP as int) != WEIGHT_CAP {
            let k = choose|k: int|
                0 <= k < cells.len() && least_over(cells, weigh, WEIGHT_CAP as int)
                    == #[trigger] weigh(cells[k]);
            assert(-1040 <= weigh(cells[k]));
        }
        // mobility
        let gain = self.gain_of(color);
        assert forall|k: int| 0 <= k < cells.len() implies 0 <= #[trigger] gain(cells[k]) <= 16 by {
            self.lemma_best_gain(cells[k], color);
        }
        lemma_sum_bounds(cells, gain, 0, 16);
        // distance
        let xs = self.column_distances(color);
        let ys = self.row_distances(color);
        assert forall|k: int| 0 <= k < xs.len() implies #[trigger] on_axis()(xs[k]) by {
            assert(cells[k].on_board());
        }
        assert forall|k: int| 0 <= k < ys.len() implies #[trigger] on_axis()(ys[k]) by {
            assert(cells[k].on_board());
        }
        lemma_axis_cost(xs);
        lemma_axis_cost(ys);
    }

    /// The best gain of a piece on the board is between nothing and sixteen.
    pub proof fn lemma_best_gain(self, from: Position, color: PieceColor)
        requires
            from.on_board(),
        ensures
            0 <= self.best_gain(from, color) <= 16,
    {
        let tos = self.destinations(from);
        let gained = gain_from(from, color);
        lemma_cells_where(|to: Position| can_reach(self.all_pieces(), from, to), 64);
        lemma_extremes(tos, gained, 0);
        if self.best_gain(from, color) != 0 {
            let k = choose|k: int|
                0 <= k < tos.len() && greatest_over(tos, gained, 0) == #[trigger] gained(tos[k]);
            (Turn { from, to: tos[k] }).lemma_progress_bounds(color);
        }
    }

    /// What a valid position is worth to a side lies within fixed bounds, as long
    /// as no piece of the side is at home past the stalling limit.
    pub proof fn lemma_side_value_fits(self, color: PieceColor, turns_count: nat)
        requires
            self.valid(),
            self.pieces_at_home(color) == 0 || turns_count <= STALLING_LIMIT,
        ensures
            -7_400_000 <= self.side_value(color, turns_count) <= 200_000,
    {
        self.lemma_parts_bounds(color);
        let at_home = self.pieces_at_home(color);
        let late: int = if turns_count > 10 {
            turns_count - 10
        } else {
            0
        };
        if at_home > 0 {
            assert(0 <= at_home * at_home * (late * 800) <= 2_592_000) by (nonlinear_arith)
                requires
                    0 <= at_home <= 9,
                    0 <= late <= 40,
            ;
        }
    }

    /// The result without looking ahead is tame on every valid position, and the
    /// result for the other side is the same result seen from the other side.
    pub proof fn lemma_immediate_tame(self, color: PieceColor, turns_count: nat)
        requires
            self.valid(),
        ensures
            self.immediate(color, turns_count).tame(),
            self.immediate(color.other(), turns_count) == self.immediate(color, turns_count).flip(),
    {
        if self.winner_after(turns_count).is_none() {
            self.lemma_pieces_at_home(color);
            self.lemma_pieces_at_home(color.other());
            self.lemma_side_value_fits(color, turns_count);
            self.lemma_side_value_fits(color.other(), turns_count);
        }
    }

    /// What one side gains the other loses: where the difference of the two side
    /// values fits the limit, the result for the other side is the result seen from
    /// the other side.
    pub proof fn lemma_immediate_flips(self, color: PieceColor, turns_count: nat)
        requires
            -SCORE_LIMIT <= self.side_value(color, turns_count) - self.side_value(
                color.other(),
                turns_count,
            ) <= SCORE_LIMIT,
        ensures
            self.immediate(color.other(), turns_count) == self.immediate(color, turns_count).flip(),
    {
    }

    /// What the position is worth to `color` on its own after `turns_count` plies.
    pub fn evaluation_helper_position_value(self, color: PieceColor, turns_count: usize) -> (value:
        i32)
        requires
            self.valid(),
            self.side_value(color, turns_count as nat) > i32::MIN,
        ensures
            value == self.side_value(color, turns_count as nat),
            value <= 200_000,
            self.pieces_at_home(color) == 0 || turns_count <= STALLING_LIMIT ==> -7_400_000
                <= value,
    {
        let starter_pieces = self.starter_square_pieces(color);
        let dist = self.distance_to_end_point(color);
        let (positional_w_all, positional_w_min) = self.positional_weight(color);
        let positional_w = if turns_count < 30 {
            (positional_w_all + positional_w_min) * 70
        } else {
            positional_w_min * 20
        };
        if starter_pieces > 0 {
            let ghost plies: int = if turns_count > 10 {
                turns_count - 10
            } else {
                0
            };
            assert(1 <= starter_pieces * starter_pieces <= 81) by (nonlinear_arith)
                requires
                    1 <= starter_pieces <= 9,
            ;
            let squared = starter_pieces * starter_pieces;
            assert(0 <= plies * 800 <= squared * (plies * 800)) by (nonlinear_arith)
                requires
                    1 <= squared,
                    0 <= plies,
            ;
            let late: i32 = if turns_count > 10 {
                (turns_count - 10) as i32
            } else {
                0
            };
            assert(turns_count <= STALLING_LIMIT ==> squared * (late * 800) <= 2_592_000)
                by (nonlinear_arith)
                requires
                    0 <= squared <= 81,
                    0 <= late,
                    turns_count <= STALLING_LIMIT ==> late <= 40,
            ;
            -dist * 200 - squared * (late * 800)
        } else {
            positional_w - dist * 700 + self.turns_weight(color) * 30
        }
    }

    /// The result for `player_color` without looking ahead.
    pub fn immediately_evaluate_for(self, player_color: PieceColor, turns_count: usize) -> (result:
        EvaluationResult)
        requires
            self.valid(),
        ensures
            result == self.immediate(player_color, turns_count as nat),
            result.tame(),
            result.decided() == self.winner_after(turns_count as nat).is_some(),
            result.flip() == self.immediate(player_color.other(), turns_count as nat),
    {
        if let Some(winner) = self.winner(turns_count) {
            if winner == player_color {
                return EvaluationResult::Victory { in_steps: 0 };
            } else {
                return EvaluationResult::Defeat { in_steps: 0 };
            }
        }
        proof {
            self.lemma_pieces_at_home(player_color);
            self.lemma_pieces_at_home(player_color.other());
            self.lemma_side_value_fits(player_color, turns_count as nat);
            self.lemma_side_value_fits(player_color.other(), turns_count as nat);
        }
        let my_val = self.evaluation_helper_position_value(player_color, turns_count);
        let other_val = self.evaluation_helper_position_value(player_color.opposite(), turns_count);
        EvaluationResult::InBetween { score: my_val - other_val }
    }
}

/// What nine sorted distances cost by their ranks.
fn ranked_cost(sorted: &Vec<u8>) -> (cost: i32)
    requires
        sorted@.len() == 9,
        forall|k: int| 0 <= k < 9 ==> #[trigger] on_axis()(sorted@[k]),
    ensures
        cost == slot_cost(sorted@, 9),
        0 <= cost <= 4599,
{
    let mut cost: i32 = 0;
    let mut i: usize = 0;
    while i < 9
        invariant
            i <= 9,
            sorted@.len() == 9,
            forall|k: int| 0 <= k < 9 ==> #[trigger] on_axis()(sorted@[k]),
            cost == slot_cost(sorted@, i as nat),
            0 <= cost <= 511 * i,
        decreases 9 - i,
    {
        let value = sorted[i];
        assert(on_axis()(sorted@[i as int]));
        let ideal: u8 = (i / 3) as u8;
        let miss: u8 = if value < ideal {
            ideal - value
        } else {
            value - ideal
        };
        cost += cubed(miss as i32 + 1) - 1;
        i += 1;
    }
    cost
}

/// The weight of a cell of the board lies between -1040 and 270.
pub proof fn lemma_cell_weight(color: PieceColor, p: Position)
    requires
        p.on_board(),
    ensures
        -1040 <= cell_weight(color, p) <= 270,
{
    let x = match color {
        PieceColor::Black => 3 - p.x(),
        PieceColor::White => p.x() - 4,
    };
    let y = match color {
        PieceColor::Black => 3 - p.y(),
        PieceColor::White => p.y() - 4,
    };
    let far = if x > y {
        x
    } else {
        y
    };
    assert(-64 <= far * far * far <= 27) by (nonlinear_arith)
        requires
            -4 <= far <= 3,
    ;
}

/// The cost of the ranks of sorted distances along an axis grows by at most 511 with
/// each rank.
pub proof fn lemma_slot_cost(sorted: Seq<u8>, n: nat)
    requires
        n <= sorted.len(),
        n <= 9,
        forall|k: int| 0 <= k < sorted.len() ==> #[trigger] on_axis()(sorted[k]),
    ensures
        0 <= slot_cost(sorted, n) <= 511 * n,
    decreases n,
{
    if n > 0 {
        lemma_slot_cost(sorted, (n - 1) as nat);
        assert(on_axis()(sorted[n - 1]));
        let miss = gap(sorted[n - 1] as int, (n - 1) / 3) + 1;
        assert(1 <= miss * miss * miss <= 512) by (nonlinear_arith)
            requires
                1 <= miss <= 8,
        ;
    }
}

/// Nine distances along an axis cost between nothing and 4704.
pub proof fn lemma_axis_cost(values: Seq<u8>)
    requires
        values.len() == 9,
        forall|k: int| 0 <= k < values.len() ==> #[trigger] on_axis()(values[k]),
    ensures
        0 <= axis_cost(values) <= 4704,
{
    lemma_rankings(PieceColor::White);
    lemma_sort_keeps(values, byte_order(), on_axis());
    let sorted = sort_by(values, byte_order());
    lemma_slot_cost(sorted, 9);
    assert(on_axis()(sorted[8]));
}

/// The third power of a small number.
fn cubed(v: i32) -> (c: i32)
    requires
        -8 <= v <= 8,
    ensures
        c == cube(v as int),
        -512 <= c <= 512,
        v >= 0 ==> c >= 0,
        v >= 1 ==> c >= 1,
        v <= 3 ==> c <= 27,
        v >= -4 ==> c >= -64,
{
    assert(0 <= v * v <= 64) by (nonlinear_arith)
        requires
            -8 <= v <= 8,
    ;
    assert(-512 <= v * v * v <= 512 && (v >= 0 ==> v * v * v >= 0) && (v >= 1 ==> v * v * v >= 1)
        && (v <= 3 ==> v * v * v <= 27)
        && (v >= -4 ==> v * v * v >= -64)) by (nonlinear_arith)
        requires
            -8 <= v <= 8,
    ;
    v * v * v
}

/// The weight of a piece of `color` on `pos`.
fn weigh_cell(color: PieceColor, pos: Position) -> (weight: i32)
    requires
        pos.on_board(),
    ensures
        weight == cell_weight(color, pos),
        -1040 <= weight <= 270,
{
    let (x, y): (i32, i32) = match color {
        PieceColor::Black => (3 - pos.get_x() as i32, 3 - pos.get_y() as i32),
        PieceColor::White => (pos.get_x() as i32 - 4, pos.get_y() as i32 - 4),
    };
    let far: i32 = if x > y {
        x
    } else {
        y
    };
    let apart: i32 = if x < y {
        y - x
    } else {
        x - y
    };
    let spread: i32 = if apart > 3 {
        apart
    } else {
        3
    };
    cubed(far) * 10 - (spread - 3) * 100
}

} // verus!
