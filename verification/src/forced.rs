use crate::board::BoardPosition;
use crate::color::PieceColor;
use crate::outcome::EvaluationResult;
use crate::turn::Turn;
use vstd::prelude::*;

verus! {

/// What looking ahead has proved for one side: a win in so many steps, a loss in so
/// many steps, or neither.
pub struct Forecast {
    pub victory: Option<usize>,
    pub defeat: Option<usize>,
}

impl Forecast {
    /// Nothing proved.
    pub open spec fn open_game() -> Forecast {
        Forecast { victory: None, defeat: None }
    }

    /// The forecast one own step earlier.
    pub open spec fn one_later(self) -> Forecast {
        Forecast {
            victory: match self.victory {
                Some(steps) => Some((steps + 1) as usize),
                None => None,
            },
            defeat: match self.defeat {
                Some(steps) => Some((steps + 1) as usize),
                None => None,
            },
        }
    }

    /// The forecast of the side to move before any of its moves is looked at: no
    /// win, and a loss in one step unless a move avoids it.
    pub open spec fn before_own() -> Forecast {
        Forecast { victory: None, defeat: Some(1) }
    }

    /// The forecast before any move of the other side is looked at: a win in one
    /// step unless a move avoids it, and no loss.
    pub open spec fn before_other() -> Forecast {
        Forecast { victory: Some(1), defeat: None }
    }

    /// The forecast of the side to move after one more of its moves, which leads to
    /// `child`: a winning move wins, by the shortest way; a loss stays proved only
    /// as long as every move loses, and then by the longest way.
    pub open spec fn with_own(self, child: Forecast) -> Forecast {
        match child.victory {
            Some(steps) => Forecast {
                victory: Some(
                    match self.victory {
                        Some(known) => if steps < known {
                            steps
                        } else {
                            known
                        },
                        None => steps,
                    },
                ),
                defeat: None,
            },
            None => match child.defeat {
                Some(steps) => Forecast {
                    victory: self.victory,
                    defeat: match self.defeat {
                        Some(known) => Some(
                            if steps > known {
                                steps
                            } else {
                                known
                            },
                        ),
                        None => None,
                    },
                },
                None => Forecast { victory: self.victory, defeat: None },
            },
        }
    }

    /// The forecast after one more move of the other side, which leads to `child`:
    /// a move that beats us proves the loss, by the shortest way; a win stays
    /// proved only as long as every move of the other side loses, and then by the
    /// longest way.
    pub open spec fn with_other(self, child: Forecast) -> Forecast {
        match child.defeat {
            Some(steps) => Forecast {
                victory: None,
                defeat: Some(
                    match self.defeat {
                        Some(known) => if steps < known {
                            steps
                        } else {
                            known
                        },
                        None => steps,
                    },
                ),
            },
            None => match child.victory {
                Some(steps) => Forecast {
                    victory: match self.victory {
                        Some(known) => Some(
                            if steps > known {
                                steps
                            } else {
                                known
                            },
                        ),
                        None => None,
                    },
                    defeat: self.defeat,
                },
                None => Forecast { victory: None, defeat: self.defeat },
            },
        }
    }

    /// A forecast that claims both a win and a loss claims nothing.
    pub open spec fn settled(self) -> Forecast {
        if self.victory.is_some() && self.defeat.is_some() {
            Forecast::open_game()
        } else {
            self
        }
    }

    /// No step count is above `limit`.
    pub open spec fn within(self, limit: nat) -> bool {
        &&& self.victory matches Some(steps) ==> steps <= limit
        &&& self.defeat matches Some(steps) ==> steps <= limit
    }

    /// The forecast of the side to move from the forecasts `kids` of its moves.
    pub open spec fn merged_own(kids: Seq<Forecast>) -> Forecast
        decreases kids.len(),
    {
        if kids.len() == 0 {
            Forecast::before_own()
        } else {
            Forecast::merged_own(kids.drop_last()).with_own(kids.last())
        }
    }

    /// The forecast from the forecasts `kids` of the moves of the other side.
    pub open spec fn merged_other(kids: Seq<Forecast>) -> Forecast
        decreases kids.len(),
    {
        if kids.len() == 0 {
            Forecast::before_other()
        } else {
            Forecast::merged_other(kids.drop_last()).with_other(kids.last())
        }
    }

    /// The side to move wins if one of its moves wins, by the shortest way. It has
    /// lost only if every move is a proved loss without a win, and then by the
    /// longest way, which counts at least one step.
    pub proof fn lemma_merged_own(kids: Seq<Forecast>)
        ensures
            ({
                let merged = Forecast::merged_own(kids);
                &&& merged.victory.is_some() <==> exists|i: int|
                    0 <= i < kids.len() && (#[trigger] kids[i]).victory.is_some()
                &&& merged.victory matches Some(steps) ==> {
                    &&& exists|i: int|
                        0 <= i < kids.len() && (#[trigger] kids[i]).victory == Some(steps)
                    &&& forall|i: int|
                        0 <= i < kids.len() ==> ((#[trigger] kids[i]).victory matches Some(other)
                            ==> steps <= other)
                }
                &&& merged.defeat.is_some() <==> forall|i: int|
                    0 <= i < kids.len() ==> (#[trigger] kids[i]).victory.is_none()
                        && kids[i].defeat.is_some()
                &&& merged.defeat matches Some(steps) ==> {
                    &&& steps >= 1
                    &&& steps == 1 || exists|i: int|
                        0 <= i < kids.len() && (#[trigger] kids[i]).defeat == Some(steps)
                    &&& forall|i: int|
                        0 <= i < kids.len() ==> ((#[trigger] kids[i]).defeat matches Some(other)
                            ==> other <= steps)
                }
            }),
        decreases kids.len(),
    {
        if kids.len() > 0 {
            let head = kids.drop_last();
            let last = kids.len() - 1;
            Forecast::lemma_merged_own(head);
            let before = Forecast::merged_own(head);
            let merged = Forecast::merged_own(kids);
            assert forall|i: int| 0 <= i < head.len() implies head[i] == kids[i] by {}
            if before.victory.is_some() {
                let i = choose|i: int| 0 <= i < head.len() && (#[trigger] head[i]).victory.is_some();
                assert(kids[i].victory.is_some());
            }
            if let Some(steps) = before.victory {
                let i = choose|i: int|
                    0 <= i < head.len() && (#[trigger] head[i]).victory == Some(steps);
                assert(kids[i].victory == Some(steps));
            }
            if let Some(steps) = before.defeat {
                if steps != 1 {
                    let i = choose|i: int|
                        0 <= i < head.len() && (#[trigger] head[i]).defeat == Some(steps);
                    assert(kids[i].defeat == Some(steps));
                }
            }
            assert(kids[last] == kids.last());
            if merged.victory.is_some() && kids[last].victory.is_none() {
                assert(before.victory.is_some());
            }
            if !before.defeat.is_some() {
                let i = choose|i: int|
                    0 <= i < head.len() && !((#[trigger] head[i]).victory.is_none()
                        && head[i].defeat.is_some());
                assert(!(kids[i].victory.is_none() && kids[i].defeat.is_some()));
            }
        }
    }

    /// The other side beats us if one of its moves does, by the shortest way. We
    /// have won only if every move of the other side is a proved win for us without
    /// a loss, and then by the longest way, which counts at least one step.
    pub proof fn lemma_merged_other(kids: Seq<Forecast>)
        ensures
            ({
                let merged = Forecast::merged_other(kids);
                &&& merged.defeat.is_some() <==> exists|i: int|
                    0 <= i < kids.len() && (#[trigger] kids[i]).defeat.is_some()
                &&& merged.defeat matches Some(steps) ==> {
                    &&& exists|i: int|
                        0 <= i < kids.len() && (#[trigger] kids[i]).defeat == Some(steps)
                    &&& forall|i: int|
                        0 <= i < kids.len() ==> ((#[trigger] kids[i]).defeat matches Some(other)
                            ==> steps <= other)
                }
                &&& merged.victory.is_some() <==> forall|i: int|
                    0 <= i < kids.len() ==> (#[trigger] kids[i]).defeat.is_none()
                        && kids[i].victory.is_some()
                &&& merged.victory matches Some(steps) ==> {
                    &&& steps >= 1
                    &&& steps == 1 || exists|i: int|
                        0 <= i < kids.len() && (#[trigger] kids[i]).victory == Some(steps)
                    &&& forall|i: int|
                        0 <= i < kids.len() ==> ((#[trigger] kids[i]).victory matches Some(other)
                            ==> other <= steps)
                }
            }),
        decreases kids.len(),
    {
        if kids.len() > 0 {
            let head = kids.drop_last();
            let last = kids.len() - 1;
            Forecast::lemma_merged_other(head);
            let before = Forecast::merged_other(head);
            let merged = Forecast::merged_other(kids);
            assert forall|i: int| 0 <= i < head.len() implies head[i] == kids[i] by {}
            if before.defeat.is_some() {
                let i = choose|i: int| 0 <= i < head.len() && (#[trigger] head[i]).defeat.is_some();
                assert(kids[i].defeat.is_some());
            }
            if let Some(steps) = before.defeat {
                let i = choose|i: int|
                    0 <= i < head.len() && (#[trigger] head[i]).defeat == Some(steps);
                assert(kids[i].defeat == Some(steps));
            }
            if let Some(steps) = before.victory {
                if steps != 1 {
                    let i = choose|i: int|
                        0 <= i < head.len() && (#[trigger] head[i]).victory == Some(steps);
                    assert(kids[i].victory == Some(steps));
                }
            }
            assert(kids[last] == kids.last());
            if merged.defeat.is_some() && kids[last].defeat.is_none() {
                assert(before.defeat.is_some());
            }
            if !before.victory.is_some() {
                let i = choose|i: int|
                    0 <= i < head.len() && !((#[trigger] head[i]).defeat.is_none()
                        && head[i].victory.is_some());
                assert(!(kids[i].defeat.is_none() && kids[i].victory.is_some()));
            }
        }
    }

    /// The forecast of the side to move after one more of its moves.
    fn add_own(self, child: Forecast) -> (merged: Forecast)
        ensures
            merged == self.with_own(child),
    {
        if let Some(in_steps) = child.victory {
            let best = match self.victory {
                Some(known) => if in_steps < known {
                    in_steps
                } else {
                    known
                },
                None => in_steps,
            };
            Forecast { victory: Some(best), defeat: None }
        } else if let Some(in_steps) = child.defeat {
            match self.defeat {
                Some(known) => Forecast {
                    victory: self.victory,
                    defeat: Some(
                        if in_steps > known {
                            in_steps
                        } else {
                            known
                        },
                    ),
                },
                None => Forecast { victory: self.victory, defeat: None },
            }
        } else {
            Forecast { victory: self.victory, defeat: None }
        }
    }

    /// The forecast after one more move of the other side.
    fn add_other(self, child: Forecast) -> (merged: Forecast)
        ensures
            merged == self.with_other(child),
    {
        if let Some(in_steps) = child.defeat {
            let best = match self.defeat {
                Some(known) => if in_steps < known {
                    in_steps
                } else {
                    known
                },
                None => in_steps,
            };
            Forecast { victory: None, defeat: Some(best) }
        } else if let Some(in_steps) = child.victory {
            match self.victory {
                Some(known) => Forecast {
                    victory: Some(
                        if in_steps > known {
                            in_steps
                        } else {
                            known
                        },
                    ),
                    defeat: self.defeat,
                },
                None => Forecast { victory: None, defeat: self.defeat },
            }
        } else {
            Forecast { victory: None, defeat: self.defeat }
        }
    }
}

impl BoardPosition {
    /// What looking `depth` plies ahead proves for `col` when `cur_col` is to move
    /// after `turns_count` plies. A decided game is a win or a loss in no step;
    /// with no ply left nothing is proved; else the forecasts of all moves are
    /// merged, each own move counting one step.
    pub open spec fn forecast(
        self,
        col: PieceColor,
        cur_col: PieceColor,
        depth: nat,
        turns_count: nat,
    ) -> Forecast
        decreases depth, 1nat, 0nat,
    {
        match self.winner_after(turns_count) {
            Some(winner) => if winner == col {
                Forecast { victory: Some(0), defeat: None }
            } else {
                Forecast { victory: None, defeat: Some(0) }
            },
            None => if depth == 0 {
                Forecast::open_game()
            } else {
                let turns = self.all_turns(cur_col);
                self.forecast_over(col, cur_col, depth, turns_count, turns, turns.len()).settled()
            },
        }
    }

    /// The merged forecasts of the first `k` of the moves `turns` of `cur_col`.
    pub open spec fn forecast_over(
        self,
        col: PieceColor,
        cur_col: PieceColor,
        depth: nat,
        turns_count: nat,
        turns: Seq<Turn>,
        k: nat,
    ) -> Forecast
        decreases depth, 0nat, k,
    {
        if k == 0 || depth == 0 {
            if col == cur_col {
                Forecast::before_own()
            } else {
                Forecast::before_other()
            }
        } else {
            let so_far = self.forecast_over(
                col,
                cur_col,
                depth,
                turns_count,
                turns,
                (k - 1) as nat,
            );
            let child = self.after(turns[k - 1], cur_col).forecast(
                col,
                cur_col.other(),
                (depth - 1) as nat,
                turns_count + 1,
            );
            if col == cur_col {
                so_far.with_own(child.one_later())
            } else {
                so_far.with_other(child)
            }
        }
    }

    /// The result for `color` of looking `depth` plies ahead for a forced end: a
    /// proved win or loss with its steps, else the result without looking ahead.
    pub open spec fn foreseen(
        self,
        color: PieceColor,
        depth: nat,
        turns_count: nat,
    ) -> EvaluationResult {
        let forecast = self.forecast(color, color, depth, turns_count);
        match forecast.victory {
            Some(steps) => EvaluationResult::Victory { in_steps: steps as i32 },
            None => match forecast.defeat {
                Some(steps) => EvaluationResult::Defeat { in_steps: steps as i32 },
                None => self.immediate(color, turns_count),
            },
        }
    }

    /// What looking ahead proves once `cur_col` has played `turn`.
    pub open spec fn forecast_after(
        self,
        col: PieceColor,
        cur_col: PieceColor,
        depth: nat,
        turns_count: nat,
        turn: Turn,
    ) -> Forecast {
        self.after(turn, cur_col).forecast(
            col,
            cur_col.other(),
            (depth - 1) as nat,
            turns_count + 1,
        )
    }

    /// The forecasts of the first `k` of the moves `turns`, each counted one step
    /// later where the move is an own one.
    pub open spec fn forecasts_after(
        self,
        col: PieceColor,
        cur_col: PieceColor,
        depth: nat,
        turns_count: nat,
        turns: Seq<Turn>,
        k: nat,
    ) -> Seq<Forecast> {
        Seq::new(
            k,
            |i: int|
                if col == cur_col {
                    self.forecast_after(col, cur_col, depth, turns_count, turns[i]).one_later()
                } else {
                    self.forecast_after(col, cur_col, depth, turns_count, turns[i])
                },
        )
    }

    /// The merged forecast of some moves is the forecast of the side to move, or of
    /// the other side, from the forecasts of these moves.
    pub proof fn lemma_forecast_over(
        self,
        col: PieceColor,
        cur_col: PieceColor,
        depth: nat,
        turns_count: nat,
        turns: Seq<Turn>,
        k: nat,
    )
        requires
            depth >= 1,
            k <= turns.len(),
        ensures
            self.forecast_over(col, cur_col, depth, turns_count, turns, k) == if col == cur_col {
                Forecast::merged_own(
                    self.forecasts_after(col, cur_col, depth, turns_count, turns, k),
                )
            } else {
                Forecast::merged_other(
                    self.forecasts_after(col, cur_col, depth, turns_count, turns, k),
                )
            },
        decreases k,
    {
        let kids = self.forecasts_after(col, cur_col, depth, turns_count, turns, k);
        if k > 0 {
            self.lemma_forecast_over(col, cur_col, depth, turns_count, turns, (k - 1) as nat);
            assert(kids.drop_last() =~= self.forecasts_after(
                col,
                cur_col,
                depth,
                turns_count,
                turns,
                (k - 1) as nat,
            ));
        }
    }

    /// No forecast counts more steps than plies were looked ahead.
    pub proof fn lemma_forecast_within(
        self,
        col: PieceColor,
        cur_col: PieceColor,
        depth: nat,
        turns_count: nat,
    )
        ensures
            self.forecast(col, cur_col, depth, turns_count).within(depth),
        decreases depth, 1nat, 0nat,
    {
        if self.winner_after(turns_count).is_none() && depth > 0 {
            let turns = self.all_turns(cur_col);
            self.lemma_forecast_over_within(col, cur_col, depth, turns_count, turns, turns.len());
        }
    }

    /// No merged forecast counts more steps than plies were looked ahead.
    pub proof fn lemma_forecast_over_within(
        self,
        col: PieceColor,
        cur_col: PieceColor,
        depth: nat,
        turns_count: nat,
        turns: Seq<Turn>,
        k: nat,
    )
        requires
            depth >= 1,
        ensures
            self.forecast_over(col, cur_col, depth, turns_count, turns, k).within(depth),
        decreases depth, 0nat, k,
    {
        if k > 0 {
            self.lemma_forecast_over_within(col, cur_col, depth, turns_count, turns, (k - 1) as nat);
            self.after(turns[k - 1], cur_col).lemma_forecast_within(
                col,
                cur_col.other(),
                (depth - 1) as nat,
                turns_count + 1,
            );
        }
    }

    /// What looking `depth` plies ahead proves for `col` when `cur_col` is to move.
    pub fn eval_helper(
        self,
        col: PieceColor,
        cur_col: PieceColor,
        depth: usize,
        turns_count: usize,
    ) -> (forecast: Forecast)
        requires
            self.valid(),
            turns_count + depth <= usize::MAX,
        ensures
            forecast == self.forecast(col, cur_col, depth as nat, turns_count as nat),
            forecast.within(depth as nat),
        decreases depth,
    {
        proof {
            self.lemma_forecast_within(col, cur_col, depth as nat, turns_count as nat);
        }
        match self.winner(turns_count) {
            Some(winner) => {
                return if winner == col {
                    Forecast { victory: Some(0), defeat: None }
                } else {
                    Forecast { victory: None, defeat: Some(0) }
                };
            },
            None => {
                if depth == 0 {
                    return Forecast { victory: None, defeat: None };
                }
            },
        };
        let opposite_col = cur_col.opposite();
        let turns = self.generate_all_turns_for(cur_col);
        let own = col == cur_col;
        let mut merged = if own {
            Forecast { victory: None, defeat: Some(1) }
        } else {
            Forecast { victory: Some(1), defeat: None }
        };
        let mut i: usize = 0;
        while i < turns.len()
            invariant
                i <= turns.len(),
                self.valid(),
                depth >= 1,
                turns_count + depth <= usize::MAX,
                own == (col == cur_col),
                opposite_col == cur_col.other(),
                turns@ == self.all_turns(cur_col),
                forall|t: Turn| turns@.contains(t) ==> self.legal(t, cur_col),
                merged == self.forecast_over(
                    col,
                    cur_col,
                    depth as nat,
                    turns_count as nat,
                    turns@,
                    i as nat,
                ),
            decreases turns.len() - i,
        {
            let turn = turns[i];
            proof {
                assert(turns@.contains(turns@[i as int]));
                self.lemma_legal_turn(turn, cur_col);
            }
            let child = self.perform_turn(turn, cur_col).eval_helper(
                col,
                opposite_col,
                depth - 1,
                turns_count + 1,
            );
            merged = if own {
                let later = Forecast {
                    victory: match child.victory {
                        Some(steps) => Some(steps + 1),
                        None => None,
                    },
                    defeat: match child.defeat {
                        Some(steps) => Some(steps + 1),
                        None => None,
                    },
                };
                merged.add_own(later)
            } else {
                merged.add_other(child)
            };
            i += 1;
        }
        if merged.victory.is_some() && merged.defeat.is_some() {
            Forecast { victory: None, defeat: None }
        } else {
            merged
        }
    }

    /// The result for `player_color` of looking `max_depth` plies ahead for a forced
    /// end of the game.
    pub fn deep_evaluate_for(
        self,
        player_color: PieceColor,
        max_depth: usize,
        turns_count: usize,
    ) -> (result: EvaluationResult)
        requires
            self.valid(),
            turns_count + max_depth <= usize::MAX,
            max_depth <= i32::MAX,
        ensures
            result == self.foreseen(player_color, max_depth as nat, turns_count as nat),
            result.tame(),
    {
        let forecast = self.eval_helper(player_color, player_color, max_depth, turns_count);
        if let Some(steps) = forecast.victory {
            EvaluationResult::Victory { in_steps: steps as i32 }
        } else if let Some(steps) = forecast.defeat {
            EvaluationResult::Defeat { in_steps: steps as i32 }
        } else {
            self.immediately_evaluate_for(player_color, turns_count)
        }
    }
}

} // verus!
