use crate::color::PieceColor;
use crate::coordinate::Position;
use vstd::prelude::*;

verus! {

/// One ply: a piece leaves `from` and comes to rest on `to`.
#[derive(Debug, Copy, Clone, PartialEq, Eq, Structural, PartialOrd, Ord, Hash)]
pub struct Turn {
    pub from: Position,
    pub to: Position,
}

impl Turn {
    /// How far the turn carries the piece towards the goal of `player`:
    /// White advances as column and row grow, Black as they shrink.
    pub open spec fn progress(self, player: PieceColor) -> int {
        let gain = (self.to.x() - self.from.x()) + (self.to.y() - self.from.y());
        match player {
            PieceColor::Black => -gain,
            PieceColor::White => gain,
        }
    }

    /// How far the turn carries the piece towards the goal of `player`.
    pub fn value_for(self, player: PieceColor) -> (value: i32)
        ensures
            value == self.progress(player),
    {
        let dx: i32 = self.to.get_x() as i32 - self.from.get_x() as i32;
        let dy: i32 = self.to.get_y() as i32 - self.from.get_y() as i32;
        match player {
            PieceColor::Black => -(dx + dy),
            PieceColor::White => dx + dy,
        }
    }

    /// What one side gains by a turn, the other loses.
    pub proof fn lemma_progress_antisymmetric(self, player: PieceColor)
        ensures
            self.progress(player.other()) == -self.progress(player),
    {
    }

    /// Between two cells of the board a turn gains at most fourteen.
    pub proof fn lemma_progress_bounds(self, player: PieceColor)
        requires
            self.from.on_board(),
            self.to.on_board(),
        ensures
            -14 <= self.progress(player) <= 14,
    {
    }
}

} // verus!
