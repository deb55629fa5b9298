use crate::color::PieceColor;
use crate::coordinate::Position;
use crate::mask::PositionMask;
use crate::turn::Turn;
use vstd::prelude::*;
use vstd::std_specs::cmp::PartialEqSpecImpl;

verus! {

/// The pieces of both sides: Black's cells first, then White's.
#[derive(Debug, Copy, Clone, Eq, PartialOrd, Ord, Hash)]
pub struct BoardPosition(pub [PositionMask; 2]);

impl PartialEq for BoardPosition {
    fn eq(&self, other: &Self) -> (same: bool) {
        self.0[0] == other.0[0] && self.0[1] == other.0[1]
    }
}

impl PartialEqSpecImpl for BoardPosition {
    open spec fn obeys_eq_spec() -> bool {
        true
    }

    open spec fn eq_spec(&self, other: &Self) -> bool {
        self.0[0] == other.0[0] && self.0[1] == other.0[1]
    }
}

/// After this many plies a side that still has a piece at home loses.
pub const STALLING_LIMIT: usize = 50;

impl BoardPosition {
    /// The cells that `color` occupies.
    pub open spec fn pieces(self, color: PieceColor) -> PositionMask {
        self.0[color.slot()]
    }

    /// The cells that either side occupies.
    pub open spec fn all_pieces(self) -> PositionMask {
        PositionMask(self.0[0].0 | self.0[1].0)
    }

    /// A piece of either side stands on `pos`.
    pub open spec fn occupied(self, pos: Position) -> bool {
        self.0[0].contains(pos) || self.0[1].contains(pos)
    }

    /// The starting layout: each side fills its own home corner.
    pub open spec fn start() -> BoardPosition {
        BoardPosition([PositionMask::black_home(), PositionMask::white_home()])
    }

    /// No cell holds two pieces, and each side has nine.
    pub open spec fn valid(self) -> bool {
        &&& self.0[0]@.disjoint(self.0[1]@)
        &&& self.0[0]@.len() == 9
        &&& self.0[1]@.len() == 9
    }

    /// `color` has filled the home corner of the other side.
    pub open spec fn has_arrived(self, color: PieceColor) -> bool {
        self.pieces(color) == PositionMask::home(color.other())
    }

    /// `color` still has a piece in its own home corner.
    pub open spec fn lingers(self, color: PieceColor) -> bool {
        self.pieces(color).0 & PositionMask::home(color).0 != 0
    }

    /// The side that has won after `turns_count` plies, if any. Black's arrival is
    /// looked at first; past the stalling limit a side with a piece still at home
    /// loses, Black's home being looked at first.
    pub open spec fn winner_after(self, turns_count: nat) -> Option<PieceColor> {
        if self.has_arrived(PieceColor::Black) {
            Some(PieceColor::Black)
        } else if self.has_arrived(PieceColor::White) {
            Some(PieceColor::White)
        } else if turns_count > STALLING_LIMIT {
            if self.lingers(PieceColor::Black) {
                Some(PieceColor::White)
            } else if self.lingers(PieceColor::White) {
                Some(PieceColor::Black)
            } else {
                None
            }
        } else {
            None
        }
    }

    /// `turn` takes a piece of `player` to an empty cell other than its own.
    pub open spec fn admits(self, turn: Turn, player: PieceColor) -> bool {
        &&& turn.from.on_board()
        &&& turn.to.on_board()
        &&& self.pieces(player).contains(turn.from)
        &&& !self.occupied(turn.to)
        &&& turn.from != turn.to
    }

    /// The position after `player` has played `turn`.
    pub open spec fn after(self, turn: Turn, player: PieceColor) -> BoardPosition {
        let moved = self.pieces(player).without(turn.from).with(turn.to);
        match player {
            PieceColor::Black => BoardPosition([moved, self.0[1]]),
            PieceColor::White => BoardPosition([self.0[0], moved]),
        }
    }

    /// The mask of `color`.
    pub fn side(self, color: PieceColor) -> (mask: PositionMask)
        ensures
            mask == self.pieces(color),
    {
        self.0[color.index()]
    }

    /// Whether the game is decided after `turns_count` plies.
    pub fn has_winner(self, turns_count: usize) -> (decided: bool)
        ensures
            decided == self.winner_after(turns_count as nat).is_some(),
    {
        self.winner(turns_count).is_some()
    }

    /// The side that has won after `turns_count` plies, if any.
    pub fn winner(self, turns_count: usize) -> (winner: Option<PieceColor>)
        ensures
            winner == self.winner_after(turns_count as nat),
    {
        if self.0[0] == PositionMask::white_initial_position() {
            Some(PieceColor::Black)
        } else if self.0[1] == PositionMask::black_initial_position() {
            Some(PieceColor::White)
        } else {
            if turns_count > STALLING_LIMIT {
                if (self.0[0].0 & PositionMask::black_initial_position().0) != 0 {
                    Some(PieceColor::White)
                } else if (self.0[1].0 & PositionMask::white_initial_position().0) != 0 {
                    Some(PieceColor::Black)
                } else {
                    None
                }
            } else {
                None
            }
        }
    }

    /// The cells that either side occupies.
    pub fn all_pieces_mask(self) -> (all: PositionMask)
        ensures
            all == self.all_pieces(),
            forall|p: Position| all.contains(p) == self.occupied(p),
    {
        proof {
            self.lemma_all_pieces();
        }
        PositionMask(self.0[0].0 | self.0[1].0)
    }

    /// Whether no cell holds two pieces and each side has nine.
    pub fn is_valid_position(self) -> (valid: bool)
        ensures
            valid == self.valid(),
    {
        proof {
            self.lemma_disjoint();
        }
        self.0[0].0 & self.0[1].0 == 0 && self.0[0].count() == 9 && self.0[1].count() == 9
    }

    /// Whether `turn` takes a piece of `player_color` to an empty cell other than its
    /// own. The way between the two cells is not looked at.
    pub fn is_valid_turn(self, turn: Turn, player_color: PieceColor) -> (valid: bool)
        requires
            turn.from.on_board(),
            turn.to.on_board(),
        ensures
            valid == self.admits(turn, player_color),
    {
        self.side(player_color).has_piece_at(turn.from) && !self.all_pieces_mask().has_piece_at(
            turn.to,
        ) && turn.from != turn.to
    }

    /// The position after `player_color` has played `turn`: the piece leaves its cell
    /// and stands on the destination; nothing else moves.
    pub fn perform_turn(self, turn: Turn, player_color: PieceColor) -> (next: BoardPosition)
        requires
            self.valid(),
            self.admits(turn, player_color),
        ensures
            next == self.after(turn, player_color),
            next.valid(),
            next.pieces(player_color)@ == self.pieces(player_color)@.remove(turn.from).insert(
                turn.to,
            ),
            next.pieces(player_color.other()) == self.pieces(player_color.other()),
    {
        proof {
            self.lemma_after_valid(turn, player_color);
        }
        let mut moved = self.side(player_color);
        moved.remove_position(turn.from);
        moved.add_position(turn.to);
        match player_color {
            PieceColor::Black => BoardPosition([moved, self.0[1]]),
            PieceColor::White => BoardPosition([self.0[0], moved]),
        }
    }

    /// The starting layout is valid, and nobody has won it before the stalling
    /// limit.
    pub proof fn lemma_start()
        ensures
            Self::start().valid(),
            forall|turns_count: nat|
                turns_count <= STALLING_LIMIT ==> Self::start().winner_after(turns_count).is_none(),
    {
        PositionMask::lemma_home_sizes();
        let black = crate::mask::BLACK_INITIAL_BITS;
        let white = crate::mask::WHITE_INITIAL_BITS;
        assert(black != white);
    }

    /// Two positions are equal exactly when both masks are.
    pub proof fn lemma_same_masks(self, other: BoardPosition)
        ensures
            vstd::std_specs::cmp::PartialEqSpec::eq_spec(&self, &other) == (self == other),
    {
        if self.0[0] == other.0[0] && self.0[1] == other.0[1] {
            assert(self.0 =~= other.0);
        }
    }

    /// A cell is in the union mask exactly when a piece stands on it.
    pub proof fn lemma_all_pieces(self)
        ensures
            forall|p: Position| #[trigger] self.all_pieces().contains(p) == self.occupied(p),
    {
        assert forall|p: Position| #[trigger] self.all_pieces().contains(p) == self.occupied(
            p,
        ) by {
            if p.on_board() {
                crate::mask::lemma_bits(self.0[0].0, self.0[1].0, 0, p.0 as u64);
            }
        }
    }

    /// The two masks share no bit exactly when the two sets share no cell.
    pub proof fn lemma_disjoint(self)
        ensures
            (self.0[0].0 & self.0[1].0 == 0) == self.0[0]@.disjoint(self.0[1]@),
    {
        let a = self.0[0].0;
        let b = self.0[1].0;
        if a & b == 0 {
            assert forall|p: Position| !(self.0[0].contains(p) && self.0[1].contains(p)) by {
                if p.on_board() {
                    crate::mask::lemma_bits(a, b, 0, p.0 as u64);
                }
            }
        } else {
            let i = crate::mask::lemma_some_bit(a & b);
            let p = Position(i as u8);
            crate::mask::lemma_bits(a, b, 0, i);
            assert(self.0[0]@.contains(p) && self.0[1]@.contains(p));
        }
    }

    /// Playing an admitted turn on a valid position gives a valid position: the
    /// mover's piece changes its cell and nothing else moves.
    pub proof fn lemma_after_valid(self, turn: Turn, player: PieceColor)
        requires
            self.valid(),
            self.admits(turn, player),
        ensures
            self.after(turn, player).valid(),
            self.after(turn, player).pieces(player)@ == self.pieces(player)@.remove(
                turn.from,
            ).insert(turn.to),
            self.after(turn, player).pieces(player.other()) == self.pieces(player.other()),
    {
        let own = self.pieces(player);
        own.lemma_without(turn.from);
        own.without(turn.from).lemma_with(turn.to);
        own.lemma_finite();
        let next = self.after(turn, player);
        assert(next.pieces(player)@ == own@.remove(turn.from).insert(turn.to));
        assert(own@.contains(turn.from));
        assert(!own@.remove(turn.from).contains(turn.to));
        assert(!self.pieces(player.other())@.contains(turn.to));
    }
}

impl Default for BoardPosition {
    fn default() -> (board: BoardPosition)
        ensures
            board == BoardPosition::start(),
            board.valid(),
    {
        proof {
            BoardPosition::lemma_start();
        }
        BoardPosition(
            [PositionMask::black_initial_position(), PositionMask::white_initial_position()],
        )
    }
}

} // verus!
