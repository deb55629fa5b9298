use vstd::prelude::*;

verus! {

/// The two sides. Black starts in the high corner, White in the low one.
#[derive(Debug, Copy, Clone, PartialEq, Eq, Structural, PartialOrd, Ord, Hash)]
pub enum PieceColor {
    Black,
    White,
}

impl PieceColor {
    /// The other side.
    pub open spec fn other(self) -> PieceColor {
        match self {
            PieceColor::Black => PieceColor::White,
            PieceColor::White => PieceColor::Black,
        }
    }

    /// Where this side's pieces stand in a board's pair of masks.
    pub open spec fn slot(self) -> int {
        match self {
            PieceColor::Black => 0,
            PieceColor::White => 1,
        }
    }

    /// The other side.
    pub fn opposite(self) -> (other: PieceColor)
        ensures
            other == self.other(),
    {
        match self {
            PieceColor::Black => PieceColor::White,
            PieceColor::White => PieceColor::Black,
        }
    }

    /// Index of this side's mask in a board.
    pub fn index(self) -> (i: usize)
        ensures
            i == self.slot(),
    {
        match self {
            PieceColor::Black => 0,
            PieceColor::White => 1,
        }
    }

    /// Taking the other side twice gives the side back.
    pub proof fn lemma_other_involution(self)
        ensures
            self.other().other() == self,
            self.other() != self,
    {
    }
}

} // verus!
