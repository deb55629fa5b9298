use crate::board::BoardPosition;
use crate::color::PieceColor;
use crate::coordinate::Position;
use crate::outcome::EvaluationResult;
use vstd::prelude::*;
use vstd::string::StringExecFns;

verus! {

/// The character of one decimal digit.
pub open spec fn digit_text(d: int) -> Seq<char> {
    if d == 0 {
        "0"@
    } else if d == 1 {
        "1"@
    } else if d == 2 {
        "2"@
    } else if d == 3 {
        "3"@
    } else if d == 4 {
        "4"@
    } else if d == 5 {
        "5"@
    } else if d == 6 {
        "6"@
    } else if d == 7 {
        "7"@
    } else if d == 8 {
        "8"@
    } else {
        "9"@
    }
}

/// A natural number in decimal digits, without leading zeros.
pub open spec fn decimal(n: nat) -> Seq<char>
    decreases n,
{
    if n < 10 {
        digit_text(n as int)
    } else {
        decimal(n / 10) + digit_text((n % 10) as int)
    }
}

/// An integer in decimal digits, with a minus sign where it is negative.
pub open spec fn signed_decimal(n: int) -> Seq<char> {
    if n < 0 {
        "-"@ + decimal((-n) as nat)
    } else {
        decimal(n as nat)
    }
}

/// What stands on a cell in the picture of a board: `B` for a black piece, `W`
/// for a white one, a dot for none.
pub open spec fn cell_text(board: BoardPosition, pos: Position) -> Seq<char> {
    if board.0[0].contains(pos) {
        "B"@
    } else if board.0[1].contains(pos) {
        "W"@
    } else {
        "."@
    }
}

/// The picture of the first `n` cells of a board, row by row, each full row ended
/// by a line feed.
pub open spec fn cells_text(board: BoardPosition, n: nat) -> Seq<char>
    decreases n,
{
    if n == 0 {
        Seq::empty()
    } else {
        let cell = cells_text(board, (n - 1) as nat) + cell_text(board, Position((n - 1) as u8));
        if n % 8 == 0 {
            cell + "\n"@
        } else {
            cell
        }
    }
}

/// Appends one decimal digit.
fn append_digit(text: &mut String, d: u32)
    requires
        d < 10,
    ensures
        final(text)@ == old(text)@ + digit_text(d as int),
{
    if d == 0 {
        text.append("0");
    } else if d == 1 {
        text.append("1");
    } else if d == 2 {
        text.append("2");
    } else if d == 3 {
        text.append("3");
    } else if d == 4 {
        text.append("4");
    } else if d == 5 {
        text.append("5");
    } else if d == 6 {
        text.append("6");
    } else if d == 7 {
        text.append("7");
    } else if d == 8 {
        text.append("8");
    } else {
        text.append("9");
    }
}

/// Appends a natural number in decimal digits.
fn append_decimal(text: &mut String, n: u32)
    ensures
        final(text)@ == old(text)@ + decimal(n as nat),
    decreases n,
{
    if n >= 10 {
        append_decimal(text, n / 10);
        append_digit(text, n % 10);
        proof {
            assert(text@ =~= old(text)@ + (decimal((n / 10) as nat) + digit_text((n % 10) as int)));
        }
    } else {
        append_digit(text, n);
    }
}

/// Appends an integer in decimal digits.
pub fn append_number(text: &mut String, n: i32)
    ensures
        final(text)@ == old(text)@ + signed_decimal(n as int),
{
    if n < 0 {
        text.append("-");
        let magnitude: u32 = (-(n as i64)) as u32;
        append_decimal(text, magnitude);
        proof {
            assert(text@ =~= old(text)@ + ("-"@ + decimal((-n) as nat)));
        }
    } else {
        append_decimal(text, n as u32);
    }
}

impl PieceColor {
    /// The name of the side.
    pub open spec fn name(self) -> Seq<char> {
        match self {
            PieceColor::Black => "Black"@,
            PieceColor::White => "White"@,
        }
    }

    /// The name of the side: `Black` or `White`.
    pub fn to_text(self) -> (text: String)
        ensures
            text@ == self.name(),
    {
        match self {
            PieceColor::Black => String::from_str("Black"),
            PieceColor::White => String::from_str("White"),
        }
    }
}

impl EvaluationResult {
    /// The result in words: the estimate as a number, a decided result with its
    /// distance in turns.
    pub open spec fn wording(self) -> Seq<char> {
        match self {
            EvaluationResult::Defeat { in_steps } => "defeat in "@ + signed_decimal(in_steps as int)
                + " turns"@,
            EvaluationResult::Victory { in_steps } => "victory in "@ + signed_decimal(
                in_steps as int,
            ) + " turns"@,
            EvaluationResult::InBetween { score } => signed_decimal(score as int),
        }
    }

    /// The result in words.
    pub fn to_text(self) -> (text: String)
        ensures
            text@ == self.wording(),
    {
        match self {
            EvaluationResult::Defeat { in_steps } => {
                let mut text = String::from_str("defeat in ");
                append_number(&mut text, in_steps);
                text.append(" turns");
                text
            },
            EvaluationResult::Victory { in_steps } => {
                let mut text = String::from_str("victory in ");
                append_number(&mut text, in_steps);
                text.append(" turns");
                text
            },
            EvaluationResult::InBetween { score } => {
                let mut text = String::new();
                append_number(&mut text, score);
                proof {
                    assert(text@ =~= signed_decimal(score as int));
                }
                text
            },
        }
    }
}

impl BoardPosition {
    /// The picture of the board: eight lines of eight characters.
    pub open spec fn picture(self) -> Seq<char> {
        cells_text(self, 64)
    }

    /// The picture of the board, row 0 first.
    pub fn to_text(self) -> (text: String)
        ensures
            text@ == self.picture(),
    {
        let mut text = String::new();
        let mut iy: u8 = 0;
        while iy < 8
            invariant
                iy <= 8,
                text@ == cells_text(self, (8 * iy) as nat),
            decreases 8 - iy,
        {
            let mut ix: u8 = 0;
            while ix < 8
                invariant
                    iy < 8,
                    ix <= 8,
                    text@ == if ix == 8 {
                        cells_text(self, (8 * iy + 7) as nat) + cell_text(
                            self,
                            Position((8 * iy + 7) as u8),
                        )
                    } else {
                        cells_text(self, (8 * iy + ix) as nat)
                    },
                decreases 8 - ix,
            {
                let pos = Position::from_xy(ix, iy);
                let ghost before = text@;
                if self.0[0].has_piece_at(pos) {
                    text.append("B");
                } else if self.0[1].has_piece_at(pos) {
                    text.append("W");
                } else {
                    text.append(".");
                }
                proof {
                    assert(text@ == before + cell_text(self, pos));
                    assert(pos == Position((8 * iy + ix) as u8));
                    if ix < 7 {
                        assert((8 * iy + ix + 1) % 8 != 0);
                    }
                }
                ix += 1;
            }
            text.append("\n");
            proof {
                assert((8 * iy + 8) % 8 == 0);
            }
            iy += 1;
        }
        text
    }
}

} // verus!
