use vstd::prelude::*;

verus! {

/// One cell of the 8x8 board, packed as `x + 8 * y`.
#[derive(Debug, Copy, Clone, PartialEq, Eq, Structural, PartialOrd, Ord, Default, Hash)]
pub struct Position(pub u8);

/// The four orthogonal directions a piece can step or jump in.
#[derive(Debug, Copy, Clone, PartialEq, Eq, Structural, Hash)]
pub enum Direction {
    Up,
    Left,
    Down,
    Right,
}

impl Position {
    /// The cell lies on the board.
    pub open spec fn on_board(self) -> bool {
        self.0 < 64
    }

    /// Column of the cell.
    pub open spec fn x(self) -> int {
        self.0 as int % 8
    }

    /// Row of the cell.
    pub open spec fn y(self) -> int {
        self.0 as int / 8
    }

    /// The cell in column `x` of row `y`.
    pub open spec fn at(x: int, y: int) -> Position {
        Position((x + 8 * y) as u8)
    }

    /// The neighbouring cell in direction `d`, if the board has one.
    pub open spec fn step(self, d: Direction) -> Option<Position> {
        match d {
            Direction::Up => if self.y() > 0 {
                Some(Position((self.0 - 8) as u8))
            } else {
                None
            },
            Direction::Down => if self.y() < 7 {
                Some(Position((self.0 + 8) as u8))
            } else {
                None
            },
            Direction::Left => if self.x() > 0 {
                Some(Position((self.0 - 1) as u8))
            } else {
                None
            },
            Direction::Right => if self.x() < 7 {
                Some(Position((self.0 + 1) as u8))
            } else {
                None
            },
        }
    }

    /// The cell in column `x` of row `y`.
    pub fn from_xy(x: u8, y: u8) -> (pos: Position)
        ensures
            pos.0 == x | (y << 3u8),
            x < 8 && y < 8 ==> pos == Position::at(x as int, y as int) && pos.on_board() && pos.x()
                == x && pos.y() == y,
    {
        assert(x < 8 && y < 8 ==> (x | (y << 3u8)) == x + 8 * y) by (bit_vector);
        Position(x | y << 3u8)
    }

    /// The column of the cell.
    pub fn get_x(self) -> (x: u8)
        ensures
            x == self.x(),
    {
        let v: u8 = self.0;
        assert(v & 7 == v % 8) by (bit_vector);
        self.0 & 7
    }

    /// The row of the cell.
    pub fn get_y(self) -> (y: u8)
        ensures
            y == self.y(),
    {
        let v: u8 = self.0;
        assert(v >> 3u8 == v / 8) by (bit_vector);
        self.0 >> 3u8
    }

    /// The cell one row up, towards row 0, if there is one.
    pub fn one_up(self) -> (next: Option<Position>)
        ensures
            next == self.step(Direction::Up),
    {
        if self.0 > 7 {
            Some(Position(self.0 - 8))
        } else {
            None
        }
    }

    /// The cell one row down, towards row 7, if there is one.
    pub fn one_down(self) -> (next: Option<Position>)
        ensures
            next == self.step(Direction::Down),
    {
        if self.0 < 56 {
            Some(Position(self.0 + 8))
        } else {
            None
        }
    }

    /// The cell one column to the left, towards column 0, if there is one.
    pub fn one_left(self) -> (next: Option<Position>)
        ensures
            next == self.step(Direction::Left),
    {
        let v: u8 = self.0;
        assert(v & 7 == v % 8) by (bit_vector);
        if self.0 & 7 != 0 {
            Some(Position(self.0 - 1))
        } else {
            None
        }
    }

    /// The cell one column to the right, towards column 7, if there is one.
    pub fn one_right(self) -> (next: Option<Position>)
        ensures
            next == self.step(Direction::Right),
    {
        let v: u8 = self.0;
        assert(v & 7 == v % 8) by (bit_vector);
        if self.0 & 7 != 7 {
            Some(Position(self.0 + 1))
        } else {
            None
        }
    }

    /// The neighbour in direction `d`, by the matching one of the four.
    pub fn neighbour(self, d: Direction) -> (next: Option<Position>)
        ensures
            next == self.step(d),
    {
        match d {
            Direction::Up => self.one_up(),
            Direction::Left => self.one_left(),
            Direction::Down => self.one_down(),
            Direction::Right => self.one_right(),
        }
    }

    /// Packing a column and a row and reading them back returns both unchanged.
    pub proof fn lemma_xy_round_trip(x: int, y: int)
        requires
            0 <= x < 8,
            0 <= y < 8,
        ensures
            Position::at(x, y).on_board(),
            Position::at(x, y).x() == x,
            Position::at(x, y).y() == y,
    {
    }

    /// A cell on the board is the one at its own column and row.
    pub proof fn lemma_at_own_xy(self)
        requires
            self.on_board(),
        ensures
            Position::at(self.x(), self.y()) == self,
            0 <= self.x() < 8,
            0 <= self.y() < 8,
    {
    }

    /// A step from a cell on the board stays on it and moves by one along one axis.
    pub proof fn lemma_step(self, d: Direction)
        requires
            self.on_board(),
        ensures
            match self.step(d) {
                Some(q) => q.on_board() && q != self && match d {
                    Direction::Up => q.x() == self.x() && q.y() == self.y() - 1,
                    Direction::Down => q.x() == self.x() && q.y() == self.y() + 1,
                    Direction::Left => q.x() == self.x() - 1 && q.y() == self.y(),
                    Direction::Right => q.x() == self.x() + 1 && q.y() == self.y(),
                },
                None => match d {
                    Direction::Up => self.y() == 0,
                    Direction::Down => self.y() == 7,
                    Direction::Left => self.x() == 0,
                    Direction::Right => self.x() == 7,
                },
            },
    {
    }
}

} // verus!
