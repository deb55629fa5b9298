use crate::color::PieceColor;
use crate::coordinate::Position;
use vstd::prelude::*;

verus! {

/// A set of board cells: bit `i` is set when cell `i` is in the set.
#[derive(Debug, Copy, Clone, PartialEq, Eq, Structural, PartialOrd, Ord, Default, Hash)]
pub struct PositionMask(pub u64);

/// The bits of White's home corner.
pub const WHITE_INITIAL_BITS: u64 = 0x0007_0707;

/// The bits of Black's home corner.
pub const BLACK_INITIAL_BITS: u64 = 0xE0E0_E000_0000_0000;

/// Bit `i` of `m` is set.
pub open spec fn bit_set(m: u64, i: u64) -> bool {
    (m >> i) & 1 == 1
}

/// How the bitwise operations act on single bits.
pub proof fn lemma_bits(a: u64, b: u64, p: u64, i: u64)
    by (bit_vector)
    requires
        p < 64,
        i < 64,
    ensures
        bit_set(a | b, i) == (bit_set(a, i) || bit_set(b, i)),
        bit_set(a & b, i) == (bit_set(a, i) && bit_set(b, i)),
        bit_set(!a, i) == !bit_set(a, i),
        bit_set(1u64 << p, i) == (i == p),
        !bit_set(0u64, i),
{
}

/// A mask other than zero has a bit set.
pub proof fn lemma_some_bit(m: u64) -> (i: u64)
    requires
        m != 0,
    ensures
        i < 64,
        bit_set(m, i),
{
    vstd::std_specs::bits::axiom_u64_trailing_zeros(m);
    vstd::std_specs::bits::u64_trailing_zeros(m) as u64
}

/// Two masks that differ differ in some bit.
pub proof fn lemma_differing_bit(a: u64, b: u64) -> (i: u64)
    requires
        a != b,
    ensures
        i < 64,
        bit_set(a, i) != bit_set(b, i),
{
    assert(a != b ==> a ^ b != 0) by (bit_vector);
    let i = lemma_some_bit(a ^ b);
    assert(i < 64 ==> (bit_set(a ^ b, i) == (bit_set(a, i) != bit_set(b, i)))) by (bit_vector);
    i
}

/// The cells below index `n` that satisfy `pred`, in ascending order.
pub open spec fn cells_where(pred: spec_fn(Position) -> bool, n: nat) -> Seq<Position>
    decreases n,
{
    if n == 0 {
        Seq::empty()
    } else {
        let rest = cells_where(pred, (n - 1) as nat);
        let p = Position((n - 1) as u8);
        if pred(p) {
            rest.push(p)
        } else {
            rest
        }
    }
}

/// `cells_where` lists exactly the cells below `n` that satisfy `pred`, each once, ascending.
pub proof fn lemma_cells_where(pred: spec_fn(Position) -> bool, n: nat)
    requires
        n <= 64,
    ensures
        cells_where(pred, n).len() <= n,
        forall|k: int|
            0 <= k < cells_where(pred, n).len() ==> (#[trigger] cells_where(pred, n)[k]).0 < n
                && pred(cells_where(pred, n)[k]),
        forall|j: int, k: int|
            0 <= j < k < cells_where(pred, n).len() ==> (#[trigger] cells_where(pred, n)[j]).0 < (
            #[trigger] cells_where(pred, n)[k]).0,
        forall|p: Position| p.0 < n && pred(p) ==> #[trigger] cells_where(pred, n).contains(p),
    decreases n,
{
    if n > 0 {
        let rest = cells_where(pred, (n - 1) as nat);
        let last = Position((n - 1) as u8);
        lemma_cells_where(pred, (n - 1) as nat);
        let all = cells_where(pred, n);
        assert forall|p: Position| p.0 < n && pred(p) implies #[trigger] all.contains(p) by {
            if p.0 < n - 1 {
                assert(rest.contains(p));
                let k = choose|k: int| 0 <= k < rest.len() && rest[k] == p;
                assert(all[k] == p);
            } else {
                assert(p == last);
                assert(all[all.len() - 1] == p);
            }
        }
    }
}

/// Two predicates that agree on every cell list the same cells.
pub proof fn lemma_cells_where_agree(
    f: spec_fn(Position) -> bool,
    g: spec_fn(Position) -> bool,
    n: nat,
)
    requires
        n <= 64,
        forall|p: Position| p.0 < n ==> #[trigger] f(p) == g(p),
    ensures
        cells_where(f, n) == cells_where(g, n),
    decreases n,
{
    if n > 0 {
        lemma_cells_where_agree(f, g, (n - 1) as nat);
        let last = Position((n - 1) as u8);
        assert(f(last) == g(last));
    }
}

impl View for PositionMask {
    type V = Set<Position>;

    open spec fn view(&self) -> Set<Position> {
        Set::new(|p: Position| self.contains(p))
    }
}

impl PositionMask {
    /// White's home corner: the nine cells in columns and rows 0 to 2.
    pub open spec fn white_home() -> PositionMask {
        PositionMask(WHITE_INITIAL_BITS)
    }

    /// Black's home corner: the nine cells in columns and rows 5 to 7.
    pub open spec fn black_home() -> PositionMask {
        PositionMask(BLACK_INITIAL_BITS)
    }

    /// The home corner of `color`.
    pub open spec fn home(color: PieceColor) -> PositionMask {
        match color {
            PieceColor::Black => Self::black_home(),
            PieceColor::White => Self::white_home(),
        }
    }

    /// White's home corner.
    pub fn white_initial_position() -> (home: PositionMask)
        ensures
            home == Self::white_home(),
    {
        PositionMask(WHITE_INITIAL_BITS)
    }

    /// Black's home corner.
    pub fn black_initial_position() -> (home: PositionMask)
        ensures
            home == Self::black_home(),
    {
        PositionMask(BLACK_INITIAL_BITS)
    }

    /// The cells a side starts on.
    pub fn initial_position(color: PieceColor) -> (home: PositionMask)
        ensures
            home == Self::home(color),
    {
        match color {
            PieceColor::Black => Self::black_initial_position(),
            PieceColor::White => Self::white_initial_position(),
        }
    }

    /// The cell `pos` is in the set.
    pub open spec fn contains(self, pos: Position) -> bool {
        pos.on_board() && bit_set(self.0, pos.0 as u64)
    }

    /// The set with `pos` added.
    pub open spec fn with(self, pos: Position) -> PositionMask {
        PositionMask(self.0 | (1u64 << (pos.0 as u64)))
    }

    /// The set with `pos` taken out.
    pub open spec fn without(self, pos: Position) -> PositionMask {
        PositionMask(self.0 & !(1u64 << (pos.0 as u64)))
    }

    /// The two sets share a cell.
    pub open spec fn overlaps(self, other: PositionMask) -> bool {
        self.0 & other.0 != 0
    }

    /// The cells of the set in ascending order.
    pub open spec fn cells(self) -> Seq<Position> {
        cells_where(|p: Position| self.contains(p), 64)
    }

    /// The cells of the set below index `n`.
    pub open spec fn below(self, n: nat) -> Set<Position> {
        Set::new(|p: Position| p.0 < n && self.contains(p))
    }

    /// Adds `pos` to the set.
    pub fn add_position(&mut self, pos: Position)
        requires
            pos.on_board(),
        ensures
            *final(self) == old(self).with(pos),
            final(self)@ == old(self)@.insert(pos),
    {
        proof {
            self.lemma_with(pos);
        }
        self.0 |= 1u64 << (pos.0 as u64);
    }

    /// Takes `pos` out of the set.
    pub fn remove_position(&mut self, pos: Position)
        requires
            pos.on_board(),
        ensures
            *final(self) == old(self).without(pos),
            final(self)@ == old(self)@.remove(pos),
    {
        proof {
            self.lemma_without(pos);
        }
        self.0 &= !(1u64 << (pos.0 as u64));
    }

    /// Whether `pos` is in the set.
    pub fn has_piece_at(self, pos: Position) -> (has: bool)
        requires
            pos.on_board(),
        ensures
            has == self.contains(pos),
            has == self@.contains(pos),
    {
        let shifted: u64 = self.0 >> (pos.0 as u64);
        assert((shifted & 1 != 0) == (shifted & 1 == 1)) by (bit_vector);
        shifted & 1 != 0
    }

    /// The cells of the set, in ascending order of their index.
    pub fn positions_iter(self) -> (cells: Vec<Position>)
        ensures
            cells@ == self.cells(),
            cells@.len() == self@.len(),
            forall|k: int| 0 <= k < cells@.len() ==> self.contains(#[trigger] cells@[k]),
            forall|j: int, k: int|
                0 <= j < k < cells@.len() ==> (#[trigger] cells@[j]).0 < (#[trigger] cells@[k]).0,
            forall|p: Position| self.contains(p) ==> cells@.contains(p),
    {
        let mut cells: Vec<Position> = Vec::new();
        let mut i: u8 = 0;
        let ghost pred = |p: Position| self.contains(p);
        proof {
            assert(self.below(0) =~= Set::<Position>::empty());
        }
        while i < 64
            invariant
                i <= 64,
                pred == |p: Position| self.contains(p),
                cells@ == cells_where(pred, i as nat),
                self.below(i as nat).finite(),
                cells@.len() == self.below(i as nat).len(),
            decreases 64 - i,
        {
            let pos = Position(i);
            proof {
                if self.contains(pos) {
                    assert(self.below((i + 1) as nat) =~= self.below(i as nat).insert(pos));
                } else {
                    assert(self.below((i + 1) as nat) =~= self.below(i as nat));
                }
            }
            if self.has_piece_at(pos) {
                cells.push(pos);
            }
            i += 1;
        }
        proof {
            lemma_cells_where(pred, 64);
            assert(self.below(64) =~= self@);
        }
        cells
    }

    /// Number of cells in the set.
    pub fn count(self) -> (n: u32)
        ensures
            n == self@.len(),
            n <= 64,
    {
        let mut n: u32 = 0;
        let mut i: u8 = 0;
        proof {
            assert(self.below(0) =~= Set::<Position>::empty());
        }
        while i < 64
            invariant
                i <= 64,
                n <= i,
                self.below(i as nat).finite(),
                n == self.below(i as nat).len(),
            decreases 64 - i,
        {
            let pos = Position(i);
            proof {
                if self.contains(pos) {
                    assert(self.below((i + 1) as nat) =~= self.below(i as nat).insert(pos));
                } else {
                    assert(self.below((i + 1) as nat) =~= self.below(i as nat));
                }
            }
            if self.has_piece_at(pos) {
                n += 1;
            }
            i += 1;
        }
        proof {
            assert(self.below(64) =~= self@);
        }
        n
    }

    /// Which cells the two home corners hold.
    pub proof fn lemma_home_cells(p: Position)
        ensures
            Self::white_home().contains(p) == (p.on_board() && p.x() < 3 && p.y() < 3),
            Self::black_home().contains(p) == (p.on_board() && p.x() >= 5 && p.y() >= 5),
    {
        let i: u64 = p.0 as u64;
        assert(i < 64 ==> (bit_set(0x0007_0707u64, i) == (i % 8 < 3 && i / 8 < 3)) && (bit_set(
            0xE0E0_E000_0000_0000u64,
            i,
        ) == (i % 8 >= 5 && i / 8 >= 5))) by (bit_vector);
    }

    /// Each home corner holds nine cells, and the two share none.
    pub proof fn lemma_home_sizes()
        ensures
            Self::white_home()@.len() == 9,
            Self::black_home()@.len() == 9,
            Self::white_home()@.disjoint(Self::black_home()@),
    {
        let white = Self::white_home()@;
        let black = Self::black_home()@;
        let low = set![
            Position(0),
            Position(1),
            Position(2),
            Position(8),
            Position(9),
            Position(10),
            Position(16),
            Position(17),
            Position(18),
        ];
        let high = set![
            Position(45),
            Position(46),
            Position(47),
            Position(53),
            Position(54),
            Position(55),
            Position(61),
            Position(62),
            Position(63),
        ];
        assert forall|p: Position| white.contains(p) == low.contains(p) by {
            Self::lemma_home_cells(p);
        }
        assert forall|p: Position| black.contains(p) == high.contains(p) by {
            Self::lemma_home_cells(p);
        }
        assert(white =~= low);
        assert(black =~= high);
        assert(low.len() == 9);
        assert(high.len() == 9);
    }

    /// Adding a cell to the mask inserts it into the set.
    pub proof fn lemma_with(self, pos: Position)
        requires
            pos.on_board(),
        ensures
            forall|q: Position| #[trigger] self.with(pos).contains(q) == (q == pos || self.contains(q)),
            forall|q: Position| #[trigger] self.contains(q) ==> self.with(pos).contains(q),
            self.with(pos).contains(pos),
            self.with(pos)@ == self@.insert(pos),
    {
        assert forall|q: Position| #[trigger]
            self.with(pos).contains(q) == (q == pos || self.contains(q)) by {
            if q.on_board() {
                lemma_bits(self.0, 1u64 << (pos.0 as u64), pos.0 as u64, q.0 as u64);
            }
        }
        assert(self.with(pos)@ =~= self@.insert(pos));
    }

    /// Clearing a cell of the mask removes it from the set.
    pub proof fn lemma_without(self, pos: Position)
        requires
            pos.on_board(),
        ensures
            forall|q: Position| #[trigger]
                self.without(pos).contains(q) == (q != pos && self.contains(q)),
            self.without(pos)@ == self@.remove(pos),
    {
        assert forall|q: Position| #[trigger]
            self.without(pos).contains(q) == (q != pos && self.contains(q)) by {
            if q.on_board() {
                lemma_bits(1u64 << (pos.0 as u64), 0, pos.0 as u64, q.0 as u64);
                lemma_bits(self.0, !(1u64 << (pos.0 as u64)), pos.0 as u64, q.0 as u64);
            }
        }
        assert(self.without(pos)@ =~= self@.remove(pos));
    }

    /// The empty mask holds no cell.
    pub proof fn lemma_empty()
        ensures
            forall|p: Position| !(#[trigger] PositionMask(0).contains(p)),
            PositionMask(0)@ == Set::<Position>::empty(),
    {
        assert forall|p: Position| !(#[trigger] PositionMask(0).contains(p)) by {
            if p.on_board() {
                lemma_bits(0, 0, 0, p.0 as u64);
            }
        }
        assert(PositionMask(0)@ =~= Set::<Position>::empty());
    }

    /// Two masks that hold the same cells are the same mask.
    pub proof fn lemma_same_cells(self, other: PositionMask)
        requires
            forall|p: Position| self.contains(p) == other.contains(p),
        ensures
            self == other,
    {
        if self.0 != other.0 {
            let i = lemma_differing_bit(self.0, other.0);
            let p = Position(i as u8);
            assert(self.contains(p) != other.contains(p));
        }
    }

    /// Two masks share a bit exactly when the two sets share a cell.
    pub proof fn lemma_overlaps(self, other: PositionMask)
        ensures
            self.overlaps(other) <==> exists|p: Position|
                #[trigger] self.contains(p) && other.contains(p),
    {
        if self.overlaps(other) {
            let i = lemma_some_bit(self.0 & other.0);
            let p = Position(i as u8);
            lemma_bits(self.0, other.0, 0, i);
            assert(self.contains(p) && other.contains(p));
        } else {
            assert forall|p: Position| !(#[trigger] self.contains(p) && other.contains(p)) by {
                if p.on_board() {
                    lemma_bits(self.0, other.0, 0, p.0 as u64);
                }
            }
        }
    }

    /// A mask holds finitely many cells, at most 64.
    pub proof fn lemma_finite(self)
        ensures
            self@.finite(),
            self@.len() <= 64,
            self@.len() == self.cells().len(),
    {
        self.lemma_below(64);
        assert(self.below(64) =~= self@);
    }

    /// The cells below `n` are as many as `cells_where` lists.
    pub proof fn lemma_below(self, n: nat)
        requires
            n <= 64,
        ensures
            self.below(n).finite(),
            self.below(n).len() == cells_where(|p: Position| self.contains(p), n).len(),
            self.below(n).len() <= n,
        decreases n,
    {
        if n == 0 {
            assert(self.below(0) =~= Set::<Position>::empty());
        } else {
            self.lemma_below((n - 1) as nat);
            let pos = Position((n - 1) as u8);
            if self.contains(pos) {
                assert(self.below(n) =~= self.below((n - 1) as nat).insert(pos));
            } else {
                assert(self.below(n) =~= self.below((n - 1) as nat));
            }
        }
    }
}

} // verus!
