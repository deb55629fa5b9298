use crate::board::BoardPosition;
use crate::color::PieceColor;
use crate::coordinate::{Direction, Position};
use crate::mask::{cells_where, lemma_bits, lemma_cells_where, PositionMask};
use crate::turn::Turn;
use vstd::prelude::*;

verus! {

impl Direction {
    /// The next direction, a quarter turn on: up, left, down, right, and up again.
    pub open spec fn turned(self) -> Direction {
        match self {
            Direction::Up => Direction::Left,
            Direction::Left => Direction::Down,
            Direction::Down => Direction::Right,
            Direction::Right => Direction::Up,
        }
    }

    /// The direction a quarter turn on.
    pub fn turn(self) -> (next: Direction)
        ensures
            next == self.turned(),
    {
        match self {
            Direction::Up => Direction::Left,
            Direction::Left => Direction::Down,
            Direction::Down => Direction::Right,
            Direction::Right => Direction::Up,
        }
    }
}

/// Where a single step from `from` in direction `d` ends, given the occupied cells
/// `occ`: on the neighbouring cell, if the board has it and it is empty.
pub open spec fn step_target(occ: PositionMask, from: Position, d: Direction) -> Option<Position> {
    match from.step(d) {
        Some(to) => if !occ.contains(to) {
            Some(to)
        } else {
            None
        },
        None => None,
    }
}

/// Where a single jump from `from` in direction `d` ends: two cells on, if the cell
/// between is occupied and the landing cell is on the board and empty.
pub open spec fn jump_target(occ: PositionMask, from: Position, d: Direction) -> Option<Position> {
    match from.step(d) {
        Some(mid) => match mid.step(d) {
            Some(to) => if occ.contains(mid) && !occ.contains(to) {
                Some(to)
            } else {
                None
            },
            None => None,
        },
        None => None,
    }
}

/// One step takes a piece from `from` to `to`.
pub open spec fn is_step(occ: PositionMask, from: Position, to: Position) -> bool {
    ||| step_target(occ, from, Direction::Up) == Some(to)
    ||| step_target(occ, from, Direction::Left) == Some(to)
    ||| step_target(occ, from, Direction::Down) == Some(to)
    ||| step_target(occ, from, Direction::Right) == Some(to)
}

/// One jump takes a piece from `from` to `to`.
pub open spec fn is_jump(occ: PositionMask, from: Position, to: Position) -> bool {
    ||| jump_target(occ, from, Direction::Up) == Some(to)
    ||| jump_target(occ, from, Direction::Left) == Some(to)
    ||| jump_target(occ, from, Direction::Down) == Some(to)
    ||| jump_target(occ, from, Direction::Right) == Some(to)
}

/// `path` is a chain of one or more jumps, each starting where the last one landed.
pub open spec fn is_jump_chain(occ: PositionMask, path: Seq<Position>) -> bool {
    &&& path.len() >= 2
    &&& forall|i: int| 0 <= i < path.len() - 1 ==> is_jump(occ, #[trigger] path[i], path[i + 1])
}

/// Some chain of jumps leads from `from` to `to`.
pub open spec fn jump_reachable(occ: PositionMask, from: Position, to: Position) -> bool {
    exists|path: Seq<Position>|
        #[trigger] is_jump_chain(occ, path) && path.first() == from && path.last() == to
}

/// A piece on `from` can end its move on `to`: by one step or by a chain of jumps.
pub open spec fn can_reach(occ: PositionMask, from: Position, to: Position) -> bool {
    is_step(occ, from, to) || jump_reachable(occ, from, to)
}

/// Every cell of `smaller` is in `bigger`.
pub open spec fn covers(bigger: PositionMask, smaller: PositionMask) -> bool {
    forall|p: Position| #[trigger] smaller.contains(p) ==> bigger.contains(p)
}

/// Every visited cell that is not still being explored has all its jumps followed:
/// their landing cells are visited and recorded.
pub open spec fn explored(
    occ: PositionMask,
    visited: PositionMask,
    found: PositionMask,
    open: Set<Position>,
) -> bool {
    forall|v: Position, w: Position|
        visited.contains(v) && !open.contains(v) && #[trigger] is_jump(occ, v, w)
            ==> visited.contains(w) && found.contains(w)
}

/// Every visited cell is the origin or lies on a chain of jumps from it, and every
/// recorded cell can be reached from the origin.
pub open spec fn grounded(
    occ: PositionMask,
    origin: Position,
    visited: PositionMask,
    found: PositionMask,
) -> bool {
    &&& forall|v: Position| #[trigger]
        visited.contains(v) ==> v == origin || jump_reachable(occ, origin, v)
    &&& forall|p: Position| #[trigger] found.contains(p) ==> can_reach(occ, origin, p)
}

/// Cells of the board not yet visited.
pub open spec fn unvisited(visited: PositionMask) -> nat {
    (64 - visited@.len()) as nat
}

/// A jump from a cell on the board lands on the board, on an empty cell.
pub proof fn lemma_jump_target(occ: PositionMask, from: Position, d: Direction)
    requires
        from.on_board(),
    ensures
        jump_target(occ, from, d) matches Some(to) ==> to.on_board() && !occ.contains(to) && to
            != from && is_jump(occ, from, to),
        step_target(occ, from, d) matches Some(to) ==> to.on_board() && !occ.contains(to) && to
            != from && is_step(occ, from, to),
{
    from.lemma_step(d);
    if let Some(mid) = from.step(d) {
        mid.lemma_step(d);
    }
}

/// One more jump at the end of a chain from the origin is a chain from the origin.
pub proof fn lemma_jump_extends(occ: PositionMask, origin: Position, pos: Position, to: Position)
    requires
        pos == origin || jump_reachable(occ, origin, pos),
        is_jump(occ, pos, to),
    ensures
        jump_reachable(occ, origin, to),
{
    if pos == origin {
        let path = seq![origin, to];
        assert(is_jump_chain(occ, path));
        assert(path.first() == origin && path.last() == to);
    } else {
        let path = choose|path: Seq<Position>|
            #[trigger] is_jump_chain(occ, path) && path.first() == origin && path.last() == pos;
        let longer = path.push(to);
        assert forall|i: int| 0 <= i < longer.len() - 1 implies is_jump(
            occ,
            #[trigger] longer[i],
            longer[i + 1],
        ) by {
            if i < path.len() - 1 {
                assert(is_jump(occ, path[i], path[i + 1]));
            }
        }
        assert(is_jump_chain(occ, longer));
        assert(longer.first() == origin && longer.last() == to);
    }
}

/// Once nothing is left open, every cell of a chain that starts on a visited cell is
/// visited, and every cell after the first is recorded.
pub proof fn lemma_explored_chain(
    occ: PositionMask,
    visited: PositionMask,
    found: PositionMask,
    path: Seq<Position>,
    k: int,
)
    requires
        explored(occ, visited, found, Set::empty()),
        is_jump_chain(occ, path),
        visited.contains(path.first()),
        1 <= k < path.len(),
    ensures
        visited.contains(path[k]),
        found.contains(path[k]),
    decreases k,
{
    if k > 1 {
        lemma_explored_chain(occ, visited, found, path, k - 1);
    }
    assert(is_jump(occ, path[k - 1], path[k - 1 + 1]));
}

/// A visited set grows by one cell when a cell outside it is marked, so fewer remain.
pub proof fn lemma_mark_visited(before: PositionMask, pos: Position, now: PositionMask)
    requires
        pos.on_board(),
        !before.contains(pos),
        covers(now, before.with(pos)),
    ensures
        unvisited(now) < unvisited(before),
{
    before.lemma_with(pos);
    before.lemma_finite();
    now.lemma_finite();
    vstd::set_lib::lemma_len_subset(before@.insert(pos), now@);
}

/// Every cell of a chain of jumps that starts on the board is on the board, and
/// every cell after the first is empty.
pub proof fn lemma_chain_on_board(occ: PositionMask, path: Seq<Position>, k: int)
    requires
        is_jump_chain(occ, path),
        path.first().on_board(),
        0 <= k < path.len(),
    ensures
        path[k].on_board(),
        k >= 1 ==> !occ.contains(path[k]),
    decreases k,
{
    if k >= 1 {
        lemma_chain_on_board(occ, path, k - 1);
        assert(is_jump(occ, path[k - 1], path[k - 1 + 1]));
        lemma_jump_target(occ, path[k - 1], Direction::Up);
        lemma_jump_target(occ, path[k - 1], Direction::Left);
        lemma_jump_target(occ, path[k - 1], Direction::Down);
        lemma_jump_target(occ, path[k - 1], Direction::Right);
    }
}

/// A move from a cell of the board ends on an empty cell of the board.
pub proof fn lemma_can_reach(occ: PositionMask, from: Position, to: Position)
    requires
        from.on_board(),
        can_reach(occ, from, to),
    ensures
        to.on_board(),
        !occ.contains(to),
        occ.contains(from) ==> to != from,
{
    if is_step(occ, from, to) {
        lemma_jump_target(occ, from, Direction::Up);
        lemma_jump_target(occ, from, Direction::Left);
        lemma_jump_target(occ, from, Direction::Down);
        lemma_jump_target(occ, from, Direction::Right);
    } else {
        let path = choose|path: Seq<Position>|
            #[trigger] is_jump_chain(occ, path) && path.first() == from && path.last() == to;
        lemma_chain_on_board(occ, path, path.len() - 1);
    }
}

/// Follows the jump from `pos` in direction `d`, if there is one, and everything
/// that can be reached beyond it.
fn follow_jump(
    pos: Position,
    d: Direction,
    possible_turns: &mut PositionMask,
    visited: &mut PositionMask,
    all_pieces: PositionMask,
    Ghost(origin): Ghost<Position>,
    Ghost(open): Ghost<Set<Position>>,
)
    requires
        pos.on_board(),
        old(visited).contains(pos),
        open.contains(pos),
        forall|p: Position| open.contains(p) ==> old(visited).contains(p),
        pos == origin || jump_reachable(all_pieces, origin, pos),
        explored(all_pieces, *old(visited), *old(possible_turns), open),
        grounded(all_pieces, origin, *old(visited), *old(possible_turns)),
    ensures
        covers(*final(visited), *old(visited)),
        covers(*final(possible_turns), *old(possible_turns)),
        explored(all_pieces, *final(visited), *final(possible_turns), open),
        grounded(all_pieces, origin, *final(visited), *final(possible_turns)),
        jump_target(all_pieces, pos, d) matches Some(to) ==> final(visited).contains(to)
            && final(possible_turns).contains(to),
    decreases unvisited(*old(visited)), 1nat,
{
    proof {
        pos.lemma_step(d);
        lemma_jump_target(all_pieces, pos, d);
    }
    if let Some(joint_pos) = pos.neighbour(d) {
        proof {
            joint_pos.lemma_step(d);
        }
        if let Some(new_pos) = joint_pos.neighbour(d) {
            if all_pieces.has_piece_at(joint_pos) && !all_pieces.has_piece_at(new_pos) {
                proof {
                    lemma_jump_extends(all_pieces, origin, pos, new_pos);
                    possible_turns.lemma_with(new_pos);
                }
                possible_turns.add_position(new_pos);
                search_jumps(
                    new_pos,
                    possible_turns,
                    visited,
                    all_pieces,
                    d,
                    Ghost(origin),
                    Ghost(open),
                );
            }
        }
    }
}

/// Marks `pos` as visited and follows every chain of jumps from it through cells
/// not yet visited, trying the four directions in turn from `first`.
fn search_jumps(
    pos: Position,
    possible_turns: &mut PositionMask,
    visited: &mut PositionMask,
    all_pieces: PositionMask,
    first: Direction,
    Ghost(origin): Ghost<Position>,
    Ghost(open): Ghost<Set<Position>>,
)
    requires
        pos.on_board(),
        forall|p: Position| open.contains(p) ==> old(visited).contains(p),
        pos == origin || jump_reachable(all_pieces, origin, pos),
        explored(all_pieces, *old(visited), *old(possible_turns), open),
        grounded(all_pieces, origin, *old(visited), *old(possible_turns)),
    ensures
        covers(*final(visited), *old(visited)),
        covers(*final(possible_turns), *old(possible_turns)),
        final(visited).contains(pos),
        explored(all_pieces, *final(visited), *final(possible_turns), open),
        grounded(all_pieces, origin, *final(visited), *final(possible_turns)),
    decreases unvisited(*old(visited)), 0nat,
{
    if visited.has_piece_at(pos) {
        return ;
    }
    let ghost before = *visited;
    let ghost inner = open.insert(pos);
    proof {
        visited.lemma_with(pos);
    }
    visited.add_position(pos);
    let second = first.turn();
    let third = second.turn();
    let fourth = third.turn();
    proof {
        lemma_mark_visited(before, pos, *visited);
    }
    follow_jump(pos, first, possible_turns, visited, all_pieces, Ghost(origin), Ghost(inner));
    proof {
        lemma_mark_visited(before, pos, *visited);
    }
    follow_jump(pos, second, possible_turns, visited, all_pieces, Ghost(origin), Ghost(inner));
    proof {
        lemma_mark_visited(before, pos, *visited);
    }
    follow_jump(pos, third, possible_turns, visited, all_pieces, Ghost(origin), Ghost(inner));
    proof {
        lemma_mark_visited(before, pos, *visited);
    }
    follow_jump(pos, fourth, possible_turns, visited, all_pieces, Ghost(origin), Ghost(inner));
    proof {
        assert forall|v: Position, w: Position|
            visited.contains(v) && !open.contains(v) && #[trigger] is_jump(
                all_pieces,
                v,
                w,
            ) implies visited.contains(w) && possible_turns.contains(w) by {
            if v != pos {
                assert(!inner.contains(v));
            }
        }
    }
}

/// Records the neighbouring cell in direction `d`, if the board has one.
fn add_neighbour(from: Position, d: Direction, possible_turns: &mut PositionMask)
    requires
        from.on_board(),
    ensures
        forall|p: Position| #[trigger]
            final(possible_turns).contains(p) == (old(possible_turns).contains(p) || from.step(d)
                == Some(p)),
{
    proof {
        from.lemma_step(d);
    }
    if let Some(pos) = from.neighbour(d) {
        proof {
            possible_turns.lemma_with(pos);
        }
        possible_turns.add_position(pos);
    }
}

impl BoardPosition {
    /// `turn` is a move that `player` may make: a piece of `player` stands on its
    /// origin, and a step or a chain of jumps takes it to its destination.
    pub open spec fn legal(self, turn: Turn, player: PieceColor) -> bool {
        &&& self.pieces(player).contains(turn.from)
        &&& can_reach(self.all_pieces(), turn.from, turn.to)
    }

    /// The cells on which a piece standing on `from` can end its move.
    pub open spec fn destinations(self, from: Position) -> Seq<Position> {
        cells_where(|to: Position| can_reach(self.all_pieces(), from, to), 64)
    }

    /// The moves of a piece on `from`, by ascending destination.
    pub open spec fn turns_from(self, from: Position) -> Seq<Turn> {
        self.destinations(from).map_values(|to: Position| Turn { from, to })
    }

    /// The moves of the pieces on the cells `froms`, cell after cell.
    pub open spec fn turns_over(self, froms: Seq<Position>) -> Seq<Turn>
        decreases froms.len(),
    {
        if froms.len() == 0 {
            Seq::empty()
        } else {
            self.turns_over(froms.drop_last()) + self.turns_from(froms.last())
        }
    }

    /// Every move that `player` may make, by ascending origin and then destination.
    pub open spec fn all_turns(self, player: PieceColor) -> Seq<Turn> {
        self.turns_over(self.pieces(player).cells())
    }

    /// `first` comes before `second` in the order of generation.
    pub open spec fn generated_before(first: Turn, second: Turn) -> bool {
        first.from.0 < second.from.0 || (first.from == second.from && first.to.0 < second.to.0)
    }

    /// The cells a piece on `from` can move to, the four directions taken in turn
    /// from `first`.
    fn generate_turn_from(self, from: Position, first: Direction) -> (possible_turns: PositionMask)
        requires
            from.on_board(),
        ensures
            forall|p: Position| #[trigger]
                possible_turns.contains(p) == can_reach(self.all_pieces(), from, p),
            possible_turns.cells() == self.destinations(from),
    {
        let all_pieces = self.all_pieces_mask();
        let mut possible_turns = PositionMask(0);
        let mut visited = PositionMask(0);
        let second = first.turn();
        let third = second.turn();
        let fourth = third.turn();
        proof {
            PositionMask::lemma_empty();
        }
        add_neighbour(from, first, &mut possible_turns);
        add_neighbour(from, second, &mut possible_turns);
        add_neighbour(from, third, &mut possible_turns);
        add_neighbour(from, fourth, &mut possible_turns);
        let ghost neighbours = possible_turns;
        possible_turns.0 &= !all_pieces.0;
        proof {
            from.lemma_step(Direction::Up);
            from.lemma_step(Direction::Left);
            from.lemma_step(Direction::Down);
            from.lemma_step(Direction::Right);
            assert forall|p: Position| #[trigger]
                possible_turns.contains(p) == is_step(all_pieces, from, p) by {
                assert(neighbours.contains(p) == (from.step(Direction::Up) == Some(p) || from.step(
                    Direction::Left,
                ) == Some(p) || from.step(Direction::Down) == Some(p) || from.step(Direction::Right)
                    == Some(p)));
                if p.on_board() {
                    lemma_bits(all_pieces.0, 0, 0, p.0 as u64);
                    lemma_bits(neighbours.0, !all_pieces.0, 0, p.0 as u64);
                    assert(possible_turns.contains(p) == (neighbours.contains(p)
                        && !all_pieces.contains(p)));
                }
            }
            PositionMask::lemma_empty();
        }
        let ghost steps = possible_turns;
        search_jumps(
            from,
            &mut possible_turns,
            &mut visited,
            all_pieces,
            first,
            Ghost(from),
            Ghost(Set::empty()),
        );
        proof {
            assert forall|p: Position| #[trigger]
                possible_turns.contains(p) == can_reach(all_pieces, from, p) by {
                if is_step(all_pieces, from, p) {
                    assert(steps.contains(p));
                }
                if jump_reachable(all_pieces, from, p) {
                    let path = choose|path: Seq<Position>|
                        #[trigger] is_jump_chain(all_pieces, path) && path.first() == from
                            && path.last() == p;
                    lemma_explored_chain(all_pieces, visited, possible_turns, path, path.len() - 1);
                }
            }
            crate::mask::lemma_cells_where_agree(
                |p: Position| possible_turns.contains(p),
                |to: Position| can_reach(self.all_pieces(), from, to),
                64,
            );
        }
        possible_turns
    }

    /// The cells a black piece on `from` can move to.
    pub fn generate_turn_for_black(self, from: Position) -> (possible_turns: PositionMask)
        requires
            from.on_board(),
        ensures
            forall|p: Position| #[trigger]
                possible_turns.contains(p) == can_reach(self.all_pieces(), from, p),
            possible_turns.cells() == self.destinations(from),
    {
        self.generate_turn_from(from, Direction::Up)
    }

    /// The cells a white piece on `from` can move to.
    pub fn generate_turn_for_white(self, from: Position) -> (possible_turns: PositionMask)
        requires
            from.on_board(),
        ensures
            forall|p: Position| #[trigger]
                possible_turns.contains(p) == can_reach(self.all_pieces(), from, p),
            possible_turns.cells() == self.destinations(from),
    {
        self.generate_turn_from(from, Direction::Down)
    }

    /// Every move that `player_color` may make, by ascending origin and then
    /// destination. A chain of jumps is one move, from its first cell to its last.
    pub fn generate_all_turns_for(self, player_color: PieceColor) -> (turns: Vec<Turn>)
        ensures
            turns@ == self.all_turns(player_color),
            forall|t: Turn| turns@.contains(t) <==> self.legal(t, player_color),
            forall|i: int, j: int|
                0 <= i < j < turns@.len() ==> Self::generated_before(
                    #[trigger] turns@[i],
                    #[trigger] turns@[j],
                ),
    {
        let froms = self.side(player_color).positions_iter();
        let mut turns: Vec<Turn> = Vec::new();
        let mut i: usize = 0;
        assert(froms@.take(0) =~= Seq::<Position>::empty());
        while i < froms.len()
            invariant
                i <= froms.len(),
                froms@ == self.pieces(player_color).cells(),
                forall|k: int| 0 <= k < froms@.len() ==> (#[trigger] froms@[k]).on_board(),
                turns@ == self.turns_over(froms@.take(i as int)),
            decreases froms.len() - i,
        {
            let pos = froms[i];
            let reach = if player_color == PieceColor::Black {
                self.generate_turn_for_black(pos)
            } else {
                self.generate_turn_for_white(pos)
            };
            let tos = reach.positions_iter();
            let ghost base = turns@;
            let mut j: usize = 0;
            while j < tos.len()
                invariant
                    j <= tos.len(),
                    tos@ == self.destinations(pos),
                    turns@ == base + tos@.take(j as int).map_values(
                        |to: Position| Turn { from: pos, to },
                    ),
                decreases tos.len() - j,
            {
                turns.push(Turn { from: pos, to: tos[j] });
                proof {
                    assert(tos@.take(j + 1) =~= tos@.take(j as int).push(tos@[j as int]));
                    assert(turns@ =~= base + tos@.take(j + 1).map_values(
                        |to: Position| Turn { from: pos, to },
                    ));
                }
                j += 1;
            }
            proof {
                assert(tos@.take(j as int) =~= tos@);
                assert(froms@.take(i + 1).drop_last() =~= froms@.take(i as int));
                assert(froms@.take(i + 1).last() == pos);
            }
            i += 1;
        }
        proof {
            assert(froms@.take(i as int) =~= froms@);
            self.lemma_all_turns(player_color);
            let all = self.all_turns(player_color);
            assert(turns@ == all);
            assert forall|i: int, j: int| 0 <= i < j < turns@.len() implies Self::generated_before(
                #[trigger] turns@[i],
                #[trigger] turns@[j],
            ) by {
                assert(Self::generated_before(all[i], all[j]));
            }
        }
        turns
    }

    /// The moves of the pieces on `froms`, a strictly ascending list of cells of the
    /// board, are exactly the ways to carry a piece from one of these cells to a cell
    /// it can reach, each listed once, by ascending origin and then destination.
    pub proof fn lemma_turns_over(self, froms: Seq<Position>)
        requires
            forall|k: int| 0 <= k < froms.len() ==> (#[trigger] froms[k]).on_board(),
            forall|j: int, k: int|
                0 <= j < k < froms.len() ==> (#[trigger] froms[j]).0 < (#[trigger] froms[k]).0,
        ensures
            forall|t: Turn|
                self.turns_over(froms).contains(t) <==> froms.contains(t.from) && can_reach(
                    self.all_pieces(),
                    t.from,
                    t.to,
                ),
            forall|i: int, j: int|
                0 <= i < j < self.turns_over(froms).len() ==> Self::generated_before(
                    #[trigger] self.turns_over(froms)[i],
                    #[trigger] self.turns_over(froms)[j],
                ),
        decreases froms.len(),
    {
        let occ = self.all_pieces();
        let all = self.turns_over(froms);
        if froms.len() > 0 {
            let head = froms.drop_last();
            let from = froms.last();
            let earlier = self.turns_over(head);
            let tos = self.destinations(from);
            let latest = self.turns_from(from);
            self.lemma_turns_over(head);
            lemma_cells_where(|to: Position| can_reach(occ, from, to), 64);
            assert(all =~= earlier + latest);
            assert forall|i: int| 0 <= i < earlier.len() implies head.contains(
                (#[trigger] earlier[i]).from,
            ) by {
                assert(earlier.contains(earlier[i]));
            }
            assert forall|t: Turn| all.contains(t) <==> froms.contains(t.from) && can_reach(
                occ,
                t.from,
                t.to,
            ) by {
                if all.contains(t) {
                    let k = choose|k: int| 0 <= k < all.len() && all[k] == t;
                    if k < earlier.len() {
                        assert(earlier.contains(t));
                        let m = choose|m: int| 0 <= m < head.len() && head[m] == t.from;
                        assert(froms[m] == t.from);
                    } else {
                        assert(t == latest[k - earlier.len()]);
                        assert(froms[froms.len() - 1] == from);
                    }
                }
                if froms.contains(t.from) && can_reach(occ, t.from, t.to) {
                    let m = choose|m: int| 0 <= m < froms.len() && froms[m] == t.from;
                    if m < head.len() {
                        assert(head[m] == t.from);
                        assert(earlier.contains(t));
                        let k = choose|k: int| 0 <= k < earlier.len() && earlier[k] == t;
                        assert(all[k] == t);
                    } else {
                        lemma_can_reach(occ, from, t.to);
                        assert(tos.contains(t.to));
                        let k = choose|k: int| 0 <= k < tos.len() && tos[k] == t.to;
                        assert(latest[k] == t);
                        assert(all[earlier.len() + k] == t);
                    }
                }
            }
            assert forall|i: int, j: int| 0 <= i < j < all.len() implies Self::generated_before(
                #[trigger] all[i],
                #[trigger] all[j],
            ) by {
                if j < earlier.len() {
                    assert(Self::generated_before(earlier[i], earlier[j]));
                } else if i < earlier.len() {
                    let m = choose|m: int| 0 <= m < head.len() && head[m] == earlier[i].from;
                    assert(froms[m].0 < froms[froms.len() - 1].0);
                    assert(all[j] == latest[j - earlier.len()]);
                } else {
                    assert(all[i] == latest[i - earlier.len()]);
                    assert(all[j] == latest[j - earlier.len()]);
                    assert(tos[i - earlier.len()].0 < tos[j - earlier.len()].0);
                }
            }
        }
    }

    /// The generated moves of a side are exactly its legal moves, each listed once,
    /// by ascending origin and then destination.
    pub proof fn lemma_all_turns(self, player: PieceColor)
        ensures
            forall|t: Turn| self.all_turns(player).contains(t) <==> self.legal(t, player),
            forall|i: int, j: int|
                0 <= i < j < self.all_turns(player).len() ==> Self::generated_before(
                    #[trigger] self.all_turns(player)[i],
                    #[trigger] self.all_turns(player)[j],
                ),
    {
        let own = self.pieces(player);
        let froms = own.cells();
        lemma_cells_where(|p: Position| own.contains(p), 64);
        self.lemma_turns_over(froms);
        assert forall|t: Turn| self.all_turns(player).contains(t) <==> self.legal(t, player) by {
            if froms.contains(t.from) {
                let m = choose|m: int| 0 <= m < froms.len() && froms[m] == t.from;
                assert(own.contains(froms[m]));
            }
            if own.contains(t.from) {
                assert(froms.contains(t.from));
            }
        }
    }

    /// Every generated move lands on a cell that was empty, and playing it on a
    /// valid position gives a valid position.
    pub proof fn lemma_generated_turn(self, player: PieceColor, k: int)
        requires
            self.valid(),
            0 <= k < self.all_turns(player).len(),
        ensures
            self.legal(self.all_turns(player)[k], player),
            !self.occupied(self.all_turns(player)[k].to),
            self.after(self.all_turns(player)[k], player).valid(),
    {
        let all = self.all_turns(player);
        self.lemma_all_turns(player);
        assert(all.contains(all[k]));
        self.lemma_legal_turn(all[k], player);
    }

    /// A legal move takes a piece of the mover to an empty cell, and playing it on a
    /// valid position gives a valid position.
    pub proof fn lemma_legal_turn(self, turn: Turn, player: PieceColor)
        requires
            self.legal(turn, player),
        ensures
            self.admits(turn, player),
            !self.occupied(turn.to),
            self.valid() ==> self.after(turn, player).valid(),
    {
        self.lemma_all_pieces();
        lemma_can_reach(self.all_pieces(), turn.from, turn.to);
        assert(self.occupied(turn.from));
        if self.valid() {
            self.lemma_after_valid(turn, player);
        }
    }
}

} // verus!
