use crate::board::BoardPosition;
use crate::color::PieceColor;
use crate::coordinate::{Direction, Position};
use crate::mask::PositionMask;
use crate::moves::{
    can_reach, covers, is_jump, is_jump_chain, is_step, jump_reachable, jump_target,
    lemma_jump_extends, lemma_jump_target, lemma_mark_visited, step_target, unvisited,
};
use crate::turn::Turn;
use vstd::prelude::*;

verus! {

/// The single step from `pos` in direction `d` as a sequence of one turn, if the
/// step can be made.
pub open spec fn step_sequence(occ: PositionMask, pos: Position, d: Direction) -> Seq<Seq<Turn>> {
    match step_target(occ, pos, d) {
        Some(to) => seq![seq![Turn { from: pos, to }]],
        None => Seq::empty(),
    }
}

/// The sequences found by following the jump from `pos` in direction `d`, after the
/// jumps `prefix` that led to `pos`: the sequence that ends with this jump, then
/// all that go on from its landing cell; with the cells visited afterwards.
pub open spec fn follow(
    occ: PositionMask,
    pos: Position,
    d: Direction,
    prefix: Seq<Turn>,
    visited: PositionMask,
    budget: nat,
) -> (Seq<Seq<Turn>>, PositionMask)
    decreases budget, 1nat,
{
    match jump_target(occ, pos, d) {
        Some(to) => {
            let hops = prefix.push(Turn { from: pos, to });
            let (beyond, seen) = walk(occ, to, hops, visited, budget);
            (seq![hops] + beyond, seen)
        },
        None => (Seq::empty(), visited),
    }
}

/// The sequences found from `pos`, reached by the jumps `prefix`: none where `pos`
/// was visited before; else `pos` is marked and its jumps are followed up, left,
/// down and right, each with the cells that the ones before have visited. `budget`
/// bounds the length of a chain; 64 is never used up.
pub open spec fn walk(
    occ: PositionMask,
    pos: Position,
    prefix: Seq<Turn>,
    visited: PositionMask,
    budget: nat,
) -> (Seq<Seq<Turn>>, PositionMask)
    decreases budget, 0nat,
{
    if visited.contains(pos) || budget == 0 {
        (Seq::empty(), visited)
    } else {
        let left = (budget - 1) as nat;
        let (up, seen_up) = follow(occ, pos, Direction::Up, prefix, visited.with(pos), left);
        let (lt, seen_lt) = follow(occ, pos, Direction::Left, prefix, seen_up, left);
        let (dn, seen_dn) = follow(occ, pos, Direction::Down, prefix, seen_lt, left);
        let (rt, seen_rt) = follow(occ, pos, Direction::Right, prefix, seen_dn, left);
        (up + lt + dn + rt, seen_rt)
    }
}

/// The turns of each list.
pub open spec fn turn_lists(found: Seq<Vec<Turn>>) -> Seq<Seq<Turn>> {
    found.map_values(|turns: Vec<Turn>| turns@)
}

impl BoardPosition {
    /// The ways to move the piece on `pos` hop by hop, as shown to a player: the
    /// single steps up, down, left and right, then every chain of jumps in the
    /// order in which a walk from `pos` finds it.
    pub open spec fn turn_sequences(self, pos: Position) -> Seq<Seq<Turn>> {
        step_sequences(self.all_pieces(), pos) + self.jump_sequences(pos)
    }

    /// The chains of jumps of the piece on `pos`, in the order in which a walk from
    /// `pos` finds them.
    pub open spec fn jump_sequences(self, pos: Position) -> Seq<Seq<Turn>> {
        walk(self.all_pieces(), pos, Seq::empty(), PositionMask(0), 64).0
    }
}

/// Following a jump finds the same with any budget that covers the cells not yet
/// visited.
pub proof fn lemma_follow_budget(
    occ: PositionMask,
    pos: Position,
    d: Direction,
    prefix: Seq<Turn>,
    visited: PositionMask,
    budget: nat,
    other: nat,
)
    requires
        pos.on_board(),
        unvisited(visited) <= budget,
        unvisited(visited) <= other,
    ensures
        follow(occ, pos, d, prefix, visited, budget) == follow(occ, pos, d, prefix, visited, other),
        covers(follow(occ, pos, d, prefix, visited, budget).1, visited),
    decreases budget, 1nat,
{
    lemma_jump_target(occ, pos, d);
    if let Some(to) = jump_target(occ, pos, d) {
        lemma_walk_budget(occ, to, prefix.push(Turn { from: pos, to }), visited, budget, other);
    }
}

/// A walk finds the same with any budget that covers the cells not yet visited: the
/// budget is never used up.
pub proof fn lemma_walk_budget(
    occ: PositionMask,
    pos: Position,
    prefix: Seq<Turn>,
    visited: PositionMask,
    budget: nat,
    other: nat,
)
    requires
        pos.on_board(),
        unvisited(visited) <= budget,
        unvisited(visited) <= other,
    ensures
        walk(occ, pos, prefix, visited, budget) == walk(occ, pos, prefix, visited, other),
        covers(walk(occ, pos, prefix, visited, budget).1, visited),
    decreases budget, 0nat,
{
    if !visited.contains(pos) {
        visited.lemma_with(pos);
        visited.lemma_finite();
        visited.with(pos).lemma_finite();
        let left = (budget - 1) as nat;
        let rest = (other - 1) as nat;
        let start = visited.with(pos);
        lemma_follow_budget(occ, pos, Direction::Up, prefix, start, left, rest);
        let seen_up = follow(occ, pos, Direction::Up, prefix, start, left).1;
        lemma_mark_visited(visited, pos, seen_up);
        lemma_follow_budget(occ, pos, Direction::Left, prefix, seen_up, left, rest);
        let seen_lt = follow(occ, pos, Direction::Left, prefix, seen_up, left).1;
        lemma_mark_visited(visited, pos, seen_lt);
        lemma_follow_budget(occ, pos, Direction::Down, prefix, seen_lt, left, rest);
        let seen_dn = follow(occ, pos, Direction::Down, prefix, seen_lt, left).1;
        lemma_mark_visited(visited, pos, seen_dn);
        lemma_follow_budget(occ, pos, Direction::Right, prefix, seen_dn, left, rest);
    }
}

/// `hops` is a chain of jumps from `origin`: each hop is a jump, and each starts
/// where the one before landed.
pub open spec fn is_hop_chain(occ: PositionMask, origin: Position, hops: Seq<Turn>) -> bool {
    &&& hops.len() >= 1
    &&& hops[0].from == origin
    &&& forall|i: int| 0 <= i < hops.len() ==> is_jump(occ, (#[trigger] hops[i]).from, hops[i].to)
    &&& forall|i: int| 0 <= i < hops.len() - 1 ==> (#[trigger] hops[i]).to == hops[i + 1].from
}

/// No two hops start from the same cell.
pub open spec fn distinct_origins(hops: Seq<Turn>) -> bool {
    forall|i: int, j: int| 0 <= i < j < hops.len() ==> (#[trigger] hops[i]).from != (
    #[trigger] hops[j]).from
}

/// `prefix` are the hops that led from `origin` to `pos` through cells of `visited`.
pub open spec fn leads_to(
    occ: PositionMask,
    origin: Position,
    pos: Position,
    prefix: Seq<Turn>,
    visited: PositionMask,
) -> bool {
    &&& pos.on_board()
    &&& if prefix.len() == 0 {
        pos == origin
    } else {
        is_hop_chain(occ, origin, prefix) && prefix.last().to == pos
    }
    &&& distinct_origins(prefix)
    &&& forall|i: int| 0 <= i < prefix.len() ==> visited.contains((#[trigger] prefix[i]).from)
}

/// Every sequence of `out` is a chain of at most 64 jumps from `origin` that starts
/// no two hops from the same cell.
pub open spec fn well_formed(occ: PositionMask, origin: Position, out: Seq<Seq<Turn>>) -> bool {
    forall|k: int|
        0 <= k < out.len() ==> is_hop_chain(occ, origin, #[trigger] out[k]) && distinct_origins(
            out[k],
        ) && out[k].len() <= 64
}

/// Following a jump from a marked cell finds only chains of jumps from the origin
/// in which no cell is left twice, and unmarks nothing.
pub proof fn lemma_follow_shape(
    occ: PositionMask,
    origin: Position,
    pos: Position,
    d: Direction,
    prefix: Seq<Turn>,
    visited: PositionMask,
    budget: nat,
)
    requires
        leads_to(occ, origin, pos, prefix, visited),
        visited.contains(pos),
        forall|i: int| 0 <= i < prefix.len() ==> (#[trigger] prefix[i]).from != pos,
        prefix.len() + budget < 64,
    ensures
        well_formed(occ, origin, follow(occ, pos, d, prefix, visited, budget).0),
        covers(follow(occ, pos, d, prefix, visited, budget).1, visited),
    decreases budget, 1nat,
{
    lemma_jump_target(occ, pos, d);
    if let Some(to) = jump_target(occ, pos, d) {
        let hops = prefix.push(Turn { from: pos, to });
        assert(is_hop_chain(occ, origin, hops)) by {
            assert forall|i: int| 0 <= i < hops.len() implies is_jump(
                occ,
                (#[trigger] hops[i]).from,
                hops[i].to,
            ) by {
                if i < prefix.len() {
                    assert(hops[i] == prefix[i]);
                }
            }
            assert forall|i: int| 0 <= i < hops.len() - 1 implies (#[trigger] hops[i]).to == hops[i
                + 1].from by {
                assert(hops[i] == prefix[i]);
                if i + 1 < prefix.len() {
                    assert(hops[i + 1] == prefix[i + 1]);
                }
            }
            if prefix.len() > 0 {
                assert(hops[0] == prefix[0]);
            }
        }
        assert(distinct_origins(hops)) by {
            assert forall|i: int, j: int| 0 <= i < j < hops.len() implies (#[trigger] hops[i]).from
                != (#[trigger] hops[j]).from by {
                assert(hops[i] == prefix[i]);
                if j < prefix.len() {
                    assert(hops[j] == prefix[j]);
                }
            }
        }
        assert forall|i: int| 0 <= i < hops.len() implies visited.contains(
            (#[trigger] hops[i]).from,
        ) by {
            if i < prefix.len() {
                assert(hops[i] == prefix[i]);
            }
        }
        lemma_walk_shape(occ, origin, to, hops, visited, budget);
        let beyond = walk(occ, to, hops, visited, budget).0;
        let out = seq![hops] + beyond;
        assert forall|k: int| 0 <= k < out.len() implies is_hop_chain(occ, origin, #[trigger] out[k])
            && distinct_origins(out[k]) && out[k].len() <= 64 by {
            if k > 0 {
                assert(out[k] == beyond[k - 1]);
            }
        }
    }
}

/// A walk finds only chains of jumps from the origin in which no cell is left
/// twice, and unmarks nothing.
pub proof fn lemma_walk_shape(
    occ: PositionMask,
    origin: Position,
    pos: Position,
    prefix: Seq<Turn>,
    visited: PositionMask,
    budget: nat,
)
    requires
        leads_to(occ, origin, pos, prefix, visited),
        prefix.len() + budget <= 64,
    ensures
        well_formed(occ, origin, walk(occ, pos, prefix, visited, budget).0),
        covers(walk(occ, pos, prefix, visited, budget).1, visited),
    decreases budget, 0nat,
{
    if !visited.contains(pos) && budget > 0 {
        let left = (budget - 1) as nat;
        let start = visited.with(pos);
        visited.lemma_with(pos);
        lemma_follow_shape(occ, origin, pos, Direction::Up, prefix, start, left);
        let (up, seen_up) = follow(occ, pos, Direction::Up, prefix, start, left);
        lemma_follow_shape(occ, origin, pos, Direction::Left, prefix, seen_up, left);
        let (lt, seen_lt) = follow(occ, pos, Direction::Left, prefix, seen_up, left);
        lemma_follow_shape(occ, origin, pos, Direction::Down, prefix, seen_lt, left);
        let (dn, seen_dn) = follow(occ, pos, Direction::Down, prefix, seen_lt, left);
        lemma_follow_shape(occ, origin, pos, Direction::Right, prefix, seen_dn, left);
        let (rt, seen_rt) = follow(occ, pos, Direction::Right, prefix, seen_dn, left);
        let out = up + lt + dn + rt;
        assert forall|k: int| 0 <= k < out.len() implies is_hop_chain(occ, origin, #[trigger] out[k])
            && distinct_origins(out[k]) && out[k].len() <= 64 by {
            if k < up.len() {
                assert(out[k] == up[k]);
            } else if k < up.len() + lt.len() {
                assert(out[k] == lt[k - up.len()]);
            } else if k < up.len() + lt.len() + dn.len() {
                assert(out[k] == dn[k - up.len() - lt.len()]);
            } else {
                assert(out[k] == rt[k - up.len() - lt.len() - dn.len()]);
            }
        }
    }
}

/// Every sequence of `out` goes on from `prefix` by a hop from `pos`.
pub open spec fn goes_on(out: Seq<Seq<Turn>>, prefix: Seq<Turn>, pos: Position) -> bool {
    forall|k: int|
        0 <= k < out.len() ==> (#[trigger] out[k]).len() > prefix.len() && out[k].take(
            prefix.len() as int,
        ) == prefix && out[k][prefix.len() as int].from == pos
}

/// Every hop of `out` from the `base`-th on starts from a cell that was visited
/// between `before` and `after`.
pub open spec fn newly_left(
    out: Seq<Seq<Turn>>,
    base: int,
    before: PositionMask,
    after: PositionMask,
) -> bool {
    forall|k: int, i: int|
        0 <= k < out.len() && base <= i < out[k].len() ==> after.contains(
            (#[trigger] out[k][i]).from,
        ) && !before.contains(out[k][i].from)
}

/// Among the hops of `out` from the `base`-th on, a cell is left in one way only:
/// two hops from the same cell stand at the same place after the same hops.
pub open spec fn left_once(out: Seq<Seq<Turn>>, base: int) -> bool {
    forall|k: int, i: int, m: int, j: int|
        0 <= k < out.len() && base <= i < out[k].len() && 0 <= m < out.len() && base <= j
            < out[m].len() && (#[trigger] out[k][i]).from == (#[trigger] out[m][j]).from ==> i == j
            && out[k].take(i) == out[m].take(j)
}

/// What a walk finds when it goes on to the cells `first` and then, with the cells
/// visited meanwhile, to the cells `second`, leaves every cell in one way only.
pub proof fn lemma_left_once_add(
    first: Seq<Seq<Turn>>,
    second: Seq<Seq<Turn>>,
    prefix: Seq<Turn>,
    pos: Position,
    start: PositionMask,
    between: PositionMask,
    after: PositionMask,
)
    requires
        start.contains(pos),
        covers(between, start),
        goes_on(first, prefix, pos),
        goes_on(second, prefix, pos),
        newly_left(first, (prefix.len() + 1) as int, start, between),
        newly_left(second, (prefix.len() + 1) as int, between, after),
        covers(after, between),
        left_once(first, prefix.len() as int),
        left_once(second, prefix.len() as int),
    ensures
        goes_on(first + second, prefix, pos),
        newly_left(first + second, (prefix.len() + 1) as int, start, after),
        left_once(first + second, prefix.len() as int),
{
    let out = first + second;
    let base = prefix.len() as int;
    assert forall|k: int| 0 <= k < out.len() implies (#[trigger] out[k]).len() > prefix.len()
        && out[k].take(prefix.len() as int) == prefix && out[k][prefix.len() as int].from == pos by {
        if k < first.len() {
            assert(out[k] == first[k]);
        } else {
            assert(out[k] == second[k - first.len()]);
        }
    }
    assert forall|k: int, i: int| 0 <= k < out.len() && base + 1 <= i < out[k].len() implies after.contains(
        (#[trigger] out[k][i]).from,
    ) && !start.contains(out[k][i].from) by {
        if k < first.len() {
            assert(out[k] == first[k]);
            assert(between.contains(first[k][i].from));
        } else {
            assert(out[k] == second[k - first.len()]);
            assert(!between.contains(second[k - first.len()][i].from));
        }
    }
    assert forall|k: int, i: int, m: int, j: int|
        0 <= k < out.len() && base <= i < out[k].len() && 0 <= m < out.len() && base <= j
            < out[m].len() && (#[trigger] out[k][i]).from == (#[trigger] out[m][j]).from implies i
        == j && out[k].take(i) == out[m].take(j) by {
        assert(out[k][base].from == pos && out[m][base].from == pos);
        assert(out[k].take(base) == prefix && out[m].take(base) == prefix);
        if i > base {
            assert(!start.contains(out[k][i].from));
        }
        if j > base {
            assert(!start.contains(out[m][j].from));
        }
        if i > base && j > base {
            if k < first.len() && m < first.len() {
                assert(out[k] == first[k] && out[m] == first[m]);
            } else if k >= first.len() && m >= first.len() {
                assert(out[k] == second[k - first.len()] && out[m] == second[m - first.len()]);
            } else if k < first.len() {
                assert(out[k] == first[k] && out[m] == second[m - first.len()]);
                assert(between.contains(first[k][i].from));
                assert(!between.contains(second[m - first.len()][j].from));
            } else {
                assert(out[m] == first[m] && out[k] == second[k - first.len()]);
                assert(between.contains(first[m][j].from));
                assert(!between.contains(second[k - first.len()][i].from));
            }
        }
    }
}

/// Following a jump from a visited cell leaves every cell in one way only.
pub proof fn lemma_follow_once(
    occ: PositionMask,
    pos: Position,
    d: Direction,
    prefix: Seq<Turn>,
    visited: PositionMask,
    budget: nat,
)
    requires
        pos.on_board(),
        visited.contains(pos),
    ensures
        ({
            let (out, seen) = follow(occ, pos, d, prefix, visited, budget);
            &&& covers(seen, visited)
            &&& goes_on(out, prefix, pos)
            &&& newly_left(out, (prefix.len() + 1) as int, visited, seen)
            &&& left_once(out, prefix.len() as int)
        }),
    decreases budget, 1nat,
{
    lemma_jump_target(occ, pos, d);
    let (out, seen) = follow(occ, pos, d, prefix, visited, budget);
    let base = prefix.len() as int;
    if let Some(to) = jump_target(occ, pos, d) {
        let hops = prefix.push(Turn { from: pos, to });
        lemma_walk_once(occ, to, hops, visited, budget);
        let beyond = walk(occ, to, hops, visited, budget).0;
        assert(hops.take(base) =~= prefix);
        assert forall|k: int| 0 <= k < out.len() implies (#[trigger] out[k]).len() > prefix.len()
            && out[k].take(prefix.len() as int) == prefix && out[k][prefix.len() as int].from
            == pos by {
            if k > 0 {
                assert(out[k] == beyond[k - 1]);
                assert(beyond[k - 1].take(hops.len() as int) == hops);
                assert(out[k].take(base) =~= hops.take(base));
                assert(out[k][base] == beyond[k - 1].take(hops.len() as int)[base]);
            }
        }
        assert forall|k: int, i: int| 0 <= k < out.len() && base + 1 <= i < out[k].len() implies seen.contains(
            (#[trigger] out[k][i]).from,
        ) && !visited.contains(out[k][i].from) by {
            assert(out[k] == beyond[k - 1]);
        }
        assert forall|k: int, i: int, m: int, j: int|
            0 <= k < out.len() && base <= i < out[k].len() && 0 <= m < out.len() && base <= j
                < out[m].len() && (#[trigger] out[k][i]).from == (#[trigger] out[m][j]).from implies i
            == j && out[k].take(i) == out[m].take(j) by {
            assert(out[k][base].from == pos && out[m][base].from == pos);
            assert(out[k].take(base) == prefix && out[m].take(base) == prefix);
            if i > base {
                assert(!visited.contains(out[k][i].from));
            }
            if j > base {
                assert(!visited.contains(out[m][j].from));
            }
            if i > base && j > base {
                assert(out[k] == beyond[k - 1] && out[m] == beyond[m - 1]);
            }
        }
    }
}

/// A walk leaves every cell in one way only: no cell is visited twice.
pub proof fn lemma_walk_once(
    occ: PositionMask,
    pos: Position,
    prefix: Seq<Turn>,
    visited: PositionMask,
    budget: nat,
)
    requires
        pos.on_board(),
    ensures
        ({
            let (out, seen) = walk(occ, pos, prefix, visited, budget);
            &&& covers(seen, visited)
            &&& goes_on(out, prefix, pos)
            &&& newly_left(out, prefix.len() as int, visited, seen)
            &&& left_once(out, prefix.len() as int)
        }),
    decreases budget, 0nat,
{
    let (out, seen) = walk(occ, pos, prefix, visited, budget);
    let base = prefix.len() as int;
    if !visited.contains(pos) && budget > 0 {
        let left = (budget - 1) as nat;
        let start = visited.with(pos);
        visited.lemma_with(pos);
        lemma_follow_once(occ, pos, Direction::Up, prefix, start, left);
        let (up, seen_up) = follow(occ, pos, Direction::Up, prefix, start, left);
        lemma_follow_once(occ, pos, Direction::Left, prefix, seen_up, left);
        let (lt, seen_lt) = follow(occ, pos, Direction::Left, prefix, seen_up, left);
        lemma_follow_once(occ, pos, Direction::Down, prefix, seen_lt, left);
        let (dn, seen_dn) = follow(occ, pos, Direction::Down, prefix, seen_lt, left);
        lemma_follow_once(occ, pos, Direction::Right, prefix, seen_dn, left);
        let (rt, seen_rt) = follow(occ, pos, Direction::Right, prefix, seen_dn, left);
        lemma_left_once_add(up, lt, prefix, pos, start, seen_up, seen_lt);
        lemma_left_once_add(up + lt, dn, prefix, pos, start, seen_lt, seen_dn);
        lemma_left_once_add(up + lt + dn, rt, prefix, pos, start, seen_dn, seen_rt);
        assert forall|k: int, i: int| 0 <= k < out.len() && base <= i < out[k].len() implies seen.contains(
            (#[trigger] out[k][i]).from,
        ) && !visited.contains(out[k][i].from) by {
            if i == base {
                assert(out[k][base].from == pos);
            }
        }
    }
}

/// The cells on which the sequences of `out` end.
pub open spec fn landings(out: Seq<Seq<Turn>>) -> Set<Position> {
    Set::new(
        |p: Position|
            exists|k: int| 0 <= k < out.len() && (#[trigger] out[k]).len() > 0 && out[k].last().to == p,
    )
}

/// Every visited cell that is not still open has all its jumps followed: their
/// landing cells are visited and among `reached`.
pub open spec fn followed(
    occ: PositionMask,
    visited: PositionMask,
    reached: Set<Position>,
    open: Set<Position>,
) -> bool {
    forall|v: Position, w: Position|
        visited.contains(v) && !open.contains(v) && #[trigger] is_jump(occ, v, w)
            ==> visited.contains(w) && reached.contains(w)
}

/// The sequences of two lists end where those of the one or of the other end.
pub proof fn lemma_landings_add(first: Seq<Seq<Turn>>, second: Seq<Seq<Turn>>)
    ensures
        landings(first + second) == landings(first).union(landings(second)),
{
    let both = first + second;
    assert forall|p: Position| landings(both).contains(p) == (landings(first).contains(p)
        || landings(second).contains(p)) by {
        if landings(both).contains(p) {
            let k = choose|k: int|
                0 <= k < both.len() && (#[trigger] both[k]).len() > 0 && both[k].last().to == p;
            if k < first.len() {
                assert(first[k] == both[k]);
            } else {
                assert(second[k - first.len()] == both[k]);
            }
        }
        if landings(first).contains(p) {
            let k = choose|k: int|
                0 <= k < first.len() && (#[trigger] first[k]).len() > 0 && first[k].last().to == p;
            assert(both[k] == first[k]);
        }
        if landings(second).contains(p) {
            let k = choose|k: int|
                0 <= k < second.len() && (#[trigger] second[k]).len() > 0 && second[k].last().to
                    == p;
            assert(both[k + first.len()] == second[k]);
        }
    }
    assert(landings(both) =~= landings(first).union(landings(second)));
}

/// Following a jump from an open cell leaves every cell that is not open with all
/// its jumps followed, and reaches the landing cell of the jump.
pub proof fn lemma_follow_reaches(
    occ: PositionMask,
    pos: Position,
    d: Direction,
    prefix: Seq<Turn>,
    visited: PositionMask,
    budget: nat,
    open: Set<Position>,
    reached: Set<Position>,
)
    requires
        pos.on_board(),
        visited.contains(pos),
        forall|p: Position| open.contains(p) ==> visited.contains(p),
        unvisited(visited) <= budget,
        followed(occ, visited, reached, open),
    ensures
        covers(follow(occ, pos, d, prefix, visited, budget).1, visited),
        followed(
            occ,
            follow(occ, pos, d, prefix, visited, budget).1,
            reached.union(landings(follow(occ, pos, d, prefix, visited, budget).0)),
            open,
        ),
        jump_target(occ, pos, d) matches Some(to) ==> follow(
            occ,
            pos,
            d,
            prefix,
            visited,
            budget,
        ).1.contains(to) && landings(follow(occ, pos, d, prefix, visited, budget).0).contains(to),
    decreases budget, 1nat,
{
    lemma_jump_target(occ, pos, d);
    let (out, seen) = follow(occ, pos, d, prefix, visited, budget);
    match jump_target(occ, pos, d) {
        Some(to) => {
            let hops = prefix.push(Turn { from: pos, to });
            lemma_walk_reaches(occ, to, hops, visited, budget, open, reached);
            let beyond = walk(occ, to, hops, visited, budget).0;
            lemma_landings_add(seq![hops], beyond);
            assert(seq![hops][0].last().to == to);
            assert(landings(seq![hops]).contains(to));
        },
        None => {
            assert(reached.union(landings(out)) =~= reached);
        },
    }
}

/// A walk from a cell leaves every cell that is not open with all its jumps
/// followed, and the cell itself visited.
pub proof fn lemma_walk_reaches(
    occ: PositionMask,
    pos: Position,
    prefix: Seq<Turn>,
    visited: PositionMask,
    budget: nat,
    open: Set<Position>,
    reached: Set<Position>,
)
    requires
        pos.on_board(),
        forall|p: Position| open.contains(p) ==> visited.contains(p),
        unvisited(visited) <= budget,
        followed(occ, visited, reached, open),
    ensures
        covers(walk(occ, pos, prefix, visited, budget).1, visited),
        walk(occ, pos, prefix, visited, budget).1.contains(pos),
        followed(
            occ,
            walk(occ, pos, prefix, visited, budget).1,
            reached.union(landings(walk(occ, pos, prefix, visited, budget).0)),
            open,
        ),
    decreases budget, 0nat,
{
    let (out, seen) = walk(occ, pos, prefix, visited, budget);
    if visited.contains(pos) {
        assert(reached.union(landings(out)) =~= reached);
    } else {
        visited.lemma_with(pos);
        visited.lemma_finite();
        visited.with(pos).lemma_finite();
        let left = (budget - 1) as nat;
        let start = visited.with(pos);
        let inner = open.insert(pos);
        lemma_follow_reaches(occ, pos, Direction::Up, prefix, start, left, inner, reached);
        let (up, seen_up) = follow(occ, pos, Direction::Up, prefix, start, left);
        let reached_up = reached.union(landings(up));
        lemma_mark_visited(visited, pos, seen_up);
        lemma_follow_reaches(occ, pos, Direction::Left, prefix, seen_up, left, inner, reached_up);
        let (lt, seen_lt) = follow(occ, pos, Direction::Left, prefix, seen_up, left);
        let reached_lt = reached_up.union(landings(lt));
        lemma_mark_visited(visited, pos, seen_lt);
        lemma_follow_reaches(occ, pos, Direction::Down, prefix, seen_lt, left, inner, reached_lt);
        let (dn, seen_dn) = follow(occ, pos, Direction::Down, prefix, seen_lt, left);
        let reached_dn = reached_lt.union(landings(dn));
        lemma_mark_visited(visited, pos, seen_dn);
        lemma_follow_reaches(occ, pos, Direction::Right, prefix, seen_dn, left, inner, reached_dn);
        let (rt, seen_rt) = follow(occ, pos, Direction::Right, prefix, seen_dn, left);
        let reached_rt = reached_dn.union(landings(rt));
        lemma_landings_add(up, lt);
        lemma_landings_add(up + lt, dn);
        lemma_landings_add(up + lt + dn, rt);
        assert(reached_rt =~= reached.union(landings(out)));
        assert forall|v: Position, w: Position|
            seen.contains(v) && !open.contains(v) && #[trigger] is_jump(occ, v, w) implies seen.contains(
            w,
        ) && reached_rt.contains(w) by {
            if v != pos {
                assert(!inner.contains(v));
            }
        }
    }
}

/// The landing cell of every hop of a chain of jumps can be reached by jumps from
/// the origin of the chain.
pub proof fn lemma_hops_reach(occ: PositionMask, origin: Position, hops: Seq<Turn>, k: int)
    requires
        is_hop_chain(occ, origin, hops),
        0 <= k < hops.len(),
    ensures
        jump_reachable(occ, origin, hops[k].to),
    decreases k,
{
    if k == 0 {
        lemma_jump_extends(occ, origin, origin, hops[0].to);
    } else {
        lemma_hops_reach(occ, origin, hops, k - 1);
        assert(hops[k - 1].to == hops[k - 1 + 1].from);
        lemma_jump_extends(occ, origin, hops[k].from, hops[k].to);
    }
}

/// Once no cell is open, every cell after the first of a chain of jumps from a
/// visited cell is among the cells reached.
pub proof fn lemma_followed_chain(
    occ: PositionMask,
    visited: PositionMask,
    reached: Set<Position>,
    path: Seq<Position>,
    k: int,
)
    requires
        followed(occ, visited, reached, Set::empty()),
        is_jump_chain(occ, path),
        visited.contains(path.first()),
        1 <= k < path.len(),
    ensures
        visited.contains(path[k]),
        reached.contains(path[k]),
    decreases k,
{
    if k > 1 {
        lemma_followed_chain(occ, visited, reached, path, k - 1);
    }
    assert(is_jump(occ, path[k - 1], path[k - 1 + 1]));
}

/// The single steps from `pos`: up, down, left and right.
pub open spec fn step_sequences(occ: PositionMask, pos: Position) -> Seq<Seq<Turn>> {
    step_sequence(occ, pos, Direction::Up) + step_sequence(occ, pos, Direction::Down)
        + step_sequence(occ, pos, Direction::Left) + step_sequence(occ, pos, Direction::Right)
}

/// The step sequences from a cell are single turns from it, and they end on exactly
/// the cells to which a step leads.
pub proof fn lemma_step_sequences(occ: PositionMask, pos: Position)
    requires
        pos.on_board(),
    ensures
        forall|k: int|
            0 <= k < step_sequences(occ, pos).len() ==> (#[trigger] step_sequences(occ, pos)[k]).len()
                == 1 && step_sequences(occ, pos)[k][0].from == pos && is_step(
                occ,
                pos,
                step_sequences(occ, pos)[k][0].to,
            ),
        forall|p: Position| landings(step_sequences(occ, pos)).contains(p) <==> is_step(occ, pos, p),
{
    let up = step_sequence(occ, pos, Direction::Up);
    let dn = step_sequence(occ, pos, Direction::Down);
    let lt = step_sequence(occ, pos, Direction::Left);
    let rt = step_sequence(occ, pos, Direction::Right);
    let steps = step_sequences(occ, pos);
    lemma_jump_target(occ, pos, Direction::Up);
    lemma_jump_target(occ, pos, Direction::Down);
    lemma_jump_target(occ, pos, Direction::Left);
    lemma_jump_target(occ, pos, Direction::Right);
    assert forall|k: int| 0 <= k < steps.len() implies (#[trigger] steps[k]).len() == 1
        && steps[k][0].from == pos && is_step(occ, pos, steps[k][0].to) by {
        if k < up.len() {
            assert(steps[k] == up[k]);
        } else if k < up.len() + dn.len() {
            assert(steps[k] == dn[k - up.len()]);
        } else if k < up.len() + dn.len() + lt.len() {
            assert(steps[k] == lt[k - up.len() - dn.len()]);
        } else {
            assert(steps[k] == rt[k - up.len() - dn.len() - lt.len()]);
        }
    }
    lemma_landings_add(up + dn + lt, rt);
    lemma_landings_add(up + dn, lt);
    lemma_landings_add(up, dn);
    assert forall|p: Position| landings(steps).contains(p) <==> is_step(occ, pos, p) by {
        if landings(steps).contains(p) {
            let k = choose|k: int|
                0 <= k < steps.len() && (#[trigger] steps[k]).len() > 0 && steps[k].last().to == p;
            assert(is_step(occ, pos, steps[k][0].to));
        }
        if is_step(occ, pos, p) {
            if step_target(occ, pos, Direction::Up) == Some(p) {
                assert(up[0].last().to == p);
                assert(landings(up).contains(p));
            } else if step_target(occ, pos, Direction::Down) == Some(p) {
                assert(dn[0].last().to == p);
                assert(landings(dn).contains(p));
            } else if step_target(occ, pos, Direction::Left) == Some(p) {
                assert(lt[0].last().to == p);
                assert(landings(lt).contains(p));
            } else {
                assert(rt[0].last().to == p);
                assert(landings(rt).contains(p));
            }
        }
    }
}

/// The chains of jumps that a walk from a cell finds are chains from it that leave
/// no cell twice; they end on exactly the cells that jumps lead to; and over all of
/// them every cell is left in one way only.
pub proof fn lemma_jump_walk(occ: PositionMask, pos: Position)
    requires
        pos.on_board(),
    ensures
        well_formed(occ, pos, walk(occ, pos, Seq::empty(), PositionMask(0), 64).0),
        forall|p: Position|
            landings(walk(occ, pos, Seq::empty(), PositionMask(0), 64).0).contains(p)
                <==> jump_reachable(occ, pos, p),
        left_once(walk(occ, pos, Seq::empty(), PositionMask(0), 64).0, 0),
{
    let empty = PositionMask(0);
    let jumps = walk(occ, pos, Seq::empty(), empty, 64).0;
    let seen = walk(occ, pos, Seq::empty(), empty, 64).1;
    PositionMask::lemma_empty();
    empty.lemma_finite();
    lemma_walk_once(occ, pos, Seq::empty(), empty, 64);
    lemma_walk_shape(occ, pos, pos, Seq::empty(), empty, 64);
    lemma_walk_reaches(occ, pos, Seq::empty(), empty, 64, Set::empty(), Set::empty());
    assert(Set::<Position>::empty().union(landings(jumps)) =~= landings(jumps));
    assert forall|p: Position| landings(jumps).contains(p) <==> jump_reachable(occ, pos, p) by {
        if landings(jumps).contains(p) {
            let k = choose|k: int|
                0 <= k < jumps.len() && (#[trigger] jumps[k]).len() > 0 && jumps[k].last().to == p;
            lemma_hops_reach(occ, pos, jumps[k], jumps[k].len() - 1);
        }
        if jump_reachable(occ, pos, p) {
            let path = choose|path: Seq<Position>|
                #[trigger] is_jump_chain(occ, path) && path.first() == pos && path.last() == p;
            lemma_followed_chain(occ, seen, landings(jumps), path, path.len() - 1);
        }
    }
}

impl BoardPosition {
    /// The sequences shown for a piece are single steps and chains of jumps from
    /// its cell that leave no cell twice, and they end on exactly the cells to
    /// which the piece can move. Over all chains every cell is left in one way
    /// only: the walk visits no cell twice.
    pub proof fn lemma_turn_sequences(self, pos: Position)
        requires
            pos.on_board(),
        ensures
            forall|k: int|
                0 <= k < self.turn_sequences(pos).len() ==> {
                    let hops = #[trigger] self.turn_sequences(pos)[k];
                    ||| hops.len() == 1 && hops[0].from == pos && is_step(
                        self.all_pieces(),
                        pos,
                        hops[0].to,
                    )
                    ||| is_hop_chain(self.all_pieces(), pos, hops) && distinct_origins(hops)
                        && hops.len() <= 64
                },
            forall|p: Position|
                landings(self.turn_sequences(pos)).contains(p) <==> can_reach(
                    self.all_pieces(),
                    pos,
                    p,
                ),
            left_once(self.jump_sequences(pos), 0),
    {
        let occ = self.all_pieces();
        let steps = step_sequences(occ, pos);
        let jumps = self.jump_sequences(pos);
        let all = self.turn_sequences(pos);
        lemma_step_sequences(occ, pos);
        lemma_jump_walk(occ, pos);
        lemma_landings_add(steps, jumps);
        assert(all =~= steps + jumps);
        assert forall|k: int| 0 <= k < all.len() implies {
            let hops = #[trigger] all[k];
            ||| hops.len() == 1 && hops[0].from == pos && is_step(occ, pos, hops[0].to)
            ||| is_hop_chain(occ, pos, hops) && distinct_origins(hops) && hops.len() <= 64
        } by {
            if k < steps.len() {
                assert(all[k] == steps[k]);
            } else {
                assert(all[k] == jumps[k - steps.len()]);
            }
        }
    }
}

/// A copy of the turns.
fn copy_turns(turns: &Vec<Turn>) -> (copy: Vec<Turn>)
    ensures
        copy@ == turns@,
{
    let mut copy: Vec<Turn> = Vec::new();
    let mut i: usize = 0;
    while i < turns.len()
        invariant
            i <= turns.len(),
            copy@ == turns@.take(i as int),
        decreases turns.len() - i,
    {
        copy.push(turns[i]);
        proof {
            assert(turns@.take(i + 1) =~= turns@.take(i as int).push(turns@[i as int]));
        }
        i += 1;
    }
    proof {
        assert(turns@.take(i as int) =~= turns@);
    }
    copy
}

/// Notes the single step from `pos` in direction `d`, if it can be made.
fn note_step(pos: Position, d: Direction, all_pieces: PositionMask, found: &mut Vec<Vec<Turn>>)
    requires
        pos.on_board(),
    ensures
        turn_lists(final(found)@) == turn_lists(old(found)@) + step_sequence(all_pieces, pos, d),
{
    proof {
        pos.lemma_step(d);
    }
    if let Some(new_pos) = pos.neighbour(d) {
        if !all_pieces.has_piece_at(new_pos) {
            let mut one: Vec<Turn> = Vec::new();
            one.push(Turn { from: pos, to: new_pos });
            found.push(one);
            proof {
                assert(one@ =~= seq![Turn { from: pos, to: new_pos }]);
                assert(turn_lists(found@) =~= turn_lists(old(found)@) + seq![one@]);
            }
            return ;
        }
    }
    proof {
        assert(turn_lists(found@) =~= turn_lists(old(found)@) + Seq::<Seq<Turn>>::empty());
    }
}

/// Follows the jump from `pos` in direction `d`, if there is one.
fn follow_jump(
    pos: Position,
    d: Direction,
    turn_stack: &mut Vec<Turn>,
    visited: &mut PositionMask,
    all_pieces: PositionMask,
    found: &mut Vec<Vec<Turn>>,
    Ghost(budget): Ghost<nat>,
)
    requires
        pos.on_board(),
        unvisited(*old(visited)) <= budget,
    ensures
        final(turn_stack)@ == old(turn_stack)@,
        covers(*final(visited), *old(visited)),
        *final(visited) == follow(all_pieces, pos, d, old(turn_stack)@, *old(visited), budget).1,
        turn_lists(final(found)@) == turn_lists(old(found)@) + follow(
            all_pieces,
            pos,
            d,
            old(turn_stack)@,
            *old(visited),
            budget,
        ).0,
    decreases budget, 1nat,
{
    proof {
        pos.lemma_step(d);
        lemma_jump_target(all_pieces, pos, d);
    }
    if let Some(joint_pos) = pos.neighbour(d) {
        proof {
            joint_pos.lemma_step(d);
        }
        if let Some(new_pos) = joint_pos.neighbour(d) {
            if all_pieces.has_piece_at(joint_pos) && !all_pieces.has_piece_at(new_pos) {
                turn_stack.push(Turn { from: pos, to: new_pos });
                let hops = copy_turns(turn_stack);
                found.push(hops);
                let ghost noted = found@;
                search_jumps(new_pos, turn_stack, visited, all_pieces, found, Ghost(budget));
                turn_stack.pop();
                proof {
                    let beyond = walk(all_pieces, new_pos, hops@, *old(visited), budget).0;
                    assert(turn_lists(noted) =~= turn_lists(old(found)@) + seq![hops@]);
                    assert(turn_lists(found@) =~= turn_lists(old(found)@) + (seq![hops@] + beyond));
                    assert(turn_stack@ =~= old(turn_stack)@);
                }
                return ;
            }
        }
    }
    proof {
        assert(turn_lists(found@) =~= turn_lists(old(found)@) + Seq::<Seq<Turn>>::empty());
    }
}

/// Marks `pos` as visited and notes every chain of jumps that leads on from it
/// through cells not yet visited.
#[verifier::rlimit(40)]
fn search_jumps(
    pos: Position,
    turn_stack: &mut Vec<Turn>,
    visited: &mut PositionMask,
    all_pieces: PositionMask,
    found: &mut Vec<Vec<Turn>>,
    Ghost(budget): Ghost<nat>,
)
    requires
        pos.on_board(),
        unvisited(*old(visited)) <= budget,
    ensures
        final(turn_stack)@ == old(turn_stack)@,
        covers(*final(visited), *old(visited)),
        *final(visited) == walk(all_pieces, pos, old(turn_stack)@, *old(visited), budget).1,
        turn_lists(final(found)@) == turn_lists(old(found)@) + walk(
            all_pieces,
            pos,
            old(turn_stack)@,
            *old(visited),
            budget,
        ).0,
    decreases budget, 0nat,
{
    if visited.has_piece_at(pos) {
        proof {
            assert(turn_lists(found@) =~= turn_lists(old(found)@) + Seq::<Seq<Turn>>::empty());
        }
        return ;
    }
    proof {
        visited.lemma_with(pos);
        visited.lemma_finite();
        visited.with(pos).lemma_finite();
    }
    let ghost left = (budget - 1) as nat;
    let ghost prefix = turn_stack@;
    let ghost start = visited.with(pos);
    visited.add_position(pos);
    follow_jump(pos, Direction::Up, turn_stack, visited, all_pieces, found, Ghost(left));
    let ghost seen_up = *visited;
    proof {
        crate::moves::lemma_mark_visited(*old(visited), pos, seen_up);
    }
    follow_jump(pos, Direction::Left, turn_stack, visited, all_pieces, found, Ghost(left));
    let ghost seen_lt = *visited;
    proof {
        crate::moves::lemma_mark_visited(*old(visited), pos, seen_lt);
    }
    follow_jump(pos, Direction::Down, turn_stack, visited, all_pieces, found, Ghost(left));
    let ghost seen_dn = *visited;
    proof {
        crate::moves::lemma_mark_visited(*old(visited), pos, seen_dn);
    }
    follow_jump(pos, Direction::Right, turn_stack, visited, all_pieces, found, Ghost(left));
    proof {
        let up = follow(all_pieces, pos, Direction::Up, prefix, start, left).0;
        let lt = follow(all_pieces, pos, Direction::Left, prefix, seen_up, left).0;
        let dn = follow(all_pieces, pos, Direction::Down, prefix, seen_lt, left).0;
        let rt = follow(all_pieces, pos, Direction::Right, prefix, seen_dn, left).0;
        assert(turn_lists(found@) =~= turn_lists(old(found)@) + (up + lt + dn + rt));
    }
}

impl BoardPosition {
    /// The ways to move the piece of `player_color` on `pos` hop by hop.
    pub fn generate_all_turns_seqences_for_pos(self, player_color: PieceColor, pos: Position) -> (found:
        Vec<Vec<Turn>>)
        requires
            self.pieces(player_color).contains(pos),
        ensures
            turn_lists(found@) == self.turn_sequences(pos),
            forall|k: int|
                0 <= k < found@.len() ==> {
                    let hops = (#[trigger] found@[k])@;
                    ||| hops.len() == 1 && hops[0].from == pos && is_step(
                        self.all_pieces(),
                        pos,
                        hops[0].to,
                    )
                    ||| is_hop_chain(self.all_pieces(), pos, hops) && distinct_origins(hops)
                        && hops.len() <= 64
                },
            forall|p: Position|
                landings(turn_lists(found@)).contains(p) <==> can_reach(self.all_pieces(), pos, p),
    {
        let all_pieces = self.all_pieces_mask();
        let mut found: Vec<Vec<Turn>> = Vec::new();
        proof {
            assert(turn_lists(found@) =~= Seq::<Seq<Turn>>::empty());
        }
        note_step(pos, Direction::Up, all_pieces, &mut found);
        note_step(pos, Direction::Down, all_pieces, &mut found);
        note_step(pos, Direction::Left, all_pieces, &mut found);
        note_step(pos, Direction::Right, all_pieces, &mut found);
        let mut turn_stack: Vec<Turn> = Vec::new();
        let mut visited = PositionMask(0);
        proof {
            visited.lemma_finite();
            assert(turn_stack@ =~= Seq::<Turn>::empty());
        }
        search_jumps(pos, &mut turn_stack, &mut visited, all_pieces, &mut found, Ghost(64));
        proof {
            assert(turn_lists(found@) =~= self.turn_sequences(pos));
            self.lemma_turn_sequences(pos);
            assert forall|k: int| 0 <= k < found@.len() implies {
                let hops = (#[trigger] found@[k])@;
                ||| hops.len() == 1 && hops[0].from == pos && is_step(
                    self.all_pieces(),
                    pos,
                    hops[0].to,
                )
                ||| is_hop_chain(self.all_pieces(), pos, hops) && distinct_origins(hops)
                    && hops.len() <= 64
            } by {
                assert(found@[k]@ == self.turn_sequences(pos)[k]);
            }
        }
        found
    }
}

} // verus!
