use crate::coordinate::Position;
use vstd::prelude::*;

verus! {

/// The sum of `f` over `cells`.
pub open spec fn sum_over(cells: Seq<Position>, f: spec_fn(Position) -> int) -> int
    decreases cells.len(),
{
    if cells.len() == 0 {
        0
    } else {
        sum_over(cells.drop_last(), f) + f(cells.last())
    }
}

/// The least of `cap` and the values of `f` on `cells`.
pub open spec fn least_over(cells: Seq<Position>, f: spec_fn(Position) -> int, cap: int) -> int
    decreases cells.len(),
{
    if cells.len() == 0 {
        cap
    } else {
        let rest = least_over(cells.drop_last(), f, cap);
        if f(cells.last()) < rest {
            f(cells.last())
        } else {
            rest
        }
    }
}

/// The greatest of `floor` and the values of `f` on `cells`.
pub open spec fn greatest_over(cells: Seq<Position>, f: spec_fn(Position) -> int, floor: int) -> int
    decreases cells.len(),
{
    if cells.len() == 0 {
        floor
    } else {
        let rest = greatest_over(cells.drop_last(), f, floor);
        if f(cells.last()) > rest {
            f(cells.last())
        } else {
            rest
        }
    }
}

/// Taking one more cell of a list adds that cell to each of the three folds.
pub proof fn lemma_fold_step(cells: Seq<Position>, f: spec_fn(Position) -> int, i: int, start: int)
    requires
        0 <= i < cells.len(),
    ensures
        sum_over(cells.take(i + 1), f) == sum_over(cells.take(i), f) + f(cells[i]),
        least_over(cells.take(i + 1), f, start) == if f(cells[i]) < least_over(
            cells.take(i),
            f,
            start,
        ) {
            f(cells[i])
        } else {
            least_over(cells.take(i), f, start)
        },
        greatest_over(cells.take(i + 1), f, start) == if f(cells[i]) > greatest_over(
            cells.take(i),
            f,
            start,
        ) {
            f(cells[i])
        } else {
            greatest_over(cells.take(i), f, start)
        },
{
    assert(cells.take(i + 1).drop_last() =~= cells.take(i));
    assert(cells.take(i + 1).last() == cells[i]);
}

/// A sum of values between `low` and `high` lies between as many times `low` and
/// as many times `high`.
pub proof fn lemma_sum_bounds(cells: Seq<Position>, f: spec_fn(Position) -> int, low: int, high: int)
    requires
        forall|k: int| 0 <= k < cells.len() ==> low <= #[trigger] f(cells[k]) <= high,
    ensures
        cells.len() * low <= sum_over(cells, f) <= cells.len() * high,
    decreases cells.len(),
{
    if cells.len() > 0 {
        let head = cells.drop_last();
        assert forall|k: int| 0 <= k < head.len() implies low <= #[trigger] f(head[k]) <= high by {
            assert(head[k] == cells[k]);
        }
        lemma_sum_bounds(head, f, low, high);
        assert(low <= f(cells[cells.len() - 1]) <= high);
        assert(cells.len() * low == head.len() * low + low) by (nonlinear_arith)
            requires
                cells.len() == head.len() + 1,
        ;
        assert(cells.len() * high == head.len() * high + high) by (nonlinear_arith)
            requires
                cells.len() == head.len() + 1,
        ;
    }
}

/// A sum of values none of which is negative is not negative, and it is positive
/// exactly when one of the values is.
pub proof fn lemma_sum_positive(cells: Seq<Position>, f: spec_fn(Position) -> int)
    requires
        forall|k: int| 0 <= k < cells.len() ==> #[trigger] f(cells[k]) >= 0,
    ensures
        sum_over(cells, f) >= 0,
        sum_over(cells, f) > 0 <==> exists|k: int| 0 <= k < cells.len() && #[trigger] f(cells[k]) > 0,
    decreases cells.len(),
{
    if cells.len() > 0 {
        let head = cells.drop_last();
        let n = cells.len() - 1;
        assert forall|k: int| 0 <= k < head.len() implies #[trigger] f(head[k]) >= 0 by {
            assert(head[k] == cells[k]);
        }
        lemma_sum_positive(head, f);
        assert(f(cells[n]) >= 0);
        if sum_over(cells, f) > 0 {
            if f(cells[n]) > 0 {
            } else {
                let k = choose|k: int| 0 <= k < head.len() && #[trigger] f(head[k]) > 0;
                assert(head[k] == cells[k]);
            }
        }
        if exists|k: int| 0 <= k < cells.len() && #[trigger] f(cells[k]) > 0 {
            let k = choose|k: int| 0 <= k < cells.len() && #[trigger] f(cells[k]) > 0;
            if k < n {
                assert(head[k] == cells[k]);
            }
        }
    }
}

/// The least and the greatest value are the start value or a value of `f` on the
/// cells, and no value of `f` on the cells lies beyond them.
pub proof fn lemma_extremes(cells: Seq<Position>, f: spec_fn(Position) -> int, start: int)
    ensures
        least_over(cells, f, start) <= start,
        greatest_over(cells, f, start) >= start,
        forall|k: int| 0 <= k < cells.len() ==> least_over(cells, f, start) <= #[trigger] f(cells[k]),
        forall|k: int|
            0 <= k < cells.len() ==> greatest_over(cells, f, start) >= #[trigger] f(cells[k]),
        least_over(cells, f, start) == start || exists|k: int|
            0 <= k < cells.len() && least_over(cells, f, start) == #[trigger] f(cells[k]),
        greatest_over(cells, f, start) == start || exists|k: int|
            0 <= k < cells.len() && greatest_over(cells, f, start) == #[trigger] f(cells[k]),
    decreases cells.len(),
{
    if cells.len() > 0 {
        let head = cells.drop_last();
        let n = cells.len() - 1;
        lemma_extremes(head, f, start);
        assert forall|k: int| 0 <= k < cells.len() implies least_over(cells, f, start)
            <= #[trigger] f(cells[k]) && greatest_over(cells, f, start) >= f(cells[k]) by {
            if k < n {
                assert(head[k] == cells[k]);
            }
        }
        let low = least_over(cells, f, start);
        if low != start {
            if low == f(cells[n]) {
            } else {
                let k = choose|k: int|
                    0 <= k < head.len() && least_over(head, f, start) == #[trigger] f(head[k]);
                assert(head[k] == cells[k]);
            }
        }
        let high = greatest_over(cells, f, start);
        if high != start {
            if high == f(cells[n]) {
            } else {
                let k = choose|k: int|
                    0 <= k < head.len() && greatest_over(head, f, start) == #[trigger] f(head[k]);
                assert(head[k] == cells[k]);
            }
        }
    }
}

} // verus!
