use crate::color::PieceColor;
use crate::turn::Turn;
use vstd::prelude::*;

verus! {

/// `sorted` with `v` put in behind the last item that may stand before it, so that
/// items which rank equal keep the order in which they came.
pub open spec fn insert_by<T>(sorted: Seq<T>, v: T, before: spec_fn(T, T) -> bool) -> Seq<T>
    decreases sorted.len(),
{
    if sorted.len() == 0 {
        seq![v]
    } else if before(sorted.last(), v) {
        sorted.push(v)
    } else {
        insert_by(sorted.drop_last(), v, before).push(sorted.last())
    }
}

/// The items of `values` in the order that `before` asks for, equal ones in the
/// order in which they came.
pub open spec fn sort_by<T>(values: Seq<T>, before: spec_fn(T, T) -> bool) -> Seq<T>
    decreases values.len(),
{
    if values.len() == 0 {
        Seq::empty()
    } else {
        insert_by(sort_by(values.drop_last(), before), values.last(), before)
    }
}

/// Every two items are in order.
pub open spec fn in_order<T>(values: Seq<T>, before: spec_fn(T, T) -> bool) -> bool {
    forall|i: int, j: int| 0 <= i < j < values.len() ==> before(values[i], values[j])
}

/// `before` compares any two items one way or the other, and consistently.
pub open spec fn is_ranking<T>(before: spec_fn(T, T) -> bool) -> bool {
    &&& forall|a: T, b: T| #[trigger] before(a, b) || before(b, a)
    &&& forall|a: T, b: T, c: T| #[trigger] before(a, b) && #[trigger] before(b, c) ==> before(a, c)
}

/// Bytes by ascending value.
pub open spec fn byte_order() -> spec_fn(u8, u8) -> bool {
    |a: u8, b: u8| a <= b
}

/// Turns by descending progress for `player`.
pub open spec fn turn_order(player: PieceColor) -> spec_fn(Turn, Turn) -> bool {
    |a: Turn, b: Turn| a.progress(player) >= b.progress(player)
}

/// Putting an item into an ordered list keeps it ordered and adds just that item.
pub proof fn lemma_insert_by<T>(sorted: Seq<T>, v: T, before: spec_fn(T, T) -> bool)
    requires
        is_ranking(before),
        in_order(sorted, before),
    ensures
        in_order(insert_by(sorted, v, before), before),
        insert_by(sorted, v, before).len() == sorted.len() + 1,
        insert_by(sorted, v, before).to_multiset() == sorted.to_multiset().insert(v),
    decreases sorted.len(),
{
    broadcast use vstd::seq_lib::group_to_multiset_ensures;

    let out = insert_by(sorted, v, before);
    if sorted.len() == 0 {
        assert(sorted =~= Seq::<T>::empty());
        assert(out =~= Seq::<T>::empty().push(v));
    } else if before(sorted.last(), v) {
        assert forall|i: int, j: int| 0 <= i < j < out.len() implies before(out[i], out[j]) by {
            if j == sorted.len() && i < sorted.len() - 1 {
                assert(before(sorted[i], sorted.last()));
            }
        }
    } else {
        let head = sorted.drop_last();
        let last = sorted.last();
        let inner = insert_by(head, v, before);
        assert(in_order(head, before));
        lemma_insert_by(head, v, before);
        assert(sorted =~= head.push(last));
        assert(before(v, last));
        assert forall|i: int, j: int| 0 <= i < j < out.len() implies before(out[i], out[j]) by {
            if j == inner.len() {
                // every item of `inner` is `v` or an item of `head`
                assert(inner.to_multiset().count(inner[i]) > 0);
                if inner[i] != v {
                    assert(head.to_multiset().count(inner[i]) > 0);
                    assert(head.contains(inner[i]));
                    let k = choose|k: int| 0 <= k < head.len() && head[k] == inner[i];
                    assert(before(sorted[k], sorted[sorted.len() - 1]));
                }
            }
        }
        assert(out.to_multiset() =~= sorted.to_multiset().insert(v));
    }
}

/// The sorted list is in order and holds the same items as often as the list given.
pub proof fn lemma_sort_by<T>(values: Seq<T>, before: spec_fn(T, T) -> bool)
    requires
        is_ranking(before),
    ensures
        in_order(sort_by(values, before), before),
        sort_by(values, before).len() == values.len(),
        sort_by(values, before).to_multiset() == values.to_multiset(),
    decreases values.len(),
{
    broadcast use vstd::seq_lib::group_to_multiset_ensures;

    if values.len() == 0 {
        assert(values =~= Seq::<T>::empty());
    } else {
        let head = values.drop_last();
        lemma_sort_by(head, before);
        lemma_insert_by(sort_by(head, before), values.last(), before);
        assert(values =~= head.push(values.last()));
    }
}

/// What holds of every item given holds of every item of the sorted list.
pub proof fn lemma_sort_keeps<T>(
    values: Seq<T>,
    before: spec_fn(T, T) -> bool,
    holds: spec_fn(T) -> bool,
)
    requires
        is_ranking(before),
        forall|k: int| 0 <= k < values.len() ==> #[trigger] holds(values[k]),
    ensures
        sort_by(values, before).len() == values.len(),
        forall|k: int| 0 <= k < values.len() ==> #[trigger] holds(sort_by(values, before)[k]),
{
    broadcast use vstd::seq_lib::group_to_multiset_ensures;

    lemma_sort_by(values, before);
    let sorted = sort_by(values, before);
    assert forall|k: int| 0 <= k < values.len() implies #[trigger] holds(sorted[k]) by {
        assert(sorted.to_multiset().count(sorted[k]) > 0);
        assert(values.contains(sorted[k]));
        let j = choose|j: int| 0 <= j < values.len() && values[j] == sorted[k];
        assert(holds(values[j]));
    }
}

/// Both orders used here compare any two items, and consistently.
pub proof fn lemma_rankings(player: PieceColor)
    ensures
        is_ranking(byte_order()),
        is_ranking(turn_order(player)),
{
}

/// Sorts bytes by ascending value.
pub fn sort_ascending(values: &mut Vec<u8>)
    ensures
        final(values)@ == sort_by(old(values)@, byte_order()),
{
    let ghost given = values@;
    let ghost before = byte_order();
    let n = values.len();
    let mut i: usize = 0;
    assert(given.take(0) =~= Seq::<u8>::empty());
    while i < n
        invariant
            i <= n,
            n == given.len(),
            values@.len() == n,
            before == byte_order(),
            values@.take(i as int) == sort_by(given.take(i as int), before),
            forall|k: int| i <= k < n ==> #[trigger] values@[k] == given[k],
        decreases n - i,
    {
        let key = values[i];
        let ghost sorted = values@.take(i as int);
        let mut j: usize = i;
        assert(sorted.take(j as int) =~= sorted);
        assert(sorted.subrange(j as int, i as int) =~= Seq::<u8>::empty());
        while j > 0 && values[j - 1] > key
            invariant
                j <= i < n,
                values@.len() == n,
                sorted.len() == i,
                before == byte_order(),
                forall|k: int| 0 <= k < j ==> #[trigger] values@[k] == sorted[k],
                forall|k: int| j < k <= i ==> #[trigger] values@[k] == sorted[k - 1],
                forall|k: int| i < k < n ==> #[trigger] values@[k] == given[k],
                insert_by(sorted, key, before) == insert_by(sorted.take(j as int), key, before)
                    + sorted.subrange(j as int, i as int),
            decreases j,
        {
            let ghost head = sorted.take(j as int);
            let moved = values[j - 1];
            values.set(j, moved);
            proof {
                assert(moved == head.last());
                assert(head.drop_last() =~= sorted.take(j - 1));
                assert(insert_by(head, key, before) == insert_by(
                    head.drop_last(),
                    key,
                    before,
                ).push(moved));
                assert(insert_by(head.drop_last(), key, before).push(moved) + sorted.subrange(
                    j as int,
                    i as int,
                ) =~= insert_by(head.drop_last(), key, before) + sorted.subrange(
                    j - 1,
                    i as int,
                ));
            }
            j -= 1;
        }
        values.set(j, key);
        proof {
            let head = sorted.take(j as int);
            assert(insert_by(head, key, before) == head.push(key)) by {
                if j > 0 {
                    assert(values@[j - 1] == head[j - 1]);
                } else {
                    assert(head.push(key) =~= seq![key]);
                }
            }
            assert(values@.take(i + 1) =~= head.push(key) + sorted.subrange(j as int, i as int));
            assert(given.take(i + 1).drop_last() =~= given.take(i as int));
            assert(given.take(i + 1).last() == key);
        }
        i += 1;
    }
    proof {
        assert(values@.take(n as int) =~= values@);
        assert(given.take(n as int) =~= given);
    }
}

/// Sorts turns by descending progress for `player`; turns of equal progress keep
/// their order.
pub fn sort_turns(values: &mut Vec<Turn>, player: PieceColor)
    ensures
        final(values)@ == sort_by(old(values)@, turn_order(player)),
{
    let ghost given = values@;
    let ghost before = turn_order(player);
    let n = values.len();
    let mut i: usize = 0;
    assert(given.take(0) =~= Seq::<Turn>::empty());
    while i < n
        invariant
            i <= n,
            n == given.len(),
            values@.len() == n,
            before == turn_order(player),
            values@.take(i as int) == sort_by(given.take(i as int), before),
            forall|k: int| i <= k < n ==> #[trigger] values@[k] == given[k],
        decreases n - i,
    {
        let key = values[i];
        let key_value = key.value_for(player);
        let ghost sorted = values@.take(i as int);
        let mut j: usize = i;
        assert(sorted.take(j as int) =~= sorted);
        assert(sorted.subrange(j as int, i as int) =~= Seq::<Turn>::empty());
        while j > 0 && values[j - 1].value_for(player) < key_value
            invariant
                j <= i < n,
                key_value == key.progress(player),
                values@.len() == n,
                sorted.len() == i,
                before == turn_order(player),
                forall|k: int| 0 <= k < j ==> #[trigger] values@[k] == sorted[k],
                forall|k: int| j < k <= i ==> #[trigger] values@[k] == sorted[k - 1],
                forall|k: int| i < k < n ==> #[trigger] values@[k] == given[k],
                insert_by(sorted, key, before) == insert_by(sorted.take(j as int), key, before)
                    + sorted.subrange(j as int, i as int),
            decreases j,
        {
            let ghost head = sorted.take(j as int);
            let moved = values[j - 1];
            values.set(j, moved);
            proof {
                assert(moved == head.last());
                assert(head.drop_last() =~= sorted.take(j - 1));
                assert(insert_by(head, key, before) == insert_by(
                    head.drop_last(),
                    key,
                    before,
                ).push(moved));
                assert(insert_by(head.drop_last(), key, before).push(moved) + sorted.subrange(
                    j as int,
                    i as int,
                ) =~= insert_by(head.drop_last(), key, before) + sorted.subrange(
                    j - 1,
                    i as int,
                ));
            }
            j -= 1;
        }
        values.set(j, key);
        proof {
            let head = sorted.take(j as int);
            assert(insert_by(head, key, before) == head.push(key)) by {
                if j > 0 {
                    assert(values@[j - 1] == head[j - 1]);
                } else {
                    assert(head.push(key) =~= seq![key]);
                }
            }
            assert(values@.take(i + 1) =~= head.push(key) + sorted.subrange(j as int, i as int));
            assert(given.take(i + 1).drop_last() =~= given.take(i as int));
            assert(given.take(i + 1).last() == key);
        }
        i += 1;
    }
    proof {
        assert(values@.take(n as int) =~= values@);
        assert(given.take(n as int) =~= given);
    }
}

} // verus!
