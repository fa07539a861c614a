//! The median of a list of durations.

use crate::order;
use crate::sums;
use vstd::prelude::*;

verus! {

/// `a` is at most `b`.
pub open spec fn at_most() -> spec_fn(i64, i64) -> bool {
    |a: i64, b: i64| a <= b
}

/// Twice the median: the middle value twice, or the sum of the two middle values.
/// Doubled, the mean of two whole numbers is whole.
pub open spec fn twice_median_of(values: Seq<i64>) -> int
    recommends
        values.len() > 0,
{
    let sorted = values.sort_by(at_most());
    let mid = values.len() as int / 2;
    if values.len() % 2 == 0 {
        sorted[mid - 1] + sorted[mid]
    } else {
        2 * sorted[mid]
    }
}

/// The values in the order of the given positions.
spec fn picked(values: Seq<i64>, list: Seq<usize>) -> Seq<i64> {
    list.map_values(|u: usize| values[u as int])
}

proof fn picked_is_a_permutation(values: Seq<i64>, list: Seq<usize>)
    requires
        list.len() == values.len(),
        values.len() <= usize::MAX,
        list.no_duplicates(),
        forall|p: usize| p < values.len() ==> #[trigger] list.contains(p),
        forall|i: int| 0 <= i < list.len() ==> (#[trigger] list[i]) < values.len(),
    ensures
        picked(values, list).to_multiset() == values.to_multiset(),
{
    sums::picking_all_is_a_permutation(values, list, picked(values, list));
}

/// Sorting the positions sorts the values: read from the end, they ascend.
proof fn sorted_positions_sort_values(values: Seq<i64>, order: Seq<usize>)
    requires
        values.len() <= usize::MAX,
        order::sorts(values, order),
    ensures
        values.sort_by(at_most()).len() == values.len(),
        forall|i: int|
            0 <= i < values.len() ==> #[trigger] values.sort_by(at_most())[i] == values[order[order.len()
                - 1 - i] as int],
{
    broadcast use vstd::seq_lib::group_to_multiset_ensures;

    let n = values.len();
    let list = Seq::new(n, |i: int| order[n - 1 - i]);
    let up = picked(values, list);
    assert forall|i: int, j: int|
        0 <= i < list.len() && 0 <= j < list.len() && i != j implies list[i] != list[j] by {
        let a = n - 1 - i;
        let b = n - 1 - j;
        if a < b {
            assert(order::precedes(values, order[a] as int, order[b] as int));
        } else {
            assert(order::precedes(values, order[b] as int, order[a] as int));
        }
    }
    assert forall|p: usize| p < n implies #[trigger] list.contains(p) by {
        assert(order.contains(p));
        let x = choose|x: int| 0 <= x < order.len() && order[x] == p;
        assert(list[n - 1 - x] == p);
    }
    assert forall|i: int| 0 <= i < list.len() implies (#[trigger] list[i]) < n by {
        assert(order[n - 1 - i] < n);
    }
    picked_is_a_permutation(values, list);
    let leq = at_most();
    assert forall|i: int, j: int| 0 <= i < j < up.len() implies #[trigger] leq(up[i], up[j]) by {
        assert(order::precedes(values, order[n - 1 - j] as int, order[n - 1 - i] as int));
    }
    values.lemma_sort_by_ensures(leq);
    let sorted = values.sort_by(leq);
    vstd::seq_lib::lemma_sorted_unique(up, sorted, leq);
    assert forall|i: int| 0 <= i < n implies #[trigger] sorted[i] == values[order[order.len() - 1
        - i] as int] by {
        assert(up[i] == values[list[i] as int]);
    }
}

/// The median is in the middle: put the values in ascending order in any way, and
/// twice the median is the sum of the two values that are as near to the middle as
/// any, which for an odd number of values are one and the same.
pub proof fn the_median_is_in_the_middle(values: Seq<i64>, ascending: Seq<i64>)
    requires
        values.len() > 0,
        ascending.to_multiset() == values.to_multiset(),
        forall|i: int, j: int|
            0 <= i <= j < ascending.len() ==> #[trigger] ascending[i] <= #[trigger] ascending[j],
    ensures
        ascending.len() == values.len(),
        twice_median_of(values) == ascending[(values.len() - 1) / 2] + ascending[values.len() as int
            / 2],
{
    broadcast use vstd::seq_lib::group_to_multiset_ensures;

    let leq = at_most();
    assert(ascending.len() == ascending.to_multiset().len());
    values.lemma_sort_by_ensures(leq);
    assert forall|i: int, j: int| 0 <= i < j < ascending.len() implies #[trigger] leq(
        ascending[i],
        ascending[j],
    ) by {
        assert(ascending[i] <= ascending[j]);
    }
    vstd::seq_lib::lemma_sorted_unique(ascending, values.sort_by(leq), leq);
}

/// The median splits the values in half: at least half of them are at most the
/// median, and at least half of them are at least the median.
pub proof fn the_median_halves_the_values(values: Seq<i64>)
    requires
        values.len() > 0,
    ensures
        2 * values.filter(|v: i64| 2 * v <= twice_median_of(values)).len() >= values.len(),
        2 * values.filter(|v: i64| 2 * v >= twice_median_of(values)).len() >= values.len(),
{
    broadcast use vstd::seq_lib::group_to_multiset_ensures;

    let leq = at_most();
    let n = values.len() as int;
    let sorted = values.sort_by(leq);
    values.lemma_sort_by_ensures(leq);
    assert(sorted.len() == sorted.to_multiset().len());
    assert(values.len() == values.to_multiset().len());
    assert forall|i: int, j: int| 0 <= i <= j < n implies #[trigger] sorted[i]
        <= #[trigger] sorted[j] by {
        if i < j {
            assert(leq(sorted[i], sorted[j]));
        }
    }
    the_median_is_in_the_middle(values, sorted);
    let low = (n - 1) / 2;
    let high = n / 2;
    let below = |v: i64| 2 * v <= twice_median_of(values);
    let above = |v: i64| 2 * v >= twice_median_of(values);
    let front = sorted.take(low + 1);
    let back = sorted.skip(high);
    assert forall|i: int| 0 <= i < front.len() implies below(#[trigger] front[i]) by {
        assert(sorted[i] <= sorted[low]);
        assert(sorted[low] <= sorted[high]);
    }
    assert forall|i: int| 0 <= i < back.len() implies above(#[trigger] back[i]) by {
        assert(sorted[high] <= sorted[high + i]);
        assert(sorted[low] <= sorted[high]);
    }
    sums::filter_keeps_all(front, below);
    sums::filter_keeps_all(back, above);
    assert(sorted == front + sorted.skip(low + 1));
    Seq::filter_distributes_over_add(front, sorted.skip(low + 1), below);
    assert(sorted == sorted.take(high) + back);
    Seq::filter_distributes_over_add(sorted.take(high), back, above);
    sums::filter_of_a_permutation(sorted, values, below);
    sums::filter_of_a_permutation(sorted, values, above);
}

/// Of three values or more, raising the largest leaves the median as it was.
pub proof fn raising_the_largest_keeps_the_median(values: Seq<i64>, i: int, raised: i64)
    requires
        values.len() >= 3,
        0 <= i < values.len(),
        forall|j: int| 0 <= j < values.len() ==> (#[trigger] values[j]) <= values[i],
        raised >= values[i],
    ensures
        twice_median_of(values.update(i, raised)) == twice_median_of(values),
{
    broadcast use vstd::seq_lib::group_to_multiset_ensures;

    let leq = at_most();
    let n = values.len() as int;
    let sorted = values.sort_by(leq);
    let after = values.update(i, raised);
    values.lemma_sort_by_ensures(leq);
    after.lemma_sort_by_ensures(leq);
    assert(sorted.len() == n) by {
        assert(sorted.to_multiset().len() == values.to_multiset().len());
    }
    assert(sorted.last() == values[i]) by {
        assert(values.contains(values[i]));
        assert(sorted.to_multiset().contains(values[i]));
        assert(sorted.contains(values[i]));
        let x = choose|x: int| 0 <= x < n && sorted[x] == values[i];
        if x < n - 1 {
            assert(leq(sorted[x], sorted[n - 1]));
        }
        assert(sorted.contains(sorted.last()));
        assert(values.to_multiset().contains(sorted.last()));
        assert(values.contains(sorted.last()));
    }
    let up = sorted.update(n - 1, raised);
    assert(up.to_multiset() == after.to_multiset()) by {
        vstd::seq_lib::to_multiset_update(sorted, n - 1, raised);
        vstd::seq_lib::to_multiset_update(values, i, raised);
    }
    assert forall|a: int, b: int| 0 <= a < b < up.len() implies #[trigger] leq(up[a], up[b]) by {
        assert(leq(sorted[a], sorted[b]));
    }
    vstd::seq_lib::lemma_sorted_unique(up, after.sort_by(leq), leq);
}

/// Twice the median of `values`.
pub fn twice_median(values: &Vec<i64>) -> (out: i128)
    requires
        values.len() > 0,
    ensures
        out == twice_median_of(values@),
{
    let positions = order::sort(values);
    proof {
        sorted_positions_sort_values(values@, positions@);
    }
    let n = values.len();
    let mid: usize = n / 2;
    let high: i64 = values[positions[n - 1 - mid]];
    let ghost sorted = values@.sort_by(at_most());
    assert(sorted[mid as int] == high);
    if n % 2 == 0 {
        let low: i64 = values[positions[n - mid]];
        assert(sorted[mid - 1] == low);
        low as i128 + high as i128
    } else {
        2 * high as i128
    }
}

} // verus!
