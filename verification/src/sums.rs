//! Finite sums over ranges and over lists of indices, and a fact about filters.

use vstd::prelude::*;

verus! {

/// The sum of `f(i)` over the `i` from zero up to `n`.
pub open spec fn sum_below(n: nat, f: spec_fn(int) -> int) -> int
    decreases n,
{
    if n == 0 {
        0
    } else {
        sum_below((n - 1) as nat, f) + f(n - 1)
    }
}

/// The sum of `w(u)` over the entries `u` of `list`.
pub open spec fn total(list: Seq<usize>, w: spec_fn(usize) -> int) -> int
    decreases list.len(),
{
    if list.len() == 0 {
        0
    } else {
        total(list.drop_last(), w) + w(list.last())
    }
}

/// The weight that counts the occurrences of `u`.
pub open spec fn hits(u: usize) -> spec_fn(usize) -> int {
    |x: usize| if x == u { 1int } else { 0 }
}

/// How often `u` occurs in `list`.
pub open spec fn occurrences(list: Seq<usize>, u: usize) -> int {
    total(list, hits(u))
}

/// The totals of several lists, together.
pub open spec fn grand_total(lists: Seq<Seq<usize>>, w: spec_fn(usize) -> int) -> int {
    sum_below(lists.len(), |s: int| total(lists[s], w))
}

/// The weight `w` of the entries that `place` puts into `s`, and no weight for
/// the others.
pub open spec fn only_in(place: Seq<int>, s: int, w: spec_fn(usize) -> int) -> spec_fn(
    usize,
) -> int {
    |u: usize| if place[u as int] == s { w(u) } else { 0 }
}

/// A sum is at most another whose terms are at least as large.
pub proof fn sum_below_le(n: nat, f: spec_fn(int) -> int, g: spec_fn(int) -> int)
    requires
        forall|i: int| 0 <= i < n ==> #[trigger] f(i) <= g(i),
    ensures
        sum_below(n, f) <= sum_below(n, g),
    decreases n,
{
    if n > 0 {
        sum_below_le((n - 1) as nat, f, g);
    }
}

/// Equal terms have equal sums.
pub proof fn sum_below_eq(n: nat, f: spec_fn(int) -> int, g: spec_fn(int) -> int)
    requires
        forall|i: int| 0 <= i < n ==> #[trigger] f(i) == g(i),
    ensures
        sum_below(n, f) == sum_below(n, g),
    decreases n,
{
    if n > 0 {
        sum_below_eq((n - 1) as nat, f, g);
    }
}

/// The sum of a constant.
pub proof fn sum_below_const(n: nat, c: int)
    ensures
        sum_below(n, |i: int| c) == n * c,
    decreases n,
{
    if n > 0 {
        sum_below_const((n - 1) as nat, c);
        assert(n * c == (n - 1) * c + c) by (nonlinear_arith);
    } else {
        assert(n * c == 0) by (nonlinear_arith)
            requires
                n == 0,
        ;
    }
}

/// A sum of sums.
pub proof fn sum_below_add(n: nat, f: spec_fn(int) -> int, g: spec_fn(int) -> int)
    ensures
        sum_below(n, |i: int| f(i) + g(i)) == sum_below(n, f) + sum_below(n, g),
    decreases n,
{
    if n > 0 {
        sum_below_add((n - 1) as nat, f, g);
    }
}

/// Changing one term changes the sum by as much.
pub proof fn sum_below_change(n: nat, f: spec_fn(int) -> int, g: spec_fn(int) -> int, k: int)
    requires
        0 <= k < n,
        forall|i: int| 0 <= i < n && i != k ==> #[trigger] f(i) == g(i),
    ensures
        sum_below(n, g) == sum_below(n, f) - f(k) + g(k),
    decreases n,
{
    if k == n - 1 {
        sum_below_eq((n - 1) as nat, f, g);
    } else {
        sum_below_change((n - 1) as nat, f, g, k);
    }
}

/// Each term of a sum of numbers that are not negative is at most the sum.
pub proof fn sum_below_term(n: nat, f: spec_fn(int) -> int, k: int)
    requires
        0 <= k < n,
        forall|i: int| 0 <= i < n ==> #[trigger] f(i) >= 0,
    ensures
        f(k) <= sum_below(n, f),
        sum_below(n, f) >= 0,
    decreases n,
{
    if k == n - 1 {
        sum_below_const((n - 1) as nat, 0);
        sum_below_le((n - 1) as nat, |i: int| 0, f);
        assert((n - 1) * 0 == 0);
        assert(f(n - 1) >= 0);
    } else {
        sum_below_term((n - 1) as nat, f, k);
        assert(f(n - 1) >= 0);
    }
}

/// The number of entries, as a total.
pub proof fn total_ones(list: Seq<usize>)
    ensures
        total(list, |u: usize| 1int) == list.len(),
    decreases list.len(),
{
    if list.len() > 0 {
        total_ones(list.drop_last());
    }
}

/// A total of weights that are not negative is not negative.
pub proof fn total_nonnegative(list: Seq<usize>, w: spec_fn(usize) -> int)
    requires
        forall|i: int| 0 <= i < list.len() ==> w(#[trigger] list[i]) >= 0,
    ensures
        total(list, w) >= 0,
    decreases list.len(),
{
    if list.len() > 0 {
        let rest = list.drop_last();
        assert forall|i: int| 0 <= i < rest.len() implies w(#[trigger] rest[i]) >= 0 by {
            assert(rest[i] == list[i]);
        }
        total_nonnegative(rest, w);
        assert(list[list.len() - 1] == list.last());
    }
}

/// The total over a part at the front is at most the total over the whole.
pub proof fn total_take(list: Seq<usize>, k: int, w: spec_fn(usize) -> int)
    requires
        0 <= k <= list.len(),
        forall|i: int| 0 <= i < list.len() ==> w(#[trigger] list[i]) >= 0,
    ensures
        total(list.take(k), w) <= total(list, w),
    decreases list.len(),
{
    if k == list.len() {
        assert(list.take(k) == list);
    } else {
        let rest = list.drop_last();
        assert forall|i: int| 0 <= i < rest.len() implies w(#[trigger] rest[i]) >= 0 by {
            assert(rest[i] == list[i]);
        }
        total_take(rest, k, w);
        assert(rest.take(k) == list.take(k));
        assert(list[list.len() - 1] == list.last());
    }
}

/// Taking one entry out lowers the total by its weight.
pub proof fn total_remove(list: Seq<usize>, x: int, w: spec_fn(usize) -> int)
    requires
        0 <= x < list.len(),
    ensures
        total(list, w) == total(list.remove(x), w) + w(list[x]),
    decreases list.len(),
{
    if x == list.len() - 1 {
        assert(list.remove(x) == list.drop_last());
    } else {
        total_remove(list.drop_last(), x, w);
        assert(list.remove(x).drop_last() == list.drop_last().remove(x));
        assert(list.remove(x).last() == list.last());
    }
}

/// Over a list that holds each index below `n` once, the total is the sum.
pub proof fn total_permutation(list: Seq<usize>, n: nat, w: spec_fn(usize) -> int)
    requires
        list.len() == n,
        n <= usize::MAX,
        list.no_duplicates(),
        forall|p: usize| p < n ==> #[trigger] list.contains(p),
    ensures
        total(list, w) == sum_below(n, |i: int| w(i as usize)),
    decreases n,
{
    if n > 0 {
        let last = (n - 1) as usize;
        assert(list.contains(last));
        let x = choose|x: int| 0 <= x < list.len() && list[x] == last;
        let rest = list.remove(x);
        assert forall|p: usize| p < n - 1 implies #[trigger] rest.contains(p) by {
            assert(list.contains(p));
            let y = choose|y: int| 0 <= y < list.len() && list[y] == p;
            if y < x {
                assert(rest[y] == p);
            } else {
                assert(rest[y - 1] == p);
            }
        }
        assert forall|i: int, j: int|
            0 <= i < rest.len() && 0 <= j < rest.len() && i != j implies rest[i] != rest[j] by {
            let a = if i < x { i } else { i + 1 };
            let b = if j < x { j } else { j + 1 };
            assert(list[a] != list[b]);
        }
        total_permutation(rest, (n - 1) as nat, w);
        total_remove(list, x, w);
    }
}

/// Splitting a total by where each entry is placed and adding up the parts gives
/// the total again.
pub proof fn total_split(list: Seq<usize>, place: Seq<int>, m: nat, w: spec_fn(usize) -> int)
    requires
        forall|i: int|
            0 <= i < list.len() ==> (#[trigger] list[i] as int) < place.len() && 0
                <= place[list[i] as int] < m,
    ensures
        sum_below(m, |s: int| total(list, only_in(place, s, w))) == total(list, w),
    decreases list.len(),
{
    let part = |s: int| total(list, only_in(place, s, w));
    if list.len() == 0 {
        sum_below_const(m, 0);
        assert(m * 0 == 0);
        sum_below_eq(m, part, |i: int| 0);
    } else {
        let rest = list.drop_last();
        let last = list.last();
        assert forall|i: int| 0 <= i < rest.len() implies (#[trigger] rest[i] as int) < place.len()
            && 0 <= place[rest[i] as int] < m by {
            assert(rest[i] == list[i]);
        }
        total_split(rest, place, m, w);
        let before = |s: int| total(rest, only_in(place, s, w));
        assert(list[list.len() - 1] == last);
        sum_below_change(m, before, part, place[last as int]);
    }
}

/// A sum of bounded terms is bounded.
pub proof fn sum_below_bounds(n: nat, f: spec_fn(int) -> int, low: int, high: int)
    requires
        forall|i: int| 0 <= i < n ==> low <= #[trigger] f(i) <= high,
    ensures
        n * low <= sum_below(n, f) <= n * high,
{
    sum_below_const(n, low);
    sum_below_const(n, high);
    sum_below_le(n, |i: int| low, f);
    sum_below_le(n, f, |i: int| high);
}

/// Of numbers that are not negative and add up to one, one is one and the others
/// are zero.
pub proof fn only_term(n: nat, f: spec_fn(int) -> int) -> (k: int)
    requires
        forall|i: int| 0 <= i < n ==> #[trigger] f(i) >= 0,
        sum_below(n, f) == 1,
    ensures
        0 <= k < n,
        f(k) == 1,
        forall|i: int| 0 <= i < n && i != k ==> #[trigger] f(i) == 0,
    decreases n,
{
    let m = (n - 1) as nat;
    if f(n - 1) == 0 {
        only_term(m, f)
    } else {
        if m > 0 {
            sum_below_term(m, f, 0);
        }
        assert forall|i: int| 0 <= i < n && i != n - 1 implies #[trigger] f(i) == 0 by {
            sum_below_term(m, f, i);
        }
        n - 1
    }
}

/// A filter that every entry passes keeps the list.
pub proof fn filter_keeps_all<A>(list: Seq<A>, p: spec_fn(A) -> bool)
    requires
        forall|i: int| 0 <= i < list.len() ==> p(#[trigger] list[i]),
    ensures
        list.filter(p) == list,
    decreases list.len(),
{
    reveal(Seq::filter);
    if list.len() > 0 {
        let rest = list.drop_last();
        assert forall|i: int| 0 <= i < rest.len() implies p(#[trigger] rest[i]) by {
            assert(rest[i] == list[i]);
        }
        filter_keeps_all(rest, p);
        assert(p(list[list.len() - 1]));
        assert(rest.push(list.last()) == list);
    }
}

/// A total is what folding the list adds up to, whatever the fold adds for each
/// entry.
pub proof fn total_is_fold(
    list: Seq<usize>,
    w: spec_fn(usize) -> int,
    f: spec_fn(int, usize) -> int,
)
    requires
        forall|sum: int, i: int|
            0 <= i < list.len() ==> #[trigger] f(sum, list[i]) == sum + w(list[i]),
    ensures
        list.fold_left(0int, f) == total(list, w),
    decreases list.len(),
{
    if list.len() > 0 {
        let rest = list.drop_last();
        assert forall|sum: int, i: int| 0 <= i < rest.len() implies #[trigger] f(sum, rest[i])
            == sum + w(rest[i]) by {
            assert(rest[i] == list[i]);
        }
        total_is_fold(rest, w, f);
        assert(f(rest.fold_left(0int, f), list[list.len() - 1]) == rest.fold_left(0int, f) + w(
            list[list.len() - 1],
        ));
    }
}

/// A sum over positions is what folding a list adds up to, whatever the fold adds
/// at each position.
pub proof fn sum_below_is_fold<A>(
    list: Seq<A>,
    g: spec_fn(int) -> int,
    f: spec_fn(int, A) -> int,
)
    requires
        forall|sum: int, i: int|
            0 <= i < list.len() ==> #[trigger] f(sum, list[i]) == sum + g(i),
    ensures
        list.fold_left(0int, f) == sum_below(list.len(), g),
    decreases list.len(),
{
    if list.len() > 0 {
        let rest = list.drop_last();
        assert forall|sum: int, i: int| 0 <= i < rest.len() implies #[trigger] f(sum, rest[i])
            == sum + g(i) by {
            assert(rest[i] == list[i]);
        }
        sum_below_is_fold(rest, g, f);
        assert(f(rest.fold_left(0int, f), list[list.len() - 1]) == rest.fold_left(0int, f) + g(
            list.len() - 1,
        ));
    }
}

/// Values taken at positions that are all positions, each once, are the values in
/// another order.
pub proof fn picking_all_is_a_permutation<A>(values: Seq<A>, list: Seq<usize>, picked: Seq<A>)
    requires
        list.len() == values.len(),
        picked.len() == list.len(),
        forall|i: int| 0 <= i < list.len() ==> #[trigger] picked[i] == values[list[i] as int],
        values.len() <= usize::MAX,
        list.no_duplicates(),
        forall|p: usize| p < values.len() ==> #[trigger] list.contains(p),
        forall|i: int| 0 <= i < list.len() ==> (#[trigger] list[i]) < values.len(),
    ensures
        picked.to_multiset() == values.to_multiset(),
    decreases values.len(),
{
    broadcast use vstd::seq_lib::group_to_multiset_ensures;

    let n = values.len();
    if n == 0 {
        assert(picked == values);
    } else {
        let last = (n - 1) as usize;
        assert(list.contains(last));
        let x = choose|x: int| 0 <= x < list.len() && list[x] == last;
        let rest = list.remove(x);
        let front = values.drop_last();
        assert forall|p: usize| p < n - 1 implies #[trigger] rest.contains(p) by {
            assert(list.contains(p));
            let y = choose|y: int| 0 <= y < list.len() && list[y] == p;
            if y < x {
                assert(rest[y] == p);
            } else {
                assert(rest[y - 1] == p);
            }
        }
        assert forall|i: int| 0 <= i < rest.len() implies (#[trigger] rest[i]) < n - 1 by {
            let a = if i < x { i } else { i + 1 };
            assert(rest[i] == list[a]);
            assert(list[a] != list[x]);
        }
        assert forall|i: int, j: int|
            0 <= i < rest.len() && 0 <= j < rest.len() && i != j implies rest[i] != rest[j] by {
            let a = if i < x { i } else { i + 1 };
            let b = if j < x { j } else { j + 1 };
            assert(list[a] != list[b]);
        }
        let left = picked.remove(x);
        assert forall|i: int| 0 <= i < rest.len() implies #[trigger] left[i]
            == front[rest[i] as int] by {
            let a = if i < x { i } else { i + 1 };
            assert(left[i] == picked[a]);
            assert(rest[i] == list[a]);
            assert(rest[i] < n - 1);
        }
        picking_all_is_a_permutation(front, rest, left);
        assert(picked[x] == values[n - 1]);
        assert(values == front.push(values[n - 1]));
        assert(picked.to_multiset().contains(picked[x])) by {
            assert(picked.contains(picked[x]));
        }
        assert(picked.to_multiset() =~= left.to_multiset().insert(picked[x]));
        assert(values.to_multiset() =~= front.to_multiset().insert(values[n - 1]));
    }
}


proof fn filter_without<A>(list: Seq<A>, p: spec_fn(A) -> bool, x: int)
    requires
        0 <= x < list.len(),
    ensures
        list.filter(p).len() == list.remove(x).filter(p).len() + (if p(list[x]) {
            1nat
        } else {
            0
        }),
    decreases list.len(),
{
    reveal(Seq::filter);
    let rest = list.drop_last();
    if x == list.len() - 1 {
        assert(list.remove(x) == rest);
    } else {
        filter_without(rest, p, x);
        assert(list.remove(x).drop_last() == rest.remove(x));
        assert(list.remove(x).last() == list.last());
    }
}

/// A filter keeps as many of the same values in another order.
pub proof fn filter_of_a_permutation<A>(a: Seq<A>, b: Seq<A>, p: spec_fn(A) -> bool)
    requires
        a.to_multiset() == b.to_multiset(),
    ensures
        a.filter(p).len() == b.filter(p).len(),
    decreases a.len(),
{
    broadcast use vstd::seq_lib::group_to_multiset_ensures;

    assert(a.len() == a.to_multiset().len());
    assert(b.len() == b.to_multiset().len());
    if a.len() == 0 {
        assert(a == b);
    } else {
        let last = a.len() - 1;
        assert(a.contains(a[last]));
        assert(b.to_multiset().contains(a[last]));
        assert(b.contains(a[last]));
        let x = choose|x: int| 0 <= x < b.len() && b[x] == a[last];
        assert(a.remove(last).to_multiset() == b.remove(x).to_multiset());
        filter_of_a_permutation(a.remove(last), b.remove(x), p);
        filter_without(a, p, last);
        filter_without(b, p, x);
    }
}


} // verus!
