//! Sorting by duration: longest first, equal durations in their given order.

use vstd::prelude::*;

verus! {

/// Whether the item at `a` comes before the item at `b`: it has the larger key,
/// or the same key and the smaller position.
pub open spec fn precedes(keys: Seq<i64>, a: int, b: int) -> bool {
    keys[a] > keys[b] || (keys[a] == keys[b] && a < b)
}

/// `order` holds each position from `from` up to `to` once, each before the
/// positions that it precedes.
pub open spec fn sorts_range(keys: Seq<i64>, order: Seq<usize>, from: int, to: int) -> bool {
    &&& order.len() == to - from
    &&& forall|i: int| 0 <= i < order.len() ==> from <= #[trigger] order[i] < to
    &&& forall|p: usize| from <= p < to ==> #[trigger] order.contains(p)
    &&& forall|i: int, j: int|
        0 <= i < j < order.len() ==> precedes(
            keys,
            #[trigger] order[i] as int,
            #[trigger] order[j] as int,
        )
}

/// `order` is the permutation of all positions that has the largest key first
/// and equal keys in the order of their positions.
pub open spec fn sorts(keys: Seq<i64>, order: Seq<usize>) -> bool {
    sorts_range(keys, order, 0, keys.len() as int)
}

/// The keys settle the order: no two sequences sort the same keys.
pub proof fn sorts_is_unique(keys: Seq<i64>, a: Seq<usize>, b: Seq<usize>)
    requires
        sorts(keys, a),
        sorts(keys, b),
    ensures
        a == b,
{
    assert forall|i: int| 0 <= i < a.len() implies a[i] == b[i] by {
        sorts_agree_at(keys, a, b, i);
    }
    assert(a == b);
}

proof fn sorts_agree_at(keys: Seq<i64>, a: Seq<usize>, b: Seq<usize>, i: int)
    requires
        sorts(keys, a),
        sorts(keys, b),
        0 <= i < a.len(),
    ensures
        a[i] == b[i],
    decreases i,
{
    assert forall|j: int| 0 <= j < i implies a[j] == b[j] by {
        sorts_agree_at(keys, a, b, j);
    }
    if a[i] != b[i] {
        assert(b.contains(a[i]));
        let x = choose|x: int| 0 <= x < b.len() && b[x] == a[i];
        assert(a.contains(b[i]));
        let y = choose|y: int| 0 <= y < a.len() && a[y] == b[i];
        if x < i {
            assert(precedes(keys, a[x] as int, a[i] as int));
        }
        if y < i {
            assert(precedes(keys, b[y] as int, b[i] as int));
        }
        assert(precedes(keys, b[i] as int, b[x] as int));
        assert(precedes(keys, a[i] as int, a[y] as int));
    }
}

fn merge(keys: &Vec<i64>, a: Vec<usize>, b: Vec<usize>, from: usize, mid: usize, to: usize) -> (out:
    Vec<usize>)
    requires
        from <= mid <= to <= keys.len(),
        sorts_range(keys@, a@, from as int, mid as int),
        sorts_range(keys@, b@, mid as int, to as int),
    ensures
        sorts_range(keys@, out@, from as int, to as int),
{
    let mut out: Vec<usize> = Vec::new();
    let mut i: usize = 0;
    let mut j: usize = 0;
    while i < a.len() || j < b.len()
        invariant
            from <= mid <= to <= keys.len(),
            sorts_range(keys@, a@, from as int, mid as int),
            sorts_range(keys@, b@, mid as int, to as int),
            i <= a.len(),
            j <= b.len(),
            out.len() == i + j,
            forall|x: int| 0 <= x < out.len() ==> from <= #[trigger] out[x] < to,
            forall|x: int| 0 <= x < i ==> out@.contains(#[trigger] a@[x]),
            forall|x: int| 0 <= x < j ==> out@.contains(#[trigger] b@[x]),
            forall|x: int, y: int|
                0 <= x < y < out.len() ==> precedes(
                    keys@,
                    #[trigger] out[x] as int,
                    #[trigger] out[y] as int,
                ),
            forall|x: int, y: int|
                0 <= x < out.len() && i <= y < a.len() ==> precedes(
                    keys@,
                    #[trigger] out[x] as int,
                    #[trigger] a[y] as int,
                ),
            forall|x: int, y: int|
                0 <= x < out.len() && j <= y < b.len() ==> precedes(
                    keys@,
                    #[trigger] out[x] as int,
                    #[trigger] b[y] as int,
                ),
        decreases a.len() - i + b.len() - j,
    {
        let ghost before = out@;
        if j == b.len() || (i < a.len() && keys[a[i]] >= keys[b[j]]) {
            out.push(a[i]);
            i += 1;
        } else {
            out.push(b[j]);
            j += 1;
        }
        assert(out@ == before.push(out@.last()));
        assert(out@[before.len() as int] == out@.last());
        assert forall|p: usize| before.contains(p) implies out@.contains(p) by {
            let x = choose|x: int| 0 <= x < before.len() && before[x] == p;
            assert(out@[x] == p);
        }
    }
    assert forall|p: usize| from <= p < to implies #[trigger] out@.contains(p) by {
        if p < mid {
            assert(a@.contains(p));
            let x = choose|x: int| 0 <= x < a.len() && a@[x] == p;
            assert(out@.contains(a@[x]));
        } else {
            assert(b@.contains(p));
            let x = choose|x: int| 0 <= x < b.len() && b@[x] == p;
            assert(out@.contains(b@[x]));
        }
    }
    out
}

fn sort_range(keys: &Vec<i64>, from: usize, to: usize) -> (out: Vec<usize>)
    requires
        from <= to <= keys.len(),
    ensures
        sorts_range(keys@, out@, from as int, to as int),
    decreases to - from,
{
    if to - from < 2 {
        let mut out: Vec<usize> = Vec::new();
        if from < to {
            out.push(from);
            assert(out@[0] == from);
        }
        out
    } else {
        let mid: usize = from + (to - from) / 2;
        let a = sort_range(keys, from, mid);
        let b = sort_range(keys, mid, to);
        merge(keys, a, b, from, mid, to)
    }
}

/// The positions of `keys`, largest key first, equal keys in their given order.
pub fn sort(keys: &Vec<i64>) -> (out: Vec<usize>)
    ensures
        sorts(keys@, out@),
{
    sort_range(keys, 0, keys.len())
}

} // verus!
