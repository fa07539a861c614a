//! Greedy packing of units into shards, and how good it is.

use crate::order;
use crate::sums;
use vstd::prelude::*;

verus! {

/// The duration of the listed units together.
pub open spec fn load(nanos: Seq<i64>, list: Seq<usize>) -> int {
    sums::total(list, duration(nanos))
}

/// The duration of a unit, as a weight.
pub open spec fn duration(nanos: Seq<i64>) -> spec_fn(usize) -> int {
    |u: usize| nanos[u as int] as int
}

/// The load of each shard.
pub open spec fn loads(nanos: Seq<i64>, shards: Seq<Seq<usize>>) -> Seq<int> {
    shards.map_values(|list: Seq<usize>| load(nanos, list))
}

/// The position of the least value, the first of them where several are equal.
pub open spec fn first_least(values: Seq<int>) -> int
    decreases values.len(),
{
    if values.len() <= 1 {
        0
    } else {
        let best = first_least(values.drop_last());
        if values.last() < values[best] {
            values.len() - 1
        } else {
            best
        }
    }
}

/// The shards after the units of `order` have been packed in turn, each into the
/// shard with the least load at that point, the first of them where several are
/// equal.
pub open spec fn packed(nanos: Seq<i64>, order: Seq<usize>, shards: nat) -> Seq<Seq<usize>>
    decreases order.len(),
{
    if order.len() == 0 {
        Seq::new(shards, |s: int| Seq::<usize>::empty())
    } else {
        let before = packed(nanos, order.drop_last(), shards);
        let s = first_least(loads(nanos, before));
        before.update(s, before[s].push(order.last()))
    }
}

/// How often `u` occurs in all the shards together.
pub open spec fn assigned(shards: Seq<Seq<usize>>, u: usize) -> int {
    sums::grand_total(shards, sums::hits(u))
}

/// What each unit adds to shard `s` under `place`: its duration or nothing.
pub open spec fn placed_share(nanos: Seq<i64>, place: Seq<int>, s: int) -> spec_fn(int) -> int {
    |i: int| if place[i] == s { nanos[i] as int } else { 0 }
}

/// The duration of the units that `place` puts into shard `s`.
pub open spec fn placed_load(nanos: Seq<i64>, place: Seq<int>, s: int) -> int {
    sums::sum_below(nanos.len(), placed_share(nanos, place, s))
}

/// `place` gives each unit one of the shards, and no shard gets more than
/// `limit` of work.
pub open spec fn fits(nanos: Seq<i64>, place: Seq<int>, shards: nat, limit: int) -> bool {
    &&& place.len() == nanos.len()
    &&& forall|i: int| 0 <= i < place.len() ==> 0 <= #[trigger] place[i] < shards
    &&& forall|s: int| 0 <= s < shards ==> #[trigger] placed_load(nanos, place, s) <= limit
}

/// No unit takes less than no time.
pub open spec fn nonnegative(nanos: Seq<i64>) -> bool {
    forall|i: int| 0 <= i < nanos.len() ==> #[trigger] nanos[i] >= 0
}

/// `first_least` is the first position whose value is the least.
pub proof fn first_least_is_least(values: Seq<int>)
    requires
        values.len() > 0,
    ensures
        0 <= first_least(values) < values.len(),
        forall|i: int| 0 <= i < values.len() ==> values[first_least(values)] <= #[trigger] values[i],
        forall|i: int|
            0 <= i < first_least(values) ==> values[first_least(values)] < #[trigger] values[i],
    decreases values.len(),
{
    if values.len() > 1 {
        let rest = values.drop_last();
        first_least_is_least(rest);
        let best = first_least(rest);
        assert forall|i: int| 0 <= i < values.len() implies values[first_least(values)]
            <= #[trigger] values[i] by {
            if i < rest.len() {
                assert(rest[i] == values[i]);
            }
            assert(rest[best] == values[best]);
        }
        assert forall|i: int| 0 <= i < first_least(values) implies values[first_least(values)]
            < #[trigger] values[i] by {
            assert(rest[i] == values[i]);
            assert(rest[best] == values[best]);
        }
    }
}

/// Packing keeps the number of shards.
pub proof fn packed_len(nanos: Seq<i64>, order: Seq<usize>, shards: nat)
    requires
        shards > 0 || order.len() == 0,
    ensures
        packed(nanos, order, shards).len() == shards,
    decreases order.len(),
{
    if order.len() > 0 {
        packed_len(nanos, order.drop_last(), shards);
        first_least_is_least(loads(nanos, packed(nanos, order.drop_last(), shards)));
    }
}

/// Whatever is added up over the units of the shards is the same as over the
/// units that were packed.
pub proof fn packed_total(
    nanos: Seq<i64>,
    order: Seq<usize>,
    shards: nat,
    w: spec_fn(usize) -> int,
)
    requires
        shards > 0,
    ensures
        sums::grand_total(packed(nanos, order, shards), w) == sums::total(order, w),
    decreases order.len(),
{
    let after = packed(nanos, order, shards);
    let g = |s: int| sums::total(after[s], w);
    packed_len(nanos, order, shards);
    if order.len() == 0 {
        sums::sum_below_const(shards, 0);
        assert(shards * 0 == 0);
        sums::sum_below_eq(shards, g, |s: int| 0);
    } else {
        let rest = order.drop_last();
        let before = packed(nanos, rest, shards);
        let f = |s: int| sums::total(before[s], w);
        packed_total(nanos, rest, shards, w);
        packed_len(nanos, rest, shards);
        let s = first_least(loads(nanos, before));
        first_least_is_least(loads(nanos, before));
        assert(after[s].drop_last() == before[s]);
        sums::sum_below_change(shards, f, g, s);
    }
}

/// Packing loses no unit and repeats none: together the shards hold each unit as
/// often as the order does.
pub proof fn packing_keeps_every_unit(nanos: Seq<i64>, order: Seq<usize>, shards: nat, u: usize)
    requires
        shards > 0,
    ensures
        assigned(packed(nanos, order, shards), u) == sums::occurrences(order, u),
{
    packed_total(nanos, order, shards, sums::hits(u));
}

/// A sorted order holds no unit twice.
pub proof fn sorted_has_no_duplicates(nanos: Seq<i64>, order: Seq<usize>)
    requires
        order::sorts(nanos, order),
    ensures
        order.no_duplicates(),
{
    assert forall|i: int, j: int|
        0 <= i < order.len() && 0 <= j < order.len() && i != j implies order[i] != order[j] by {
        if i < j {
            assert(order::precedes(nanos, order[i] as int, order[j] as int));
        } else {
            assert(order::precedes(nanos, order[j] as int, order[i] as int));
        }
    }
}

/// Every unit is assigned exactly once, and nothing else is assigned.
pub proof fn every_unit_is_assigned_once(
    nanos: Seq<i64>,
    order: Seq<usize>,
    shards: nat,
    u: usize,
)
    requires
        shards > 0,
        order::sorts(nanos, order),
        nanos.len() <= usize::MAX,
    ensures
        assigned(packed(nanos, order, shards), u) == (if u < nanos.len() { 1int } else { 0 }),
{
    packing_keeps_every_unit(nanos, order, shards, u);
    sorted_has_no_duplicates(nanos, order);
    let w = sums::hits(u);
    let n = nanos.len();
    sums::total_permutation(order, n, w);
    let f = |i: int| w(i as usize);
    let zero = |i: int| 0int;
    sums::sum_below_const(n, 0);
    assert(n * 0 == 0);
    if u < n {
        sums::sum_below_change(n, zero, f, u as int);
    } else {
        sums::sum_below_eq(n, zero, f);
    }
}

/// Weighs a unit twice if it leaves no room within `limit` for a further unit of
/// duration `t`.
spec fn crowding(nanos: Seq<i64>, t: int, limit: int) -> spec_fn(usize) -> int {
    |u: usize| if nanos[u as int] + t > limit { 2int } else { 1 }
}

/// Where every unit takes more than a third of the limit, a shard within the
/// limit holds at most two, and one that crowds out the others only itself.
proof fn crowding_within_limit(
    nanos: Seq<i64>,
    place: Seq<int>,
    list: Seq<usize>,
    s: int,
    t: int,
    limit: int,
)
    requires
        0 <= t,
        3 * t > limit,
        forall|i: int| 0 <= i < list.len() ==> nanos[#[trigger] list[i] as int] >= t,
    ensures
        ({
            let held = sums::total(list, sums::only_in(place, s, duration(nanos)));
            let weight = sums::total(list, sums::only_in(place, s, crowding(nanos, t, limit)));
            &&& held >= 0
            &&& weight >= 0
            &&& weight == 1 ==> held >= t
            &&& weight == 2 ==> held >= 2 * t || held + t > limit
            &&& weight >= 3 ==> held > limit
        }),
    decreases list.len(),
{
    if list.len() > 0 {
        let rest = list.drop_last();
        assert forall|i: int| 0 <= i < rest.len() implies nanos[#[trigger] rest[i] as int] >= t by {
            assert(rest[i] == list[i]);
        }
        crowding_within_limit(nanos, place, rest, s, t, limit);
        assert(list[list.len() - 1] == list.last());
    }
}

/// The part of any fitting placement that lies in one shard, over the first
/// units of the order only, is within the limit too.
proof fn placed_part(
    nanos: Seq<i64>,
    order: Seq<usize>,
    place: Seq<int>,
    shards: nat,
    limit: int,
    k: int,
    s: int,
)
    requires
        nonnegative(nanos),
        nanos.len() <= usize::MAX,
        order::sorts(nanos, order),
        fits(nanos, place, shards, limit),
        0 <= k <= nanos.len(),
        0 <= s < shards,
    ensures
        sums::total(order.take(k), sums::only_in(place, s, duration(nanos))) <= limit,
{
    let w = sums::only_in(place, s, duration(nanos));
    sorted_has_no_duplicates(nanos, order);
    sums::total_permutation(order, nanos.len(), w);
    sums::total_take(order, k, w);
    let f = |i: int| w(i as usize);
    sums::sum_below_eq(nanos.len(), f, placed_share(nanos, place, s));
    assert(placed_load(nanos, place, s) <= limit);
}

/// One more unit, packed into the least loaded shard, stays within the bound.
proof fn packing_step(
    nanos: Seq<i64>,
    order: Seq<usize>,
    place: Seq<int>,
    shards: nat,
    limit: int,
    k: int,
)
    requires
        shards > 0,
        nonnegative(nanos),
        nanos.len() <= usize::MAX,
        order::sorts(nanos, order),
        fits(nanos, place, shards, limit),
        0 <= k < nanos.len(),
    ensures
        ({
            let all = loads(nanos, packed(nanos, order.take(k), shards));
            3 * shards * (all[first_least(all)] + nanos[order[k] as int]) <= (4 * shards - 1)
                * limit
        }),
{
    let m = shards;
    let done = order.take(k);
    let list = order.take(k + 1);
    let before = packed(nanos, done, m);
    let all = loads(nanos, before);
    let least = all[first_least(all)];
    let t = nanos[order[k] as int] as int;
    let dur = duration(nanos);
    packed_len(nanos, done, m);
    first_least_is_least(all);
    assert(list.drop_last() == done);
    assert(list.last() == order[k]);
    // Every unit up to this one takes at least as long.
    assert forall|i: int| 0 <= i < list.len() implies nanos[#[trigger] list[i] as int] >= t by {
        if i < k {
            assert(order::precedes(nanos, order[i] as int, order[k] as int));
        }
    }
    assert forall|i: int| 0 <= i < list.len() implies (#[trigger] list[i] as int) < place.len() && 0
        <= place[list[i] as int] < m by {
        assert(list[i] == order[i]);
    }
    // All of them together fit into the shards of the other placement.
    let part = |s: int| sums::total(list, sums::only_in(place, s, dur));
    assert forall|s: int| 0 <= s < m implies #[trigger] part(s) <= limit by {
        placed_part(nanos, order, place, m, limit, k + 1, s);
    }
    sums::total_split(list, place, m, dur);
    sums::sum_below_const(m, limit);
    sums::sum_below_le(m, part, |i: int| limit);
    let sum = sums::total(done, dur);
    assert(sum + t <= m * limit);
    // So does this one by itself.
    let home = place[order[k] as int];
    assert forall|i: int| 0 <= i < done.len() implies sums::only_in(place, home, dur)(
        #[trigger] done[i],
    ) >= 0 by {
        assert(done[i] == order[i]);
    }
    sums::total_nonnegative(done, sums::only_in(place, home, dur));
    assert(part(home) <= limit);
    assert(t <= limit);
    // The least load is at most the average.
    packed_total(nanos, done, m, dur);
    sums::sum_below_const(m, least);
    assert forall|s: int| 0 <= s < m implies least <= #[trigger] sums::total(before[s], dur) by {
        assert(all[s] == load(nanos, before[s]));
    }
    sums::sum_below_le(m, |i: int| least, |s: int| sums::total(before[s], dur));
    assert(m * least <= sum);
    if 3 * t <= limit {
        assert(3 * m * (least + t) <= (4 * m - 1) * limit) by (nonlinear_arith)
            requires
                m >= 1,
                m * least <= sum,
                sum + t <= m * limit,
                3 * t <= limit,
        ;
    } else {
        if least + t > limit {
            let weight = crowding(nanos, t, limit);
            let held = |s: int| sums::total(list, sums::only_in(place, s, weight));
            assert forall|s: int| 0 <= s < m implies #[trigger] held(s) <= 2 by {
                crowding_within_limit(nanos, place, list, s, t, limit);
                assert(part(s) <= limit);
            }
            sums::total_split(list, place, m, weight);
            sums::sum_below_const(m, 2);
            sums::sum_below_le(m, held, |i: int| 2);
            let own = |s: int| sums::total(before[s], weight);
            assert forall|s: int| 0 <= s < m implies #[trigger] own(s) >= 2 by {
                assert(all[s] >= least);
                crowded(nanos, before[s], t, limit);
            }
            sums::sum_below_le(m, |i: int| 2, own);
            packed_total(nanos, done, m, weight);
            assert(false);
        }
        assert(3 * m * (least + t) <= (4 * m - 1) * limit) by (nonlinear_arith)
            requires
                m >= 1,
                least + t <= limit,
                limit >= 0,
        ;
    }
}

/// A shard that has no room for a unit of duration `t` holds two units or one
/// that crowds it out.
proof fn crowded(nanos: Seq<i64>, list: Seq<usize>, t: int, limit: int)
    requires
        t <= limit,
        load(nanos, list) + t > limit,
    ensures
        sums::total(list, crowding(nanos, t, limit)) >= 2,
{
    let weight = crowding(nanos, t, limit);
    reveal_with_fuel(sums::total, 3);
    if list.len() > 0 {
        let rest = list.drop_last();
        if rest.len() > 0 {
            sums::total_nonnegative(rest.drop_last(), weight);
        }
    }
}

/// Packing the longest unit first stays within four thirds of the best possible:
/// if the units can be placed so that no shard gets more than `limit`, then each
/// of the `shards` packed shards gets at most `4/3 - 1/(3 * shards)` of `limit`.
pub proof fn longest_first_is_near_optimal(
    nanos: Seq<i64>,
    order: Seq<usize>,
    shards: nat,
    place: Seq<int>,
    limit: int,
    s: int,
)
    requires
        shards > 0,
        nonnegative(nanos),
        nanos.len() <= usize::MAX,
        order::sorts(nanos, order),
        fits(nanos, place, shards, limit),
        0 <= s < shards,
    ensures
        3 * shards * load(nanos, packed(nanos, order, shards)[s]) <= (4 * shards - 1) * limit,
{
    near_optimal_up_to(nanos, order, place, shards, limit, order.len() as int, s);
    assert(order.take(order.len() as int) == order);
}

proof fn near_optimal_up_to(
    nanos: Seq<i64>,
    order: Seq<usize>,
    place: Seq<int>,
    shards: nat,
    limit: int,
    k: int,
    s: int,
)
    requires
        shards > 0,
        nonnegative(nanos),
        nanos.len() <= usize::MAX,
        order::sorts(nanos, order),
        fits(nanos, place, shards, limit),
        0 <= k <= nanos.len(),
        0 <= s < shards,
    ensures
        3 * shards * load(nanos, packed(nanos, order.take(k), shards)[s]) <= (4 * shards - 1)
            * limit,
    decreases k,
{
    if k == 0 {
        placed_part(nanos, order, place, shards, limit, 0, s);
        assert((4 * shards - 1) * limit >= 0) by (nonlinear_arith)
            requires
                shards >= 1,
                limit >= 0,
        ;
        assert(3 * shards * 0 == 0);
    } else {
        near_optimal_up_to(nanos, order, place, shards, limit, k - 1, s);
        packing_step(nanos, order, place, shards, limit, k - 1);
        let done = order.take(k - 1);
        let before = packed(nanos, done, shards);
        packed_len(nanos, done, shards);
        first_least_is_least(loads(nanos, before));
        assert(order.take(k).drop_last() == done);
        let least = first_least(loads(nanos, before));
        if s == least {
            let after = packed(nanos, order.take(k), shards)[s];
            assert(after.drop_last() == before[s]);
            assert(after.last() == order[k - 1]);
        }
    }
}

/// How many shards hold no unit.
pub open spec fn empty_shards(shards: Seq<Seq<usize>>) -> int {
    sums::sum_below(shards.len(), is_empty_shard(shards))
}

/// Counts one for a shard that holds no unit.
pub open spec fn is_empty_shard(shards: Seq<Seq<usize>>) -> spec_fn(int) -> int {
    |s: int| if shards[s].len() == 0 { 1int } else { 0 }
}

/// No placement beats the perfectly divided total or the longest unit: a limit
/// that some placement keeps is at least as large as both.
pub proof fn limit_is_at_least_average_and_longest(
    nanos: Seq<i64>,
    shards: nat,
    place: Seq<int>,
    limit: int,
    u: int,
)
    requires
        shards > 0,
        nonnegative(nanos),
        nanos.len() <= usize::MAX,
        fits(nanos, place, shards, limit),
        0 <= u < nanos.len(),
    ensures
        nanos[u] <= limit,
        sums::sum_below(nanos.len(), |i: int| nanos[i] as int) <= shards * limit,
{
    let home = place[u];
    sums::sum_below_term(nanos.len(), placed_share(nanos, place, home), u);
    assert(placed_load(nanos, place, home) <= limit);
    let n = nanos.len();
    let list = Seq::new(n, |i: int| i as usize);
    assert forall|p: usize| p < n implies #[trigger] list.contains(p) by {
        assert(list[p as int] == p);
    }
    sums::total_permutation(list, n, duration(nanos));
    sums::total_split(list, place, shards, duration(nanos));
    let part = |s: int| sums::total(list, sums::only_in(place, s, duration(nanos)));
    assert forall|s: int| 0 <= s < shards implies #[trigger] part(s) <= limit by {
        let w = sums::only_in(place, s, duration(nanos));
        sums::total_permutation(list, n, w);
        let f = |i: int| w(i as usize);
        sums::sum_below_eq(n, f, placed_share(nanos, place, s));
        assert(placed_load(nanos, place, s) <= limit);
    }
    sums::sum_below_const(shards, limit);
    sums::sum_below_le(shards, part, |s: int| limit);
    let d = |i: int| duration(nanos)(i as usize);
    sums::sum_below_eq(n, d, |i: int| nanos[i] as int);
}

/// At most as many shards are used as there are units: the others stay empty.
pub proof fn spare_shards_stay_empty(nanos: Seq<i64>, order: Seq<usize>, shards: nat)
    requires
        shards > 0,
    ensures
        empty_shards(packed(nanos, order, shards)) >= shards - order.len(),
{
    let after = packed(nanos, order, shards);
    packed_len(nanos, order, shards);
    let ones = |u: usize| 1int;
    packed_total(nanos, order, shards, ones);
    sums::total_ones(order);
    let size = |s: int| sums::total(after[s], ones);
    let empty = is_empty_shard(after);
    assert forall|s: int| 0 <= s < shards implies 1 <= #[trigger] size(s) + empty(s) by {
        sums::total_ones(after[s]);
    }
    sums::sum_below_add(shards, size, empty);
    sums::sum_below_const(shards, 1);
    sums::sum_below_le(shards, |s: int| 1, |s: int| size(s) + empty(s));
}

/// With a shard for every unit, units that take time each get a shard of their
/// own, and exactly the spare shards stay empty.
pub proof fn enough_shards_keep_units_apart(nanos: Seq<i64>, order: Seq<usize>, shards: nat)
    requires
        shards > 0,
        order.len() <= shards,
        forall|i: int|
            0 <= i < order.len() ==> (#[trigger] order[i]) < nanos.len() && nanos[order[i] as int]
                > 0,
    ensures
        forall|s: int|
            0 <= s < shards ==> (#[trigger] packed(nanos, order, shards)[s]).len() <= 1,
        empty_shards(packed(nanos, order, shards)) == shards - order.len(),
    decreases order.len(),
{
    let after = packed(nanos, order, shards);
    let empty = is_empty_shard(after);
    packed_len(nanos, order, shards);
    if order.len() == 0 {
        sums::sum_below_const(shards, 1);
        sums::sum_below_eq(shards, |s: int| 1, empty);
    } else {
        let rest = order.drop_last();
        assert forall|i: int| 0 <= i < rest.len() implies (#[trigger] rest[i]) < nanos.len()
            && nanos[rest[i] as int] > 0 by {
            assert(rest[i] == order[i]);
        }
        enough_shards_keep_units_apart(nanos, rest, shards);
        let before = packed(nanos, rest, shards);
        let all = loads(nanos, before);
        packed_len(nanos, rest, shards);
        first_least_is_least(all);
        let s = first_least(all);
        if before[s].len() > 0 {
            // Then the shard was used while another one was empty.
            let was_empty = is_empty_shard(before);
            if forall|t: int| 0 <= t < shards ==> (#[trigger] before[t]).len() > 0 {
                sums::sum_below_const(shards, 0);
                assert(shards * 0 == 0);
                sums::sum_below_eq(shards, was_empty, |t: int| 0);
                assert(false);
            }
            let t = choose|t: int| 0 <= t < shards && (#[trigger] before[t]).len() == 0;
            assert(all[t] == 0);
            assert(before[s].drop_last().len() == 0);
            packed_entries(nanos, rest, shards, s, 0);
            let u = before[s][0];
            let x = choose|x: int| 0 <= x < rest.len() && rest[x] == u;
            assert(nanos[rest[x] as int] > 0);
            reveal_with_fuel(sums::total, 2);
            assert(before[s].last() == u);
            assert(all[s] == load(nanos, before[s]));
            assert(all[s] <= all[t]);
        }
        sums::sum_below_change(shards, is_empty_shard(before), empty, s);
    }
}

/// What the shards hold comes from the order.
pub proof fn packed_entries(nanos: Seq<i64>, order: Seq<usize>, shards: nat, s: int, i: int)
    requires
        shards > 0,
        0 <= s < shards,
        0 <= i < packed(nanos, order, shards)[s].len(),
    ensures
        order.contains(packed(nanos, order, shards)[s][i]),
    decreases order.len(),
{
    let after = packed(nanos, order, shards);
    if order.len() > 0 {
        let rest = order.drop_last();
        let before = packed(nanos, rest, shards);
        packed_len(nanos, rest, shards);
        first_least_is_least(loads(nanos, before));
        if i < before[s].len() {
            packed_entries(nanos, rest, shards, s, i);
            let x = choose|x: int| 0 <= x < rest.len() && rest[x] == before[s][i];
            assert(order[x] == after[s][i]);
        } else {
            assert(order[order.len() - 1] == after[s][i]);
        }
    }
}

proof fn equal_load(nanos: Seq<i64>, list: Seq<usize>, d: int)
    requires
        forall|i: int| 0 <= i < list.len() ==> nanos[#[trigger] list[i] as int] == d,
    ensures
        load(nanos, list) == list.len() * d,
    decreases list.len(),
{
    if list.len() > 0 {
        let rest = list.drop_last();
        assert forall|i: int| 0 <= i < rest.len() implies nanos[#[trigger] rest[i] as int] == d by {
            assert(rest[i] == list[i]);
        }
        equal_load(nanos, rest, d);
        assert(list[list.len() - 1] == list.last());
        assert(list.len() * d == rest.len() * d + d) by (nonlinear_arith)
            requires
                list.len() == rest.len() + 1,
        ;
    } else {
        assert(list.len() * d == 0) by (nonlinear_arith)
            requires
                list.len() == 0,
        ;
    }
}

/// Units that all take the same time, as where none has been measured, are split
/// by count: no shard gets two more units than another.
pub proof fn equal_units_are_split_by_count(
    nanos: Seq<i64>,
    order: Seq<usize>,
    shards: nat,
    d: int,
    s: int,
    t: int,
)
    requires
        d > 0,
        forall|i: int|
            0 <= i < order.len() ==> (#[trigger] order[i]) < nanos.len() && nanos[order[i] as int]
                == d,
        0 <= s < shards,
        0 <= t < shards,
    ensures
        packed(nanos, order, shards)[s].len() <= packed(nanos, order, shards)[t].len() + 1,
    decreases order.len(),
{
    if order.len() > 0 {
        let rest = order.drop_last();
        assert forall|i: int| 0 <= i < rest.len() implies (#[trigger] rest[i]) < nanos.len()
            && nanos[rest[i] as int] == d by {
            assert(rest[i] == order[i]);
        }
        equal_units_are_split_by_count(nanos, rest, shards, d, s, t);
        let before = packed(nanos, rest, shards);
        let all = loads(nanos, before);
        packed_len(nanos, rest, shards);
        first_least_is_least(all);
        let least = first_least(all);
        if s == least && s != t {
            equal_packed_load(nanos, rest, shards, d, s);
            equal_packed_load(nanos, rest, shards, d, t);
            assert(all[s] <= all[t]);
            assert(before[s].len() <= before[t].len()) by (nonlinear_arith)
                requires
                    before[s].len() * d <= before[t].len() * d,
                    d > 0,
            ;
        }
    }
}

proof fn equal_packed_load(nanos: Seq<i64>, order: Seq<usize>, shards: nat, d: int, s: int)
    requires
        forall|i: int|
            0 <= i < order.len() ==> (#[trigger] order[i]) < nanos.len() && nanos[order[i] as int]
                == d,
        0 <= s < shards,
    ensures
        load(nanos, packed(nanos, order, shards)[s]) == packed(nanos, order, shards)[s].len() * d,
{
    let list = packed(nanos, order, shards)[s];
    assert forall|i: int| 0 <= i < list.len() implies nanos[#[trigger] list[i] as int] == d by {
        packed_entries(nanos, order, shards, s, i);
        let x = choose|x: int| 0 <= x < order.len() && order[x] == list[i];
        assert(nanos[order[x] as int] == d);
    }
    equal_load(nanos, list, d);
}

/// A load is within what so many durations can add up to.
pub proof fn load_bounds(nanos: Seq<i64>, list: Seq<usize>)
    ensures
        list.len() * i64::MIN <= load(nanos, list) <= list.len() * i64::MAX,
    decreases list.len(),
{
    if list.len() > 0 {
        load_bounds(nanos, list.drop_last());
    }
}

/// No shard holds more units than were packed.
pub proof fn packed_sizes(nanos: Seq<i64>, order: Seq<usize>, shards: nat, s: int)
    requires
        shards > 0,
        0 <= s < shards,
    ensures
        packed(nanos, order, shards)[s].len() <= order.len(),
    decreases order.len(),
{
    if order.len() > 0 {
        packed_sizes(nanos, order.drop_last(), shards, s);
        packed_len(nanos, order.drop_last(), shards);
        first_least_is_least(loads(nanos, packed(nanos, order.drop_last(), shards)));
    }
}

/// A shard that holds, among others, all the units that a placement gives it has
/// at least their load.
proof fn placed_load_at_most(
    nanos: Seq<i64>,
    place: Seq<int>,
    s: int,
    list: Seq<usize>,
    k: nat,
)
    requires
        nonnegative(nanos),
        k <= nanos.len() <= usize::MAX,
        forall|i: int| 0 <= i < list.len() ==> (#[trigger] list[i]) < nanos.len(),
        forall|i: usize| i < k && place[i as int] == s ==> #[trigger] list.contains(i),
    ensures
        sums::sum_below(k, placed_share(nanos, place, s)) <= load(nanos, list),
    decreases k,
{
    assert forall|i: int| 0 <= i < list.len() implies duration(nanos)(#[trigger] list[i]) >= 0 by {
        assert(nanos[list[i] as int] >= 0);
    }
    if k == 0 {
        sums::total_nonnegative(list, duration(nanos));
    } else {
        let last = (k - 1) as usize;
        if place[k - 1] == s {
            assert(list.contains(last));
            let x = choose|x: int| 0 <= x < list.len() && list[x] == last;
            let rest = list.remove(x);
            assert forall|i: usize| i < k - 1 && place[i as int] == s implies
                #[trigger] rest.contains(i) by {
                assert(list.contains(i));
                let y = choose|y: int| 0 <= y < list.len() && list[y] == i;
                if y < x {
                    assert(rest[y] == i);
                } else {
                    assert(rest[y - 1] == i);
                }
            }
            assert forall|i: int| 0 <= i < rest.len() implies (#[trigger] rest[i])
                < nanos.len() by {
                let a = if i < x { i } else { i + 1 };
                assert(rest[i] == list[a]);
            }
            placed_load_at_most(nanos, place, s, rest, (k - 1) as nat);
            sums::total_remove(list, x, duration(nanos));
        } else {
            placed_load_at_most(nanos, place, s, list, (k - 1) as nat);
        }
    }
}

/// Shards that together hold every unit, each within `limit`, show that the units
/// can be placed within it.
pub proof fn shards_within_a_limit_fit(nanos: Seq<i64>, other: Seq<Seq<usize>>, limit: int) -> (
    place: Seq<int>)
    requires
        nonnegative(nanos),
        nanos.len() <= usize::MAX,
        forall|u: usize| u < nanos.len() ==> #[trigger] other.flatten().contains(u),
        forall|t: int, i: int|
            0 <= t < other.len() && 0 <= i < other[t].len() ==> (#[trigger] other[t][i])
                < nanos.len(),
        forall|t: int| 0 <= t < other.len() ==> load(nanos, #[trigger] other[t]) <= limit,
    ensures
        fits(nanos, place, other.len(), limit),
{
    let place = Seq::new(
        nanos.len(),
        |i: int| choose|t: int| 0 <= t < other.len() && (#[trigger] other[t]).contains(i as usize),
    );
    assert forall|i: int| 0 <= i < place.len() implies 0 <= #[trigger] place[i] < other.len()
        && other[place[i]].contains(i as usize) by {
        let u = i as usize;
        assert(other.flatten().contains(u));
        let t = flattened_from(other, u);
        assert(other[t].contains(u));
    }
    assert forall|s: int| 0 <= s < other.len() implies #[trigger] placed_load(nanos, place, s)
        <= limit by {
        let list = other[s];
        assert forall|i: int| 0 <= i < list.len() implies (#[trigger] list[i]) < nanos.len() by {
            assert(other[s][i] < nanos.len());
        }
        assert forall|i: usize| i < nanos.len() && place[i as int] == s implies
            #[trigger] list.contains(i) by {
            assert(other[place[i as int]].contains(i));
        }
        placed_load_at_most(nanos, place, s, list, nanos.len());
        assert(load(nanos, other[s]) <= limit);
    }
    place
}

proof fn flatten_with_one_more(lists: Seq<Seq<usize>>, s: int, u: usize)
    requires
        0 <= s < lists.len(),
    ensures
        lists.update(s, lists[s].push(u)).flatten().to_multiset()
            == lists.flatten().to_multiset().insert(u),
    decreases lists.len(),
{
    broadcast use vstd::seq_lib::group_to_multiset_ensures;

    let after = lists.update(s, lists[s].push(u));
    let rest = lists.drop_first();
    if s == 0 {
        assert(after.drop_first() == rest);
        let a = lists[0];
        let b = rest.flatten();
        assert(after.flatten() == a.push(u) + b);
        assert(a.push(u) + b == (a + b).insert(a.len() as int, u));
        assert(lists.flatten() == a + b);
    } else {
        assert(after.drop_first() == rest.update(s - 1, rest[s - 1].push(u)));
        flatten_with_one_more(rest, s - 1, u);
        let a = lists[0];
        let b = rest.flatten();
        let c = after.drop_first().flatten();
        vstd::seq_lib::lemma_multiset_commutative(a, b);
        vstd::seq_lib::lemma_multiset_commutative(a, c);
        assert(lists.flatten() == a + b);
        assert(after.flatten() == a + c);
        assert(a.to_multiset().add(b.to_multiset().insert(u)) =~= a.to_multiset().add(
            b.to_multiset(),
        ).insert(u));
    }
}

/// All the shards together hold what was packed, no more and no less.
pub proof fn packing_rearranges(nanos: Seq<i64>, order: Seq<usize>, shards: nat)
    requires
        shards > 0,
    ensures
        packed(nanos, order, shards).len() == shards,
        packed(nanos, order, shards).flatten().to_multiset() == order.to_multiset(),
    decreases order.len(),
{
    broadcast use vstd::seq_lib::group_to_multiset_ensures;

    packed_len(nanos, order, shards);
    if order.len() == 0 {
        empty_lists_flatten(packed(nanos, order, shards));
        assert(packed(nanos, order, shards).flatten() == order);
    } else {
        let rest = order.drop_last();
        let before = packed(nanos, rest, shards);
        packing_rearranges(nanos, rest, shards);
        let s = first_least(loads(nanos, before));
        first_least_is_least(loads(nanos, before));
        flatten_with_one_more(before, s, order.last());
        assert(order == rest.push(order.last()));
    }
}

proof fn empty_lists_flatten(lists: Seq<Seq<usize>>)
    requires
        forall|s: int| 0 <= s < lists.len() ==> (#[trigger] lists[s]).len() == 0,
    ensures
        lists.flatten().len() == 0,
    decreases lists.len(),
{
    if lists.len() > 0 {
        let rest = lists.drop_first();
        assert forall|s: int| 0 <= s < rest.len() implies (#[trigger] rest[s]).len() == 0 by {
            assert(rest[s] == lists[s + 1]);
        }
        empty_lists_flatten(rest);
        assert(lists[0].len() == 0);
    }
}


/// What is in lists one after the other is in one of them.
proof fn flattened_from(lists: Seq<Seq<usize>>, u: usize) -> (t: int)
    requires
        lists.flatten().contains(u),
    ensures
        0 <= t < lists.len(),
        lists[t].contains(u),
    decreases lists.len(),
{
    let flat = lists.flatten();
    let x = choose|x: int| 0 <= x < flat.len() && flat[x] == u;
    let rest = lists.drop_first();
    if x < lists[0].len() {
        assert(lists[0][x] == u);
        0
    } else {
        assert(rest.flatten()[x - lists[0].len()] == u);
        let t = flattened_from(rest, u);
        assert(rest[t] == lists[t + 1]);
        t + 1
    }
}


} // verus!
