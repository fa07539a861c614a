//! The plan phase: take the canonical list of units, choose a shard count, and
//! assign every unit to a shard.
//!
//! Durations are whole nanoseconds, so that sums of them are exact.

use crate::json;
use crate::order;
use crate::packing;
use crate::sums;
use crate::text;
use crate::timings::Timings;
use vstd::hash_set::StringHashSet;
use vstd::prelude::*;
use vstd::string::*;

verus! {

/// What a plan is made for.
#[derive(Debug)]
pub struct PlanArgs {
    /// Work to aim for per shard, excluding fixed job overhead.
    pub target_nanos: i64,
    /// Duration assumed for a unit that has no recorded timing.
    pub default_nanos: i64,
    /// The least number of shards.
    pub min_shards: usize,
    /// The greatest number of shards.
    pub max_shards: usize,
}

/// One unit of the suite.
#[derive(Debug)]
pub struct Unit {
    /// What the enumerate hook printed.
    pub id: String,
    /// How long the unit is expected to take.
    pub nanos: i64,
    /// False when `nanos` is the default rather than a measurement. Balance
    /// quality is only as good as this fraction.
    pub measured: bool,
}

/// The plan of one workflow run.
#[derive(Debug)]
pub struct Plan {
    /// The canonical universe, in enumeration order. A unit's index here is its
    /// identity everywhere else.
    pub units: Vec<Unit>,
    /// Unit indices, longest unit first.
    pub order: Vec<usize>,
    /// The number of shards.
    pub shards: usize,
    /// The expected duration of all units together.
    pub total_nanos: i128,
    /// The part of it that is backed by a measurement.
    pub measured_nanos: i128,
    /// Shard index to unit indices.
    pub assignment: Vec<Vec<usize>>,
}

/// Why there is no plan.
#[derive(Debug)]
pub enum PlanError {
    /// The least number of shards is zero.
    NoMinimum,
    /// The greatest number of shards is below the least.
    MaximumBelowMinimum { max: usize, min: usize },
    /// The enumerate hook printed this id a second time.
    DuplicateUnit { id: String },
    /// The enumerate hook printed no id.
    NoUnits,
}

impl Clone for Unit {
    fn clone(&self) -> (unit: Unit)
        ensures
            unit == *self,
    {
        Unit { id: self.id.clone(), nanos: self.nanos, measured: self.measured }
    }
}

/// The ids that the lines name: trimmed, blank lines left out.
pub open spec fn ids_on(lines: Seq<Seq<char>>) -> Seq<Seq<char>> {
    lines.map_values(|line: Seq<char>| text::trimmed(line)).filter(
        |id: Seq<char>| id.len() > 0,
    )
}

/// The ids that an enumerate hook printed, in order.
pub open spec fn unit_ids(raw: Seq<char>) -> Seq<Seq<char>> {
    ids_on(text::lines_of(raw))
}

/// `id` is the first of `ids` that was there before.
pub open spec fn first_repeated(ids: Seq<Seq<char>>, id: Seq<char>) -> bool {
    exists|i: int|
        0 <= i < ids.len() && #[trigger] ids[i] == id && ids.take(i).contains(id) && ids.take(
            i,
        ).no_duplicates()
}

/// The durations of the units.
pub open spec fn durations(units: Seq<Unit>) -> Seq<i64> {
    units.map_values(|u: Unit| u.nanos)
}

/// The contents of the lists.
pub open spec fn lists(lists: Seq<Vec<usize>>) -> Seq<Seq<usize>> {
    lists.map_values(|list: Vec<usize>| list@)
}

/// Parses one unit id per line, rejecting duplicates.
///
/// A duplicate id would break identity: two distinct units sharing a key means
/// timings collide and "did every unit run exactly once" stops being answerable.
/// An empty suite is refused as well.
pub fn parse_units(raw: &str) -> (out: Result<Vec<String>, PlanError>)
    ensures
        match out {
            Ok(ids) => {
                &&& text::views(ids@) == unit_ids(raw@)
                &&& ids.len() > 0
                &&& unit_ids(raw@).no_duplicates()
            },
            Err(PlanError::DuplicateUnit { id }) => {
                &&& first_repeated(unit_ids(raw@), id@)
                &&& exists|i: int, j: int|
                    #![trigger unit_ids(raw@)[i], unit_ids(raw@)[j]]
                    {
                        &&& 0 <= i < j < unit_ids(raw@).len()
                        &&& unit_ids(raw@)[i] == id@
                        &&& unit_ids(raw@)[j] == id@
                        &&& unit_ids(raw@).take(j).no_duplicates()
                    }
            },
            Err(PlanError::NoUnits) => unit_ids(raw@).len() == 0,
            Err(_) => false,
        },
{
    let lines = text::lines(raw);
    let ghost all = text::lines_of(raw@);
    let mut ids: Vec<String> = Vec::new();
    let mut seen = StringHashSet::new();
    let mut n: usize = 0;
    assert(ids_on(all.take(0)) == Seq::<Seq<char>>::empty());
    while n < lines.len()
        invariant
            n <= lines.len(),
            all == text::lines_of(raw@),
            text::views(lines@) == all,
            text::views(ids@) == ids_on(all.take(n as int)),
            ids_on(all.take(n as int)).no_duplicates(),
            forall|id: Seq<char>|
                seen@.contains(id) <==> ids_on(all.take(n as int)).contains(id),
        decreases lines.len() - n,
    {
        let id = text::trim(lines[n].as_str());
        let ghost before = ids_on(all.take(n as int));
        assert(all[n as int] == lines@[n as int]@);
        proof {
            ids_on_push(all, n as int);
        }
        if !id.as_str().is_empty() {
            if !seen.insert(id.clone()) {
                proof {
                    ids_on_prefix(all, n + 1);
                    let next = ids_on(all.take(n + 1));
                    assert(next[before.len() as int] == id@);
                    assert(unit_ids(raw@).subrange(0, next.len() as int) == next);
                    assert(unit_ids(raw@)[before.len() as int] == id@);
                    assert(unit_ids(raw@).take(before.len() as int) == before);
                    let x = choose|x: int| 0 <= x < before.len() && before[x] == id@;
                    assert(unit_ids(raw@).take(before.len() as int)[x] == unit_ids(raw@)[x]);
                }
                return Err(PlanError::DuplicateUnit { id });
            }
            let ghost old_ids = ids@;
            ids.push(id);
            assert(text::views(ids@) == text::views(old_ids).push(id@));
            let ghost next = before.push(id@);
            assert(next[before.len() as int] == id@);
            assert forall|x: Seq<char>| next.contains(x) <==> before.contains(x) || x == id@ by {
                if before.contains(x) {
                    let i = choose|i: int| 0 <= i < before.len() && before[i] == x;
                    assert(next[i] == x);
                }
            }
        }
        n += 1;
    }
    assert(all.take(n as int) == all);
    if ids.len() == 0 {
        return Err(PlanError::NoUnits);
    }
    Ok(ids)
}

proof fn ids_on_push(lines: Seq<Seq<char>>, n: int)
    requires
        0 <= n < lines.len(),
    ensures
        ids_on(lines.take(n + 1)) == (if text::trimmed(lines[n]).len() > 0 {
            ids_on(lines.take(n)).push(text::trimmed(lines[n]))
        } else {
            ids_on(lines.take(n))
        }),
{
    let f = |line: Seq<char>| text::trimmed(line);
    let a = lines.take(n + 1).map_values(f);
    assert(a.drop_last() == lines.take(n).map_values(f));
    reveal(Seq::filter);
}

proof fn ids_on_prefix(lines: Seq<Seq<char>>, n: int)
    requires
        0 <= n <= lines.len(),
    ensures
        ids_on(lines.take(n)).is_prefix_of(ids_on(lines)),
    decreases lines.len() - n,
{
    if n == lines.len() {
        assert(lines.take(n) == lines);
    } else {
        ids_on_push(lines, n);
        ids_on_prefix(lines, n + 1);
    }
}

/// Longest-processing-time-first, ties broken by enumeration order so the result
/// is a deterministic function of the plan inputs.
pub fn lpt_order(units: &[Unit]) -> (order: Vec<usize>)
    ensures
        order::sorts(durations(units@), order@),
        order.len() == units@.len(),
        forall|u: usize| u < units@.len() ==> #[trigger] order@.contains(u),
        forall|i: int| 0 <= i < order@.len() ==> (#[trigger] order@[i]) < units@.len(),
        forall|i: int, j: int|
            #![trigger order@[i], order@[j]]
            0 <= i < j < order@.len() ==> {
                let a = units@[order@[i] as int].nanos;
                let b = units@[order@[j] as int].nanos;
                a > b || (a == b && order@[i] < order@[j])
            },
{
    let mut keys: Vec<i64> = Vec::new();
    let mut i: usize = 0;
    while i < units.len()
        invariant
            i <= units.len(),
            keys@ == durations(units@).take(i as int),
        decreases units.len() - i,
    {
        keys.push(units[i].nanos);
        i += 1;
    }
    assert(keys@ == durations(units@));
    let order = order::sort(&keys);
    proof {
        longest_unit_first(units@, order@);
    }
    order
}

/// The least number of shards, at least one, whose equal shares of `total` are
/// within `target`.
pub open spec fn wanted_shards(total: int, target: int) -> int {
    if total <= target {
        1
    } else {
        (total + target - 1) / target
    }
}

/// `n`, raised to `min` or lowered to `max`.
pub open spec fn clamped(n: int, min: int, max: int) -> int {
    if n < min {
        min
    } else if n > max {
        max
    } else {
        n
    }
}

/// `wanted_shards` shares keep the target, and no smaller number of shares does.
pub proof fn wanted_shards_is_the_least(total: int, target: int, n: int)
    requires
        target > 0,
    ensures
        wanted_shards(total, target) >= 1,
        total <= wanted_shards(total, target) * target,
        1 <= n < wanted_shards(total, target) ==> total > n * target,
{
    if total > target {
        let w = (total + target - 1) / target;
        assert(w * target <= total + target - 1 < w * target + target) by (nonlinear_arith)
            requires
                target > 0,
                w == (total + target - 1) / target,
        ;
        assert(w >= 1) by (nonlinear_arith)
            requires
                total <= w * target,
                total > 0,
                target > 0,
        ;
        if n < w {
            assert(n * target <= (w - 1) * target) by (nonlinear_arith)
                requires
                    n <= w - 1,
                    target > 0,
            ;
            assert((w - 1) * target == w * target - target) by (nonlinear_arith);
        }
    }
}

/// The smallest shard count whose predicted per-shard work fits `target`.
///
/// Deliberately not "as many shards as allowed": every shard pays a fixed job
/// cost, so past the point where test work stops dominating that cost, more
/// shards only add overhead. Without a target, as many as allowed.
pub fn choose_shards(total: i128, target: i64, min: usize, max: usize) -> (shards: usize)
    requires
        min <= max,
    ensures
        target > 0 ==> shards == clamped(
            wanted_shards(total as int, target as int),
            min as int,
            max as int,
        ),
        target <= 0 ==> shards == max,
        min <= shards <= max,
        target > 0 && shards < max ==> total <= shards * target,
        target > 0 && shards > min && shards > 1 ==> total > (shards - 1) * target,
        max > 0 ==> shards > 0,
{
    if target <= 0 {
        return max;
    }
    let goal: i128 = target as i128;
    let mut wanted: i128 = 1;
    if total > goal {
        wanted = (total - 1) / goal + 1;
        assert(wanted == wanted_shards(total as int, target as int)) by (nonlinear_arith)
            requires
                goal == target,
                goal > 0,
                total > goal,
                wanted == (total - 1) / (goal as int) + 1,
                wanted_shards(total as int, target as int) == (total + target - 1) / (target as int),
        ;
    }
    let shards: usize = if wanted < min as i128 {
        min
    } else if wanted > max as i128 {
        max
    } else {
        wanted as usize
    };
    proof {
        let one_less = shards - 1;
        shard_count_is_the_least(
            total as int,
            target as int,
            min as int,
            max as int,
            shards as int,
            one_less,
        );
    }
    shards
}

fn least_loaded(load: &Vec<i128>) -> (best: usize)
    requires
        load.len() > 0,
    ensures
        best < load.len(),
        best == packing::first_least(load@.map_values(|n: i128| n as int)),
{
    let ghost values = load@.map_values(|n: i128| n as int);
    let mut best: usize = 0;
    let mut i: usize = 1;
    while i < load.len()
        invariant
            1 <= i <= load.len(),
            best < i,
            values == load@.map_values(|n: i128| n as int),
            best == packing::first_least(values.take(i as int)),
        decreases load.len() - i,
    {
        assert(values.take(i + 1).drop_last() == values.take(i as int));
        if load[i] < load[best] {
            best = i;
        }
        i += 1;
    }
    assert(values.take(i as int) == values);
    best
}

/// Greedy LPT bin packing: each unit goes to the least loaded shard.
pub fn assign(units: &[Unit], order: &[usize], shards: usize) -> (assignment: Vec<Vec<usize>>)
    requires
        shards > 0 || order@.len() == 0,
        forall|i: int| 0 <= i < order@.len() ==> (#[trigger] order@[i]) < units@.len(),
    ensures
        lists(assignment@) == packing::packed(durations(units@), order@, shards as nat),
{
    let ghost nanos = durations(units@);
    let mut load: Vec<i128> = Vec::new();
    let mut assignment: Vec<Vec<usize>> = Vec::new();
    let mut s: usize = 0;
    while s < shards
        invariant
            s <= shards,
            load.len() == s,
            assignment.len() == s,
            forall|t: int| 0 <= t < s ==> load@[t] == 0,
            forall|t: int| 0 <= t < s ==> (#[trigger] assignment@[t])@ == Seq::<usize>::empty(),
        decreases shards - s,
    {
        load.push(0);
        assignment.push(Vec::new());
        s += 1;
    }
    let mut i: usize = 0;
    assert(lists(assignment@) == packing::packed(nanos, order@.take(0), shards as nat));
    while i < order.len()
        invariant
            i <= order.len(),
            shards > 0 || order@.len() == 0,
            nanos == durations(units@),
            forall|j: int| 0 <= j < order@.len() ==> (#[trigger] order@[j]) < units@.len(),
            assignment.len() == shards,
            load.len() == shards,
            lists(assignment@) == packing::packed(nanos, order@.take(i as int), shards as nat),
            forall|t: int|
                0 <= t < shards ==> #[trigger] load@[t] == packing::load(nanos, assignment@[t]@),
        decreases order.len() - i,
    {
        let unit = order[i];
        let ghost before = packing::packed(nanos, order@.take(i as int), shards as nat);
        assert(load@.map_values(|n: i128| n as int) == packing::loads(nanos, before));
        let target = least_loaded(&load);
        proof {
            assert(before[target as int] == assignment@[target as int]@);
            packing::load_bounds(nanos, before[target as int]);
            packing::packed_sizes(nanos, order@.take(i as int), shards as nat, target as int);
            assert(order@.take(i + 1).drop_last() == order@.take(i as int));
        }
        let sum: i128 = load[target] + units[unit].nanos as i128;
        load[target] = sum;
        assignment[target].push(unit);
        assert(assignment@[target as int]@ == before[target as int].push(unit));
        assert(before[target as int].push(unit).drop_last() == before[target as int]);
        assert(lists(assignment@) == before.update(
            target as int,
            before[target as int].push(unit),
        ));
        i += 1;
    }
    assert(order@.take(i as int) == order@);
    assignment
}

/// The range of shard counts is a range that starts at one or above.
pub open spec fn valid_range(args: PlanArgs) -> bool {
    1 <= args.min_shards <= args.max_shards
}

impl PlanArgs {
    /// Checks the range of shard counts.
    pub fn check(&self) -> (out: Result<(), PlanError>)
        ensures
            match out {
                Ok(()) => valid_range(*self) && 1 <= self.min_shards <= self.max_shards,
                Err(PlanError::NoMinimum) => self.min_shards == 0,
                Err(PlanError::MaximumBelowMinimum { max, min }) => {
                    &&& self.min_shards > 0
                    &&& self.max_shards < self.min_shards
                    &&& max == self.max_shards
                    &&& min == self.min_shards
                },
                Err(_) => false,
            },
    {
        if self.min_shards == 0 {
            return Err(PlanError::NoMinimum);
        }
        if self.max_shards < self.min_shards {
            return Err(
                PlanError::MaximumBelowMinimum { max: self.max_shards, min: self.min_shards },
            );
        }
        Ok(())
    }
}

/// `unit` is the unit `id` with its recorded duration or else the default.
pub open spec fn is_unit(
    unit: Unit,
    id: Seq<char>,
    timings: Map<Seq<char>, i64>,
    default_nanos: i64,
) -> bool {
    &&& unit.id@ == id
    &&& unit.measured == timings.contains_key(id)
    &&& unit.nanos == (if timings.contains_key(id) { timings[id] } else { default_nanos })
}

/// The duration of each unit, as a term of a sum.
pub open spec fn duration_of(units: Seq<Unit>) -> spec_fn(int) -> int {
    |i: int| units[i].nanos as int
}

/// The duration of each measured unit, as a term of a sum.
pub open spec fn measured_of(units: Seq<Unit>) -> spec_fn(int) -> int {
    |i: int| if units[i].measured { units[i].nanos as int } else { 0 }
}

impl Plan {
    /// Order, totals and assignment are those of the units.
    pub open spec fn well_formed(self) -> bool {
        &&& self.shards > 0
        &&& order::sorts(durations(self.units@), self.order@)
        &&& self.total_nanos == sums::sum_below(self.units@.len(), duration_of(self.units@))
        &&& self.measured_nanos == sums::sum_below(self.units@.len(), measured_of(self.units@))
        &&& lists(self.assignment@) == packing::packed(
            durations(self.units@),
            self.order@,
            self.shards as nat,
        )
    }
}

/// The units with their durations.
pub fn with_timings(ids: &[String], timings: &Timings, default_nanos: i64) -> (units: Vec<Unit>)
    ensures
        units.len() == ids@.len(),
        forall|i: int|
            0 <= i < ids@.len() ==> is_unit(
                #[trigger] units@[i],
                ids@[i]@,
                timings@,
                default_nanos,
            ),
        forall|i: int|
            0 <= i < ids@.len() ==> {
                &&& (#[trigger] units@[i]).id@ == ids@[i]@
                &&& units@[i].measured <==> timings@.contains_key(ids@[i]@)
                &&& units@[i].measured ==> units@[i].nanos == timings@[ids@[i]@]
                &&& !units@[i].measured ==> units@[i].nanos == default_nanos
            },
{
    let mut units: Vec<Unit> = Vec::new();
    let mut i: usize = 0;
    while i < ids.len()
        invariant
            i <= ids.len(),
            units.len() == i,
            forall|j: int|
                0 <= j < i ==> is_unit(#[trigger] units@[j], ids@[j]@, timings@, default_nanos),
        decreases ids.len() - i,
    {
        let id = ids[i].clone();
        let unit = match timings.get(id.as_str()) {
            Some(nanos) => Unit { id, nanos, measured: true },
            None => Unit { id, nanos: default_nanos, measured: false },
        };
        units.push(unit);
        i += 1;
    }
    units
}

/// The duration of all units, and that of the measured ones.
fn totals(units: &[Unit]) -> (out: (i128, i128))
    ensures
        out.0 == sums::sum_below(units@.len(), duration_of(units@)),
        out.1 == sums::sum_below(units@.len(), measured_of(units@)),
{
    let mut all: i128 = 0;
    let mut measured: i128 = 0;
    let mut i: usize = 0;
    while i < units.len()
        invariant
            i <= units.len(),
            all == sums::sum_below(i as nat, duration_of(units@)),
            measured == sums::sum_below(i as nat, measured_of(units@)),
        decreases units.len() - i,
    {
        let ghost low = i64::MIN as int;
        let ghost high = i64::MAX as int;
        proof {
            sums::sum_below_bounds(i as nat, duration_of(units@), low, high);
            sums::sum_below_bounds(i as nat, measured_of(units@), low, high);
        }
        all = all + units[i].nanos as i128;
        if units[i].measured {
            measured = measured + units[i].nanos as i128;
        }
        i += 1;
    }
    (all, measured)
}

/// The duration of the listed units together.
pub fn load_of(units: &[Unit], list: &[usize]) -> (nanos: i128)
    requires
        forall|i: int| 0 <= i < list@.len() ==> (#[trigger] list@[i]) < units@.len(),
    ensures
        nanos == packing::load(durations(units@), list@),
        nanos == list@.fold_left(0int, |sum: int, u: usize| sum + units@[u as int].nanos),
{
    let ghost all = durations(units@);
    let mut nanos: i128 = 0;
    let mut i: usize = 0;
    while i < list.len()
        invariant
            i <= list.len(),
            all == durations(units@),
            forall|j: int| 0 <= j < list@.len() ==> (#[trigger] list@[j]) < units@.len(),
            nanos == packing::load(all, list@.take(i as int)),
        decreases list.len() - i,
    {
        proof {
            packing::load_bounds(all, list@.take(i as int));
            assert(list@.take(i + 1).drop_last() == list@.take(i as int));
        }
        nanos = nanos + units[list[i]].nanos as i128;
        i += 1;
    }
    assert(list@.take(i as int) == list@);
    proof {
        load_adds_up(units@, list@);
    }
    nanos
}

/// Makes the plan for the enumerated ids.
pub fn build(args: &PlanArgs, ids: &[String], timings: &Timings) -> (plan: Plan)
    requires
        valid_range(*args),
    ensures
        plan.well_formed(),
        plan.units.len() == ids@.len(),
        forall|i: int|
            0 <= i < ids@.len() ==> is_unit(
                #[trigger] plan.units@[i],
                ids@[i]@,
                timings@,
                args.default_nanos,
            ),
        args.target_nanos > 0 ==> plan.shards == clamped(
            wanted_shards(plan.total_nanos as int, args.target_nanos as int),
            args.min_shards as int,
            args.max_shards as int,
        ),
        args.target_nanos <= 0 ==> plan.shards == args.max_shards,
        args.min_shards <= plan.shards <= args.max_shards,
        args.target_nanos > 0 && plan.shards < args.max_shards ==> plan.total_nanos <= plan.shards
            * args.target_nanos,
        args.target_nanos > 0 && plan.shards > args.min_shards ==> plan.total_nanos > (plan.shards
            - 1) * args.target_nanos,
        forall|i: int|
            0 <= i < ids@.len() ==> {
                &&& (#[trigger] plan.units@[i]).id@ == ids@[i]@
                &&& plan.units@[i].measured <==> timings@.contains_key(ids@[i]@)
                &&& plan.units@[i].measured ==> plan.units@[i].nanos == timings@[ids@[i]@]
                &&& !plan.units@[i].measured ==> plan.units@[i].nanos == args.default_nanos
            },
        plan.total_nanos == plan.units@.fold_left(0int, |sum: int, u: Unit| sum + u.nanos),
        plan.measured_nanos == plan.units@.filter(|u: Unit| u.measured).fold_left(
            0int,
            |sum: int, u: Unit| sum + u.nanos,
        ),
        plan.order@.len() == plan.units@.len(),
        forall|u: usize| u < plan.units@.len() ==> #[trigger] plan.order@.contains(u),
        forall|i: int, j: int|
            #![trigger plan.order@[i], plan.order@[j]]
            0 <= i < j < plan.order@.len() ==> {
                let a = plan.units@[plan.order@[i] as int].nanos;
                let b = plan.units@[plan.order@[j] as int].nanos;
                a > b || (a == b && plan.order@[i] < plan.order@[j])
            },
        lists(plan.assignment@) == packing::packed(
            durations(plan.units@),
            plan.order@,
            plan.shards as nat,
        ),
{
    let units = with_timings(ids, timings, args.default_nanos);
    let (total_nanos, measured_nanos) = totals(units.as_slice());
    let order = lpt_order(units.as_slice());
    let shards = choose_shards(total_nanos, args.target_nanos, args.min_shards, args.max_shards);
    let assignment = assign(units.as_slice(), order.as_slice(), shards);
    let plan = Plan { units, order, shards, total_nanos, measured_nanos, assignment };
    proof {
        totals_add_up(plan);
    }
    plan
}

/// `best` is the last of the longest units.
pub open spec fn is_critical(units: Seq<Unit>, best: int) -> bool {
    &&& 0 <= best < units.len()
    &&& forall|i: int| 0 <= i < units.len() ==> (#[trigger] units[i]).nanos <= units[best].nanos
    &&& forall|i: int| best < i < units.len() ==> (#[trigger] units[i]).nanos < units[best].nanos
}

/// Both parts of a plan's time are positive, so that one is a fraction of the
/// other.
pub open spec fn has_measured_time(plan: Plan) -> bool {
    plan.total_nanos > 0 && plan.measured_nanos > 0
}

impl Plan {
    /// The longest unit. A unit is indivisible, so this one is a floor on wall
    /// clock that no shard count can lower.
    pub fn critical_unit(&self) -> (best: Option<usize>)
        ensures
            match best {
                Some(i) => {
                    &&& is_critical(self.units@, i as int)
                    &&& i < self.units@.len()
                    &&& forall|j: int|
                        0 <= j < self.units@.len() ==> (#[trigger] self.units@[j]).nanos
                            <= self.units@[i as int].nanos
                    &&& forall|j: int|
                        i < j < self.units@.len() ==> (#[trigger] self.units@[j]).nanos
                            < self.units@[i as int].nanos
                },
                None => self.units@.len() == 0,
            },
    {
        if self.units.len() == 0 {
            return None;
        }
        let mut best: usize = 0;
        let mut i: usize = 1;
        while i < self.units.len()
            invariant
                1 <= i <= self.units.len(),
                best < i,
                forall|j: int|
                    0 <= j < i ==> (#[trigger] self.units@[j]).nanos
                        <= self.units@[best as int].nanos,
                forall|j: int|
                    best < j < i ==> (#[trigger] self.units@[j]).nanos
                        < self.units@[best as int].nanos,
            decreases self.units.len() - i,
        {
            if self.units[i].nanos >= self.units[best].nanos {
                best = i;
            }
            i += 1;
        }
        Some(best)
    }

    /// The longest unit, if it alone takes longer than the target, so that more
    /// shards cannot help.
    pub fn unit_over_target(&self, target_nanos: i64) -> (over: Option<usize>)
        ensures
            match over {
                Some(i) => {
                    &&& is_critical(self.units@, i as int)
                    &&& i < self.units@.len()
                    &&& self.units@[i as int].nanos > target_nanos
                    &&& forall|j: int|
                        0 <= j < self.units@.len() ==> (#[trigger] self.units@[j]).nanos
                            <= self.units@[i as int].nanos
                    &&& forall|j: int|
                        i < j < self.units@.len() ==> (#[trigger] self.units@[j]).nanos
                            < self.units@[i as int].nanos
                },
                None => forall|i: int|
                    0 <= i < self.units@.len() ==> (#[trigger] self.units@[i]).nanos
                        <= target_nanos,
            },
    {
        match self.critical_unit() {
            Some(best) => {
                if self.units[best].nanos > target_nanos {
                    Some(best)
                } else {
                    None
                }
            },
            None => None,
        }
    }

    /// The fraction of total time backed by a real measurement, as numerator and
    /// denominator. It is zero unless both times are positive.
    pub fn measured_fraction(&self) -> (out: (i128, i128))
        ensures
            has_measured_time(*self) ==> out == (self.measured_nanos, self.total_nanos),
            !has_measured_time(*self) ==> out == (0i128, 1i128),
            self.total_nanos > 0 && self.measured_nanos > 0 ==> out == (
                self.measured_nanos,
                self.total_nanos,
            ),
            self.total_nanos <= 0 || self.measured_nanos <= 0 ==> out == (0i128, 1i128),
    {
        if self.total_nanos > 0 && self.measured_nanos > 0 {
            (self.measured_nanos, self.total_nanos)
        } else {
            (0, 1)
        }
    }

    /// Whether some of the predicted time is assumed rather than measured.
    pub fn is_partly_assumed(&self) -> (yes: bool)
        ensures
            yes == !(has_measured_time(*self) && self.measured_nanos >= self.total_nanos),
            yes <==> self.total_nanos <= 0 || self.measured_nanos <= 0 || self.measured_nanos
                < self.total_nanos,
    {
        let (part, whole) = self.measured_fraction();
        part < whole
    }
}

/// The step outputs of a plan, one assignment per line.
pub open spec fn outputs_of(shards: nat, units: nat) -> Seq<char>
    recommends
        shards <= usize::MAX,
{
    "shards="@ + text::decimal_of(shards) + "\nmatrix="@ + json::object_of(
        "index"@,
        Seq::new(shards, |i: int| (i + 1) as usize),
    ) + "\nunits="@ + text::decimal_of(units) + "\n"@
}

/// The `shards`, `matrix` and `units` step outputs, so that a downstream job can
/// fan out with `fromJSON`. The matrix holds the shard indices, from one on.
pub fn emit_outputs(plan: &Plan) -> (lines: String)
    ensures
        lines@ == outputs_of(plan.shards as nat, plan.units@.len()),
        lines@ == "shards="@ + text::decimal_of(plan.shards as nat) + "\nmatrix="@ + "{\""@
            + "index"@ + "\":["@ + text::joined(
            Seq::new(plan.shards as nat, |i: int| text::decimal_of((i + 1) as nat)),
            ","@,
        ) + "]}"@ + "\nunits="@ + text::decimal_of(plan.units@.len()) + "\n"@,
{
    let mut index: Vec<usize> = Vec::new();
    let mut i: usize = 0;
    while i < plan.shards
        invariant
            i <= plan.shards,
            index@ == Seq::new(i as nat, |j: int| (j + 1) as usize),
        decreases plan.shards - i,
    {
        i += 1;
        index.push(i);
    }
    proof {
        reveal_strlit("index");
    }
    let matrix = json::object("index", &index);
    let mut lines = String::new();
    lines.append("shards=");
    lines.append(text::decimal(plan.shards).as_str());
    lines.append("\nmatrix=");
    lines.append(matrix.as_str());
    lines.append("\nunits=");
    lines.append(text::decimal(plan.units.len()).as_str());
    lines.append("\n");
    assert(Seq::<char>::empty() + "shards="@ == "shards="@);
    proof {
        let numbers = Seq::new(plan.shards as nat, |i: int| (i + 1) as usize);
        let decimals = Seq::new(plan.shards as nat, |i: int| text::decimal_of((i + 1) as nat));
        assert(json::decimals(numbers) == decimals);
    }
    lines
}

impl PlanError {
    /// The text of the message.
    pub open spec fn text(self) -> Seq<char> {
        match self {
            PlanError::NoMinimum => "--min-shards must be at least 1"@,
            PlanError::MaximumBelowMinimum { max, min } => "--max-shards ("@ + text::decimal_of(
                max as nat,
            ) + ") is below --min-shards ("@ + text::decimal_of(min as nat) + ")"@,
            PlanError::DuplicateUnit { id } =>
                "the enumerate hook emitted a duplicate unit id: "@ + id@,
            PlanError::NoUnits =>
                "the enumerate hook produced no units — check the recipe, an empty suite is never assumed"@,
        }
    }

    /// What to tell the user.
    pub fn message(&self) -> (out: String)
        ensures
            out@ == self.text(),
            self is NoMinimum ==> out@ == "--min-shards must be at least 1"@,
            self matches PlanError::MaximumBelowMinimum { max, min } ==> out@ == "--max-shards ("@
                + text::decimal_of(*max as nat) + ") is below --min-shards ("@ + text::decimal_of(
                *min as nat,
            ) + ")"@,
            self matches PlanError::DuplicateUnit { id } ==> out@
                == "the enumerate hook emitted a duplicate unit id: "@ + id@,
            self is NoUnits ==> out@
                == "the enumerate hook produced no units — check the recipe, an empty suite is never assumed"@,
    {
        let mut out = String::new();
        match self {
            PlanError::NoMinimum => {
                out.append("--min-shards must be at least 1");
            },
            PlanError::MaximumBelowMinimum { max, min } => {
                out.append("--max-shards (");
                out.append(text::decimal(*max).as_str());
                out.append(") is below --min-shards (");
                out.append(text::decimal(*min).as_str());
                out.append(")");
            },
            PlanError::DuplicateUnit { id } => {
                out.append("the enumerate hook emitted a duplicate unit id: ");
                out.append(id.as_str());
            },
            PlanError::NoUnits => {
                out.append(
                    "the enumerate hook produced no units — check the recipe, an empty suite is never assumed",
                );
            },
        }
        assert(out@ == self.text());
        out
    }
}

/// `id` is what a line names: neither empty nor padded, and on one line.
pub open spec fn is_id(id: Seq<char>) -> bool {
    &&& id.len() > 0
    &&& !text::is_space(id.first())
    &&& !text::is_space(id.last())
    &&& !id.contains('\n')
}

/// Every id that an enumerate hook can name is an id in this sense.
pub proof fn enumerated_ids_are_ids(raw: Seq<char>, i: int)
    requires
        0 <= i < unit_ids(raw).len(),
    ensures
        is_id(unit_ids(raw)[i]),
{
    let lines = text::lines_of(raw);
    let ids = lines.map_values(|line: Seq<char>| text::trimmed(line));
    let p = |id: Seq<char>| id.len() > 0;
    ids.lemma_filter_pred(p, i);
    let id = unit_ids(raw)[i];
    filtered_comes_from(ids, p, i);
    let j = choose|j: int| 0 <= j < ids.len() && ids[j] == id;
    text::trimmed_is_tight(lines[j]);
    text::lines_have_no_breaks(raw, j);
    let (from, to) = choose|from: int, to: int|
        0 <= from <= to <= lines[j].len() && text::trimmed(lines[j]) == #[trigger] lines[j].subrange(
            from,
            to,
        );
    if id.contains('\n') {
        let x = choose|x: int| 0 <= x < id.len() && id[x] == '\n';
        assert(lines[j][from + x] == '\n');
    }
}

proof fn filtered_comes_from<A>(list: Seq<A>, p: spec_fn(A) -> bool, i: int)
    requires
        0 <= i < list.filter(p).len(),
    ensures
        list.contains(list.filter(p)[i]),
    decreases list.len(),
{
    reveal(Seq::filter);
    if list.len() > 0 {
        let rest = list.drop_last();
        let found = list.filter(p)[i];
        if i < rest.filter(p).len() {
            filtered_comes_from(rest, p, i);
            let x = choose|x: int| 0 <= x < rest.len() && rest[x] == found;
            assert(list[x] == found);
        } else {
            assert(list[list.len() - 1] == found);
        }
    }
}

/// Ids written one to a line are the ids that the lines name.
pub proof fn listed_ids_are_read_back(ids: Seq<Seq<char>>)
    requires
        forall|i: int| 0 <= i < ids.len() ==> is_id(#[trigger] ids[i]),
    ensures
        unit_ids(text::on_lines(ids)) == ids,
{
    let f = |line: Seq<char>| text::trimmed(line);
    let p = |id: Seq<char>| id.len() > 0;
    assert forall|i: int| 0 <= i < ids.len() implies text::is_line(#[trigger] ids[i]) by {
        assert(is_id(ids[i]));
    }
    text::lines_are_read_back(ids);
    assert forall|i: int| 0 <= i < ids.len() implies text::trimmed(#[trigger] ids[i])
        == ids[i] by {
        assert(is_id(ids[i]));
    }
    assert(ids.map_values(f) == ids);
    sums::filter_keeps_all(ids, p);
}

/// The shards of a plan share its total: their loads add up to it.
pub proof fn shards_share_the_total(plan: Plan)
    requires
        plan.well_formed(),
    ensures
        sums::grand_total(
            lists(plan.assignment@),
            packing::duration(durations(plan.units@)),
        ) == plan.total_nanos,
{
    let nanos = durations(plan.units@);
    let w = packing::duration(nanos);
    assert(plan.units.len() == nanos.len());
    packing::packed_total(nanos, plan.order@, plan.shards as nat, w);
    packing::sorted_has_no_duplicates(nanos, plan.order@);
    sums::total_permutation(plan.order@, nanos.len(), w);
    let f = |i: int| w(i as usize);
    sums::sum_below_eq(nanos.len(), f, duration_of(plan.units@));
}

/// The measured part of a plan's time is a part of it, where no unit takes less
/// than no time.
pub proof fn measured_time_is_part_of_the_total(plan: Plan)
    requires
        plan.well_formed(),
        packing::nonnegative(durations(plan.units@)),
    ensures
        0 <= plan.measured_nanos <= plan.total_nanos,
{
    let n = plan.units@.len();
    let all = duration_of(plan.units@);
    let part = measured_of(plan.units@);
    assert forall|i: int| 0 <= i < n implies 0 <= #[trigger] part(i) <= all(i) by {
        assert(durations(plan.units@)[i] >= 0);
    }
    sums::sum_below_le(n, part, all);
    sums::sum_below_const(n, 0);
    assert(n * 0 == 0);
    sums::sum_below_le(n, |i: int| 0, part);
}

/// Units are ordered by their own durations, longest first and the earlier of
/// equals first, and each unit has its place in the order.
pub proof fn longest_unit_first(units: Seq<Unit>, order: Seq<usize>)
    requires
        order::sorts(durations(units), order),
        units.len() <= usize::MAX,
    ensures
        order.len() == units.len(),
        order.no_duplicates(),
        forall|u: usize| u < units.len() ==> #[trigger] order.contains(u),
        forall|i: int| 0 <= i < order.len() ==> (#[trigger] order[i]) < units.len(),
        forall|i: int, j: int|
            #![trigger order[i], order[j]]
            0 <= i < j < order.len() ==> {
                let a = units[order[i] as int].nanos;
                let b = units[order[j] as int].nanos;
                a > b || (a == b && order[i] < order[j])
            },
{
    let keys = durations(units);
    packing::sorted_has_no_duplicates(keys, order);
    assert forall|i: int, j: int|
        #![trigger order[i], order[j]]
        0 <= i < j < order.len() implies {
        let a = units[order[i] as int].nanos;
        let b = units[order[j] as int].nanos;
        a > b || (a == b && order[i] < order[j])
    } by {
        assert(order::precedes(keys, order[i] as int, order[j] as int));
        assert(keys[order[i] as int] == units[order[i] as int].nanos);
        assert(keys[order[j] as int] == units[order[j] as int].nanos);
    }
}

/// The load of a list of units is the sum of the durations of those units.
pub proof fn load_adds_up(units: Seq<Unit>, list: Seq<usize>)
    requires
        forall|i: int| 0 <= i < list.len() ==> (#[trigger] list[i]) < units.len(),
    ensures
        packing::load(durations(units), list) == list.fold_left(
            0int,
            |sum: int, u: usize| sum + units[u as int].nanos,
        ),
{
    let f = |sum: int, u: usize| sum + units[u as int].nanos;
    let w = packing::duration(durations(units));
    assert forall|sum: int, i: int| 0 <= i < list.len() implies #[trigger] f(sum, list[i]) == sum
        + w(list[i]) by {
        assert(durations(units)[list[i] as int] == units[list[i] as int].nanos);
    }
    sums::total_is_fold(list, w, f);
}

/// The total of a plan is the sum of the durations of its units, and its measured
/// part the sum of those that were measured.
pub proof fn totals_add_up(plan: Plan)
    requires
        plan.well_formed(),
    ensures
        plan.total_nanos == plan.units@.fold_left(0int, |sum: int, u: Unit| sum + u.nanos),
        plan.measured_nanos == plan.units@.filter(|u: Unit| u.measured).fold_left(
            0int,
            |sum: int, u: Unit| sum + u.nanos,
        ),
{
    let units = plan.units@;
    let f = |sum: int, u: Unit| sum + u.nanos;
    let g = |sum: int, u: Unit| if u.measured { sum + u.nanos } else { sum };
    let p = |u: Unit| u.measured;
    sums::sum_below_is_fold(units, duration_of(units), f);
    sums::sum_below_is_fold(units, measured_of(units), g);
    measured_fold(units, f, g, p);
}

proof fn measured_fold(
    units: Seq<Unit>,
    f: spec_fn(int, Unit) -> int,
    g: spec_fn(int, Unit) -> int,
    p: spec_fn(Unit) -> bool,
)
    requires
        forall|sum: int, u: Unit|
            #[trigger] g(sum, u) == (if p(u) {
                f(sum, u)
            } else {
                sum
            }),
    ensures
        units.filter(p).fold_left(0int, f) == units.fold_left(0int, g),
    decreases units.len(),
{
    reveal(Seq::filter);
    if units.len() > 0 {
        let rest = units.drop_last();
        measured_fold(rest, f, g, p);
        if p(units.last()) {
            assert(units.filter(p).drop_last() == rest.filter(p));
        }
    }
}

/// The shard count is the smallest of the allowed ones that meets the target: no
/// smaller allowed count would do, and it does unless even the greatest does not.
pub proof fn shard_count_is_the_least(
    total: int,
    target: int,
    min: int,
    max: int,
    shards: int,
    n: int,
)
    requires
        target > 0,
        0 <= min <= max,
        shards == clamped(wanted_shards(total, target), min, max),
    ensures
        min <= shards <= max,
        max > 0 ==> shards > 0,
        shards < max ==> total <= shards * target,
        min <= n < shards && n >= 1 ==> total > n * target,
{
    wanted_shards_is_the_least(total, target, n);
    let wanted = wanted_shards(total, target);
    if shards < max {
        assert(wanted * target <= shards * target) by (nonlinear_arith)
            requires
                wanted <= shards,
                target > 0,
        ;
    }
}

/// Packing one more unit adds it to one shard, the first of those that have the
/// least to do, going by the durations of the units they hold, and leaves the
/// other shards as they were. Packing no units leaves every shard empty.
pub proof fn each_unit_goes_to_the_least_loaded_shard(
    units: Seq<Unit>,
    order: Seq<usize>,
    shards: nat,
    u: usize,
)
    requires
        shards > 0,
        u < units.len(),
        forall|i: int| 0 <= i < order.len() ==> (#[trigger] order[i]) < units.len(),
    ensures
        packing::packed(durations(units), Seq::<usize>::empty(), shards) == Seq::new(
            shards,
            |s: int| Seq::<usize>::empty(),
        ),
        ({
            let before = packing::packed(durations(units), order, shards);
            let after = packing::packed(durations(units), order.push(u), shards);
            let add = |sum: int, u: usize| sum + units[u as int].nanos;
            &&& before.len() == shards
            &&& exists|s: int|
                {
                    &&& 0 <= s < shards
                    &&& after == before.update(s, #[trigger] before[s].push(u))
                    &&& forall|t: int|
                        0 <= t < shards ==> before[s].fold_left(0int, add)
                            <= #[trigger] before[t].fold_left(0int, add)
                    &&& forall|t: int|
                        0 <= t < s ==> before[s].fold_left(0int, add)
                            < #[trigger] before[t].fold_left(0int, add)
                }
        }),
{
    let nanos = durations(units);
    let before = packing::packed(nanos, order, shards);
    let after = packing::packed(nanos, order.push(u), shards);
    let add = |sum: int, u: usize| sum + units[u as int].nanos;
    packing::packed_len(nanos, order, shards);
    assert(order.push(u).drop_last() == order);
    let all = packing::loads(nanos, before);
    packing::first_least_is_least(all);
    let s = packing::first_least(all);
    assert(after == before.update(s, before[s].push(u)));
    assert forall|t: int| 0 <= t < shards implies #[trigger] before[t].fold_left(0int, add)
        == all[t] by {
        assert forall|i: int| 0 <= i < before[t].len() implies (#[trigger] before[t][i])
            < units.len() by {
            packing::packed_entries(nanos, order, shards, t, i);
            let x = choose|x: int| 0 <= x < order.len() && order[x] == before[t][i];
            assert(order[x] < units.len());
        }
        load_adds_up(units, before[t]);
    }
    assert forall|t: int| 0 <= t < shards implies before[s].fold_left(0int, add)
        <= #[trigger] before[t].fold_left(0int, add) by {
        assert(before[s].fold_left(0int, add) == all[s]);
        assert(all[s] <= all[t]);
    }
    assert forall|t: int| 0 <= t < s implies before[s].fold_left(0int, add)
        < #[trigger] before[t].fold_left(0int, add) by {
        assert(before[s].fold_left(0int, add) == all[s]);
        assert(all[s] < all[t]);
    }
}


/// The contents of lists are those of each list, in turn.
pub proof fn lists_are_of_each_list(all: Seq<Vec<usize>>)
    ensures
        lists(all).len() == all.len(),
        forall|s: int| 0 <= s < all.len() ==> #[trigger] lists(all)[s] == all[s]@,
{
}

/// Packing the longest unit first balances the shards: if the units can be spread
/// over as many shards in any way, `other`, so that the durations on each add up to
/// no more than `limit`, then on each packed shard they add up to at most `4/3 -
/// 1/(3 * shards)` of `limit`.
pub proof fn shards_are_balanced(
    units: Seq<Unit>,
    order: Seq<usize>,
    shards: nat,
    other: Seq<Seq<usize>>,
    limit: int,
    s: int,
)
    requires
        units.len() <= usize::MAX,
        forall|i: int| 0 <= i < units.len() ==> (#[trigger] units[i]).nanos >= 0,
        order.len() == units.len(),
        forall|u: usize| u < units.len() ==> #[trigger] order.contains(u),
        forall|i: int| 0 <= i < order.len() ==> (#[trigger] order[i]) < units.len(),
        forall|i: int, j: int|
            #![trigger order[i], order[j]]
            0 <= i < j < order.len() ==> {
                let a = units[order[i] as int].nanos;
                let b = units[order[j] as int].nanos;
                a > b || (a == b && order[i] < order[j])
            },
        other.len() == shards,
        forall|u: usize| u < units.len() ==> #[trigger] other.flatten().contains(u),
        forall|t: int, i: int|
            0 <= t < other.len() && 0 <= i < other[t].len() ==> (#[trigger] other[t][i])
                < units.len(),
        forall|t: int|
            0 <= t < other.len() ==> (#[trigger] other[t]).fold_left(
                0int,
                |sum: int, u: usize| sum + units[u as int].nanos,
            ) <= limit,
        0 <= s < shards,
    ensures
        packing::packed(durations(units), order, shards).len() == shards,
        3 * shards * packing::packed(durations(units), order, shards)[s].fold_left(
            0int,
            |sum: int, u: usize| sum + units[u as int].nanos,
        ) <= (4 * shards - 1) * limit,
{
    let nanos = durations(units);
    let add = |sum: int, u: usize| sum + units[u as int].nanos;
    assert forall|i: int| 0 <= i < nanos.len() implies #[trigger] nanos[i] >= 0 by {
        assert(units[i].nanos >= 0);
    }
    assert forall|i: int, j: int| 0 <= i < j < order.len() implies order::precedes(
        nanos,
        #[trigger] order[i] as int,
        #[trigger] order[j] as int,
    ) by {
        assert(nanos[order[i] as int] == units[order[i] as int].nanos);
        assert(nanos[order[j] as int] == units[order[j] as int].nanos);
    }
    assert forall|t: int| 0 <= t < other.len() implies packing::load(nanos, #[trigger] other[t])
        <= limit by {
        let list = other[t];
        assert forall|i: int| 0 <= i < list.len() implies (#[trigger] list[i]) < units.len() by {
            assert(other[t][i] < units.len());
        }
        load_adds_up(units, list);
        assert(list.fold_left(0int, add) <= limit);
    }
    let place = packing::shards_within_a_limit_fit(nanos, other, limit);
    packing::longest_first_is_near_optimal(nanos, order, shards, place, limit, s);
    packing::packed_len(nanos, order, shards);
    let held = packing::packed(nanos, order, shards)[s];
    assert forall|i: int| 0 <= i < held.len() implies (#[trigger] held[i]) < units.len() by {
        packing::packed_entries(nanos, order, shards, s, i);
        let x = choose|x: int| 0 <= x < order.len() && order[x] == held[i];
        assert(order[x] < units.len());
    }
    load_adds_up(units, held);
}

/// A plan is balanced: if its units can be spread over as many shards in any way,
/// `other`, so that the durations on each add up to no more than `limit`, then on
/// each of its own shards they add up to at most `4/3 - 1/(3 * shards)` of `limit`.
pub proof fn a_plan_is_balanced(plan: Plan, other: Seq<Seq<usize>>, limit: int, s: int)
    requires
        plan.well_formed(),
        forall|i: int| 0 <= i < plan.units@.len() ==> (#[trigger] plan.units@[i]).nanos >= 0,
        other.len() == plan.shards,
        forall|u: usize| u < plan.units@.len() ==> #[trigger] other.flatten().contains(u),
        forall|t: int, i: int|
            0 <= t < other.len() && 0 <= i < other[t].len() ==> (#[trigger] other[t][i])
                < plan.units@.len(),
        forall|t: int|
            0 <= t < other.len() ==> (#[trigger] other[t]).fold_left(
                0int,
                |sum: int, u: usize| sum + plan.units@[u as int].nanos,
            ) <= limit,
        0 <= s < plan.shards,
    ensures
        plan.assignment@.len() == plan.shards,
        3 * plan.shards * plan.assignment@[s]@.fold_left(
            0int,
            |sum: int, u: usize| sum + plan.units@[u as int].nanos,
        ) <= (4 * plan.shards - 1) * limit,
{
    let units = plan.units@;
    assert(units.len() == plan.units.len());
    longest_unit_first(units, plan.order@);
    shards_are_balanced(units, plan.order@, plan.shards as nat, other, limit, s);
    lists_are_of_each_list(plan.assignment@);
    assert(lists(plan.assignment@)[s] == plan.assignment@[s]@);
}

/// The shards of a plan hold each of its units exactly once, and nothing else: all
/// their lists, one after the other, are the indices of the units in some order.
pub proof fn a_plan_assigns_each_unit_once(plan: Plan)
    requires
        plan.well_formed(),
    ensures
        plan.assignment@.len() == plan.shards,
        lists(plan.assignment@).flatten().len() == plan.units@.len(),
        lists(plan.assignment@).flatten().no_duplicates(),
        forall|u: usize|
            u < plan.units@.len() ==> #[trigger] lists(plan.assignment@).flatten().contains(u),
        forall|i: int|
            0 <= i < lists(plan.assignment@).flatten().len() ==> (#[trigger] lists(
                plan.assignment@,
            ).flatten()[i]) < plan.units@.len(),
{
    broadcast use vstd::seq_lib::group_to_multiset_ensures;

    let order = plan.order@;
    let flat = lists(plan.assignment@).flatten();
    assert(plan.units@.len() == plan.units.len());
    longest_unit_first(plan.units@, order);
    packing::packing_rearranges(durations(plan.units@), order, plan.shards as nat);
    assert(flat.len() == flat.to_multiset().len());
    assert(order.len() == order.to_multiset().len());
    order.lemma_multiset_has_no_duplicates();
    flat.lemma_multiset_has_no_duplicates_conv();
    assert forall|u: usize| u < plan.units@.len() implies #[trigger] flat.contains(u) by {
        assert(order.contains(u));
        assert(order.to_multiset().contains(u));
    }
    assert forall|i: int| 0 <= i < flat.len() implies (#[trigger] flat[i]) < plan.units@.len() by {
        assert(flat.contains(flat[i]));
        assert(flat.to_multiset().contains(flat[i]));
        assert(order.contains(flat[i]));
        let x = choose|x: int| 0 <= x < order.len() && order[x] == flat[i];
        assert(order[x] < plan.units@.len());
    }
}

/// Ids are named line by line: text after a line feed names its ids after those
/// that the text before it names.
pub proof fn ids_are_named_in_turn(a: Seq<char>, b: Seq<char>)
    requires
        a.len() > 0 ==> a.last() == '\n',
    ensures
        unit_ids(a + b) == unit_ids(a) + unit_ids(b),
{
    let f = |line: Seq<char>| text::trimmed(line);
    let p = |id: Seq<char>| id.len() > 0;
    text::lines_of_concatenation(a, b);
    let x = text::lines_of(a);
    let y = text::lines_of(b);
    assert((x + y).map_values(f) == x.map_values(f) + y.map_values(f));
    Seq::filter_distributes_over_add(x.map_values(f), y.map_values(f), p);
}

/// A line names what is on it between white space, and a line of white space alone
/// names nothing, whether or not a line feed follows.
pub proof fn a_line_names_one_id(before: Seq<char>, id: Seq<char>, after: Seq<char>)
    requires
        forall|i: int|
            0 <= i < before.len() ==> text::is_space(#[trigger] before[i]) && before[i] != '\n',
        forall|i: int|
            0 <= i < after.len() ==> text::is_space(#[trigger] after[i]) && after[i] != '\n',
        !id.contains('\n'),
        id.len() > 0 ==> !text::is_space(id.first()) && !text::is_space(id.last()),
    ensures
        unit_ids(before + id + after) == (if id.len() > 0 {
            seq![id]
        } else {
            Seq::<Seq<char>>::empty()
        }),
        unit_ids((before + id + after).push('\n')) == unit_ids(before + id + after),
{
    let line = before + id + after;
    if line.contains('\n') {
        let x = choose|x: int| 0 <= x < line.len() && line[x] == '\n';
        if x < before.len() {
            assert(before[x] == '\n');
        } else if x < before.len() + id.len() {
            assert(id[x - before.len()] == '\n');
        } else {
            assert(after[x - before.len() - id.len()] == '\n');
        }
    }
    text::a_line_ends_at_its_line_feed(line);
    text::padding_is_trimmed(before, id, after);
    line_of_one_id(line);
    if line.len() > 0 && line.last() == '\r' {
        let short = line.drop_last();
        assert(text::is_space('\r'));
        if after.len() > 0 {
            let less = after.drop_last();
            assert(short == before + id + less);
            assert forall|i: int| 0 <= i < less.len() implies text::is_space(
                #[trigger] less[i],
            ) by {
                assert(less[i] == after[i]);
            }
            text::padding_is_trimmed(before, id, less);
        } else if id.len() > 0 {
            assert(line.last() == id.last());
        } else {
            let less = before.drop_last();
            assert(short == less + id + after);
            assert forall|i: int| 0 <= i < less.len() implies text::is_space(
                #[trigger] less[i],
            ) by {
                assert(less[i] == before[i]);
            }
            text::padding_is_trimmed(less, id, after);
        }
        line_of_one_id(short);
    }
    if line.len() == 0 {
        assert(ids_on(Seq::<Seq<char>>::empty()) == Seq::<Seq<char>>::empty()) by {
            reveal(Seq::filter);
        }
        assert(id == Seq::<char>::empty());
    }
}

proof fn line_of_one_id(line: Seq<char>)
    ensures
        ids_on(seq![line]) == (if text::trimmed(line).len() > 0 {
            seq![text::trimmed(line)]
        } else {
            Seq::<Seq<char>>::empty()
        }),
{
    let lines = seq![line];
    ids_on_push(lines, 0);
    assert(lines.take(1) == lines);
    assert(lines.take(0) == Seq::<Seq<char>>::empty());
    assert(ids_on(lines.take(0)) == Seq::<Seq<char>>::empty()) by {
        reveal(Seq::filter);
    }
}


} // verus!
