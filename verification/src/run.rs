//! The run phase: one shard's share of the plan.

use crate::packing;
use crate::plan;
use crate::plan::Plan;
use crate::sums;
use crate::text;
use vstd::prelude::*;
use vstd::string::*;

verus! {

/// What a shard is run with.
#[derive(Debug)]
pub struct RunArgs {
    /// 1-based shard index, i.e. the matrix value produced by the plan phase.
    pub index: usize,
    /// Shell snippet executed with `SHARD_TESTS_UNITS` set to this shard's ids.
    pub run: String,
    /// String joining the unit ids in `SHARD_TESTS_UNITS`.
    ///
    /// Newline suits runners that read a file or a list; a space or comma suits
    /// filter expressions built by string interpolation.
    pub separator: String,
}

/// An environment variable of a hook.
#[derive(Debug)]
pub struct Variable {
    /// Its name.
    pub name: String,
    /// Its value.
    pub value: String,
}

/// What to run for a shard that has units.
#[derive(Debug)]
pub struct Launch {
    /// The snippet.
    pub script: String,
    /// The ids of the shard's units.
    pub units: Vec<String>,
    /// The same ids, one per line.
    pub units_file: String,
    /// What the snippet finds in its environment.
    pub env: Vec<Variable>,
    /// How long the units are expected to take.
    pub nanos: i128,
}

/// The shard index is not one of the plan.
#[derive(Debug)]
pub struct OutOfRange {
    /// The index.
    pub index: usize,
    /// The number of shards.
    pub shards: usize,
}

/// `index` is one of the plan's shards.
pub open spec fn in_range(plan: Plan, index: usize) -> bool {
    1 <= index <= plan.shards
}

/// The assignment says which units the shard has, and they are units of the plan.
pub open spec fn is_assigned(plan: Plan, index: usize) -> bool {
    &&& index - 1 < plan.assignment@.len()
    &&& forall|i: int|
        0 <= i < plan.assignment@[index - 1]@.len() ==> (#[trigger] plan.assignment@[index - 1]@[i])
            < plan.units@.len()
}

/// The ids of the listed units.
pub open spec fn ids_of(units: Seq<plan::Unit>, list: Seq<usize>) -> Seq<Seq<char>> {
    list.map_values(|u: usize| units[u as int].id@)
}

/// The ids of the shard with this index.
pub open spec fn shard_ids(plan: Plan, index: usize) -> Seq<Seq<char>> {
    ids_of(plan.units@, plan.assignment@[index - 1]@)
}

/// Names and values of the variables.
pub open spec fn variables(env: Seq<Variable>) -> Seq<(Seq<char>, Seq<char>)> {
    env.map_values(|v: Variable| (v.name@, v.value@))
}

/// The ids, one per line.
pub open spec fn listing(ids: Seq<Seq<char>>) -> Seq<char> {
    text::joined(ids, "\n"@) + "\n"@
}

/// The environment of the snippet.
pub open spec fn environment(
    ids: Seq<Seq<char>>,
    separator: Seq<char>,
    index: usize,
    shards: usize,
) -> Seq<(Seq<char>, Seq<char>)> {
    seq![
        ("SHARD_TESTS_UNITS"@, text::joined(ids, separator)),
        ("SHARD_TESTS_INDEX"@, text::decimal_of(index as nat)),
        ("SHARD_TESTS_TOTAL"@, text::decimal_of(shards as nat)),
    ]
}

/// Whether the plan says which units the shard has. A plan that was made here
/// does; one that was read from a file may not.
pub fn can_run(plan: &Plan, index: usize) -> (yes: bool)
    ensures
        yes == (in_range(*plan, index) ==> is_assigned(*plan, index)),
        yes <==> (1 <= index <= plan.shards ==> index <= plan.assignment@.len() && forall|i: int|
            0 <= i < plan.assignment@[index - 1]@.len() ==> (
            #[trigger] plan.assignment@[index - 1]@[i]) < plan.units@.len()),
{
    if index == 0 || index > plan.shards {
        return true;
    }
    if index - 1 >= plan.assignment.len() {
        return false;
    }
    let list = &plan.assignment[index - 1];
    let mut i: usize = 0;
    while i < list.len()
        invariant
            in_range(*plan, index),
            index - 1 < plan.assignment.len(),
            *list == plan.assignment@[index - 1],
            i <= list.len(),
            forall|j: int| 0 <= j < i ==> (#[trigger] list@[j]) < plan.units@.len(),
        decreases list.len() - i,
    {
        if list[i] >= plan.units.len() {
            assert(list@[i as int] == plan.assignment@[index - 1]@[i as int]);
            return false;
        }
        i += 1;
    }
    true
}

fn variable(name: &str, value: String) -> (out: Variable)
    ensures
        out.name@ == name@,
        out.value == value,
{
    Variable { name: name.to_owned(), value }
}

/// What to run for one shard. Nothing, if the shard has no units: an empty shard
/// is a legitimate outcome once the shard count is chosen from measured work.
pub fn main(plan: &Plan, args: &RunArgs) -> (out: Result<Option<Launch>, OutOfRange>)
    requires
        in_range(*plan, args.index) ==> is_assigned(*plan, args.index),
    ensures
        match out {
            Ok(launch) => {
                &&& in_range(*plan, args.index)
                &&& 1 <= args.index <= plan.shards
                &&& launch is None <==> shard_ids(*plan, args.index).len() == 0
                &&& launch is None <==> plan.assignment@[args.index - 1]@.len() == 0
                &&& launch matches Some(launch) ==> {
                    let ids = shard_ids(*plan, args.index);
                    &&& launch.script == args.run
                    &&& text::views(launch.units@) == ids
                    &&& launch.units_file@ == listing(ids)
                    &&& variables(launch.env@) == environment(
                        ids,
                        args.separator@,
                        args.index,
                        plan.shards,
                    )
                    &&& launch.nanos == packing::load(
                        plan::durations(plan.units@),
                        plan.assignment@[args.index - 1]@,
                    )
                }
                &&& launch matches Some(launch) ==> {
                    let list = plan.assignment@[args.index - 1]@;
                    &&& launch.units@.len() == list.len()
                    &&& forall|i: int|
                        0 <= i < list.len() ==> (#[trigger] launch.units@[i])@
                            == plan.units@[list[i] as int].id@
                    &&& launch.units_file@ == text::joined(text::views(launch.units@), "\n"@)
                        + "\n"@
                    &&& launch.env@.len() == 3
                    &&& launch.env@[0].name@ == "SHARD_TESTS_UNITS"@
                    &&& launch.env@[0].value@ == text::joined(
                        text::views(launch.units@),
                        args.separator@,
                    )
                    &&& launch.env@[1].name@ == "SHARD_TESTS_INDEX"@
                    &&& launch.env@[1].value@ == text::decimal_of(args.index as nat)
                    &&& launch.env@[2].name@ == "SHARD_TESTS_TOTAL"@
                    &&& launch.env@[2].value@ == text::decimal_of(plan.shards as nat)
                    &&& launch.nanos == list.fold_left(
                        0int,
                        |sum: int, u: usize| sum + plan.units@[u as int].nanos,
                    )
                }
            },
            Err(error) => {
                &&& !in_range(*plan, args.index)
                &&& args.index == 0 || args.index > plan.shards
                &&& error.index == args.index
                &&& error.shards == plan.shards
            },
        },
{
    if args.index == 0 || args.index > plan.shards {
        return Err(OutOfRange { index: args.index, shards: plan.shards });
    }
    let list = &plan.assignment[args.index - 1];
    let ghost all = shard_ids(*plan, args.index);
    if list.len() == 0 {
        return Ok(None);
    }
    let mut units: Vec<String> = Vec::new();
    let mut i: usize = 0;
    while i < list.len()
        invariant
            in_range(*plan, args.index),
            is_assigned(*plan, args.index),
            *list == plan.assignment@[args.index - 1],
            all == shard_ids(*plan, args.index),
            i <= list.len(),
            text::views(units@) == all.take(i as int),
        decreases list.len() - i,
    {
        assert(list@[i as int] == plan.assignment@[args.index - 1]@[i as int]);
        let unit = &plan.units[list[i]];
        let ghost before = units@;
        units.push(unit.id.clone());
        assert(text::views(units@) == text::views(before).push(all[i as int]));
        i += 1;
    }
    assert(all.take(i as int) == all);
    proof {
        a_shard_has_the_ids_of_its_units(*plan, args.index);
        text::views_are_of_each_string(units@);
        assert forall|j: int| 0 <= j < list@.len() implies (#[trigger] units@[j])@
            == plan.units@[list@[j] as int].id@ by {
            assert(text::views(units@)[j] == units@[j]@);
            assert(all[j] == plan.units@[list@[j] as int].id@);
        }
    }
    let nanos = plan::load_of(plan.units.as_slice(), list.as_slice());
    proof {
        plan::load_adds_up(plan.units@, list@);
    }
    let mut units_file = text::join(&units, "\n");
    units_file.append("\n");
    let mut env: Vec<Variable> = Vec::new();
    env.push(variable("SHARD_TESTS_UNITS", text::join(&units, args.separator.as_str())));
    env.push(variable("SHARD_TESTS_INDEX", text::decimal(args.index)));
    env.push(variable("SHARD_TESTS_TOTAL", text::decimal(plan.shards)));
    assert(variables(env@) == environment(all, args.separator@, args.index, plan.shards));
    Ok(Some(Launch { script: args.run.clone(), units, units_file, env, nanos }))
}

impl OutOfRange {
    /// The text of the message.
    pub open spec fn text(self) -> Seq<char> {
        "--index "@ + text::decimal_of(self.index as nat)
            + " is outside the planned range 1..="@ + text::decimal_of(self.shards as nat)
    }

    /// What to tell the user.
    pub fn message(&self) -> (out: String)
        ensures
            out@ == self.text(),
            out@ == "--index "@ + text::decimal_of(self.index as nat)
                + " is outside the planned range 1..="@ + text::decimal_of(self.shards as nat),
    {
        let mut out = "--index ".to_owned();
        out.append(text::decimal(self.index).as_str());
        out.append(" is outside the planned range 1..=");
        out.append(text::decimal(self.shards).as_str());
        out
    }
}

/// Every index of the matrix of a plan that was made here can be run.
pub proof fn every_shard_can_be_run(plan: Plan, index: usize)
    requires
        plan.well_formed(),
        in_range(plan, index),
    ensures
        is_assigned(plan, index),
{
    let nanos = plan::durations(plan.units@);
    let s = index - 1;
    packing::packed_len(nanos, plan.order@, plan.shards as nat);
    let all = plan::lists(plan.assignment@);
    assert(all.len() == plan.shards);
    assert(all[s] == plan.assignment@[s]@);
    assert forall|i: int| 0 <= i < plan.assignment@[s]@.len() implies (
    #[trigger] plan.assignment@[s]@[i]) < plan.units@.len() by {
        packing::packed_entries(nanos, plan.order@, plan.shards as nat, s, i);
        let u = all[s][i];
        let x = choose|x: int| 0 <= x < plan.order@.len() && plan.order@[x] == u;
        assert(plan.order@[x] < nanos.len());
    }
}

/// Every unit of a plan that was made here runs exactly once: one shard holds it,
/// once, and no other shard holds it.
pub proof fn every_unit_runs_exactly_once(plan: Plan, u: usize)
    requires
        plan.well_formed(),
        u < plan.units@.len(),
    ensures
        exists|index: usize|
            {
                &&& in_range(plan, index)
                &&& #[trigger] sums::occurrences(plan.assignment@[index - 1]@, u) == 1
                &&& forall|other: usize|
                    in_range(plan, other) && other != index
                        ==> #[trigger] sums::occurrences(plan.assignment@[other - 1]@, u) == 0
            },
{
    let nanos = plan::durations(plan.units@);
    let m = plan.shards as nat;
    assert(plan.units.len() == nanos.len());
    let all = plan::lists(plan.assignment@);
    packing::packed_len(nanos, plan.order@, m);
    packing::every_unit_is_assigned_once(nanos, plan.order@, m, u);
    let f = |s: int| sums::total(all[s], sums::hits(u));
    assert forall|s: int| 0 <= s < m implies #[trigger] f(s) >= 0 by {
        sums::total_nonnegative(all[s], sums::hits(u));
    }
    let s = sums::only_term(m, f);
    let index = (s + 1) as usize;
    assert(all[s] == plan.assignment@[index - 1]@);
    assert forall|other: usize| in_range(plan, other) && other != index implies
        #[trigger] sums::occurrences(plan.assignment@[other - 1]@, u) == 0 by {
        assert(all[other - 1] == plan.assignment@[other - 1]@);
        assert(f(other - 1) == 0);
    }
    assert(sums::occurrences(plan.assignment@[index - 1]@, u) == 1);
}

/// The units file of a shard names the shard's ids again, if they are ids that an
/// enumerate hook can name.
pub proof fn units_file_names_the_ids(ids: Seq<Seq<char>>)
    requires
        ids.len() > 0,
        forall|i: int| 0 <= i < ids.len() ==> plan::is_id(#[trigger] ids[i]),
    ensures
        plan::unit_ids(listing(ids)) == ids,
{
    text::on_lines_is_joined(ids);
    plan::listed_ids_are_read_back(ids);
}

/// A shard has as many ids as the plan lists units for it, and each is the id of
/// the unit that is listed there.
pub proof fn a_shard_has_the_ids_of_its_units(plan: Plan, index: usize)
    requires
        1 <= index <= plan.assignment@.len(),
    ensures
        shard_ids(plan, index).len() == plan.assignment@[index - 1]@.len(),
        forall|i: int|
            0 <= i < plan.assignment@[index - 1]@.len() ==> #[trigger] shard_ids(plan, index)[i]
                == plan.units@[plan.assignment@[index - 1]@[i] as int].id@,
{
}

proof fn flattened_ids(lists: Seq<Seq<usize>>, named: Seq<Seq<Seq<char>>>, ids: Seq<Seq<char>>)
    requires
        named.len() == lists.len(),
        forall|s: int| 0 <= s < lists.len() ==> (#[trigger] named[s]).len() == lists[s].len(),
        forall|s: int, i: int|
            0 <= s < lists.len() && 0 <= i < lists[s].len() ==> #[trigger] named[s][i]
                == ids[lists[s][i] as int],
    ensures
        named.flatten().len() == lists.flatten().len(),
        forall|i: int|
            0 <= i < lists.flatten().len() ==> #[trigger] named.flatten()[i]
                == ids[lists.flatten()[i] as int],
    decreases lists.len(),
{
    if lists.len() > 0 {
        let a = lists.drop_first();
        let b = named.drop_first();
        assert forall|s: int| 0 <= s < a.len() implies (#[trigger] b[s]).len() == a[s].len() by {
            assert(b[s] == named[s + 1]);
        }
        assert forall|s: int, i: int| 0 <= s < a.len() && 0 <= i < a[s].len() implies
            #[trigger] b[s][i] == ids[a[s][i] as int] by {
            assert(b[s][i] == named[s + 1][i]);
        }
        flattened_ids(a, b, ids);
        assert(named[0].len() == lists[0].len());
        assert forall|i: int| 0 <= i < lists.flatten().len() implies #[trigger] named.flatten()[i]
            == ids[lists.flatten()[i] as int] by {
            if i < lists[0].len() {
                assert(named[0][i] == ids[lists[0][i] as int]);
            } else {
                assert(b.flatten()[i - lists[0].len()] == ids[a.flatten()[i - lists[0].len()] as int]);
            }
        }
    }
}

/// All the shards of a plan together run the suite: what the launches of the
/// indices from one to the number of shards name, one launch after the other, is
/// the id of every unit of the plan, each once, in some order.
pub proof fn launches_name_every_unit_once(plan: Plan, named: Seq<Seq<Seq<char>>>)
    requires
        plan.well_formed(),
        named.len() == plan.shards,
        forall|index: usize|
            1 <= index <= plan.shards ==> named[index - 1] == #[trigger] shard_ids(plan, index),
    ensures
        named.flatten().to_multiset() == plan.units@.map_values(
            |u: plan::Unit| u.id@,
        ).to_multiset(),
{
    let ids = plan.units@.map_values(|u: plan::Unit| u.id@);
    let all = plan::lists(plan.assignment@);
    plan::a_plan_assigns_each_unit_once(plan);
    plan::lists_are_of_each_list(plan.assignment@);
    assert(plan.units@.len() == plan.units.len());
    assert forall|s: int| 0 <= s < all.len() implies (#[trigger] named[s]).len() == all[s].len()
        && forall|i: int|
        0 <= i < all[s].len() ==> #[trigger] named[s][i] == ids[all[s][i] as int] by {
        let index = (s + 1) as usize;
        every_shard_can_be_run(plan, index);
        a_shard_has_the_ids_of_its_units(plan, index);
        assert(named[index - 1] == shard_ids(plan, index));
        assert(all[s] == plan.assignment@[s]@);
        assert forall|i: int| 0 <= i < all[s].len() implies #[trigger] named[s][i]
            == ids[all[s][i] as int] by {
            assert(plan.assignment@[index - 1]@[i] < plan.units@.len());
            assert(shard_ids(plan, index)[i] == plan.units@[all[s][i] as int].id@);
        }
    }
    flattened_ids(all, named, ids);
    sums::picking_all_is_a_permutation(ids, all.flatten(), named.flatten());
}


} // verus!
