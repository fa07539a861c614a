use shard_tests::plan::{
    assign, build, choose_shards, emit_outputs, load_of, lpt_order, parse_units, with_timings,
    Plan, PlanArgs, PlanError, Unit,
};
use shard_tests::timings::Timings;

fn nanos(seconds: f64) -> i64 {
    (seconds * 1e9).round() as i64
}

fn total(seconds: f64) -> i128 {
    nanos(seconds) as i128
}

fn seconds(unit: &Unit) -> f64 {
    unit.nanos as f64 / 1e9
}

fn units_from(specs: &[(&str, f64)]) -> Vec<Unit> {
    specs
        .iter()
        .map(|&(id, seconds)| Unit {
            id: id.to_string(),
            nanos: nanos(seconds),
            measured: true,
        })
        .collect()
}

fn sample() -> Vec<Unit> {
    units_from(&[
        ("a", 30.0),
        ("b", 25.0),
        ("c", 10.0),
        ("d", 8.0),
        ("e", 2.0),
        ("f", 1.0),
        ("g", 1.0),
    ])
}

fn args() -> PlanArgs {
    PlanArgs {
        target_nanos: nanos(20.0),
        default_nanos: nanos(1.0),
        min_shards: 1,
        max_shards: 16,
    }
}

fn ids(names: &[&str]) -> Vec<String> {
    names.iter().map(|s| s.to_string()).collect()
}

fn sample_plan() -> Plan {
    let mut timings = Timings::new();
    for unit in sample() {
        timings.insert(unit.id, unit.nanos);
    }
    build(&args(), &ids(&["a", "b", "c", "d", "e", "f", "g"]), &timings)
}

#[test]
fn parse_units_keeps_enumeration_order_and_ignores_blank_lines() {
    let ids = parse_units("  b \n\n a\n\nc\n").unwrap();
    assert_eq!(ids, vec!["b", "a", "c"]);
}

#[test]
fn parse_units_rejects_a_duplicate_id() {
    let err = parse_units("x\ny\nx\n").unwrap_err().message();
    assert!(err.contains("duplicate"), "unexpected message: {err}");
    assert_eq!(err, "the enumerate hook emitted a duplicate unit id: x");
}

#[test]
fn parse_units_rejects_an_empty_suite() {
    // An enumerate recipe that matches nothing is a broken recipe far more
    // often than it is a suite with no tests, and treating it as the latter
    // reports success while running nothing.
    assert!(parse_units("\n  \n").is_err());
}

#[test]
fn parse_units_names_the_first_repeated_id() {
    let err = parse_units("a\nb\n b\na\n").unwrap_err();
    assert!(matches!(err, PlanError::DuplicateUnit { ref id } if id == "b"));
}

#[test]
fn parse_units_takes_windows_line_endings_and_unicode_space() {
    let ids = parse_units("\u{a0}a\u{3000}\r\nb c\r\n").unwrap();
    assert_eq!(ids, vec!["a", "b c"]);
}

#[test]
fn an_empty_suite_has_its_own_message() {
    let err = parse_units("").unwrap_err();
    assert_eq!(
        err.message(),
        "the enumerate hook produced no units — check the recipe, an empty suite is never assumed"
    );
}

#[test]
fn lpt_order_is_descending_and_breaks_ties_by_enumeration_order() {
    let units = units_from(&[("a", 1.0), ("b", 5.0), ("c", 5.0), ("d", 2.0)]);
    assert_eq!(lpt_order(&units), vec![1, 2, 3, 0]);
}

#[test]
fn lpt_order_agrees_with_a_stable_sort() {
    let units: Vec<Unit> = (0..200usize)
        .map(|i| Unit {
            id: i.to_string(),
            nanos: ((i * 7919) % 13) as i64 - 4,
            measured: true,
        })
        .collect();
    let mut expected: Vec<usize> = (0..units.len()).collect();
    expected.sort_by(|&a, &b| units[b].nanos.cmp(&units[a].nanos));
    assert_eq!(lpt_order(&units), expected);
    assert_eq!(lpt_order(&[]), Vec::<usize>::new());
}

#[test]
fn choose_shards_takes_the_smallest_count_meeting_the_target() {
    assert_eq!(choose_shards(total(77.0), nanos(20.0), 1, 16), 4);
    assert_eq!(choose_shards(total(77.0), nanos(20.0), 1, 2), 2, "clamped by max");
    assert_eq!(choose_shards(total(5.0), nanos(20.0), 3, 16), 3, "clamped by min");
    assert_eq!(choose_shards(total(0.0), nanos(20.0), 1, 16), 1);
    assert_eq!(choose_shards(total(77.0), nanos(0.0), 1, 8), 8, "no target means use max");
}

#[test]
fn choose_shards_divides_exactly() {
    assert_eq!(choose_shards(total(80.0), nanos(20.0), 1, 16), 4);
    assert_eq!(choose_shards(total(80.0) + 1, nanos(20.0), 1, 16), 5);
    assert_eq!(choose_shards(total(-3.0), nanos(20.0), 1, 16), 1);
    assert_eq!(choose_shards(total(77.0), nanos(-1.0), 1, 8), 8);
    assert_eq!(choose_shards(i128::MAX, 1, 1, usize::MAX), usize::MAX);
}

#[test]
fn every_unit_is_assigned_exactly_once() {
    let units = sample();
    let order = lpt_order(&units);
    for shards in 1..=8 {
        let assignment = assign(&units, &order, shards);
        let mut seen: Vec<usize> = assignment.iter().flatten().copied().collect();
        seen.sort_unstable();
        assert_eq!(
            seen,
            (0..units.len()).collect::<Vec<_>>(),
            "shards={shards} lost or duplicated a unit"
        );
    }
}

#[test]
fn assignment_meets_the_lpt_makespan_bound() {
    // Longest-processing-time-first is guaranteed within (4/3 - 1/3m) of the
    // optimal makespan, and the optimum is at least as large as both the
    // perfectly divided total and the longest indivisible unit. Comparing
    // against that arithmetic tests the packing against something other than
    // its own output.
    let units = sample();
    let order = lpt_order(&units);
    let total: f64 = units.iter().map(seconds).sum();
    let longest = units.iter().map(seconds).fold(0.0, f64::max);

    for shards in 1..=8 {
        let assignment = assign(&units, &order, shards);
        let makespan = assignment
            .iter()
            .map(|s| s.iter().map(|&i| seconds(&units[i])).sum::<f64>())
            .fold(0.0, f64::max);
        let optimum_at_least = (total / shards as f64).max(longest);
        let bound = (4.0 / 3.0 - 1.0 / (3.0 * shards as f64)) * optimum_at_least;
        assert!(
            makespan <= bound + 1e-9,
            "shards={shards}: makespan {makespan} exceeds the LPT bound {bound}"
        );
    }
}

#[test]
fn a_shard_count_above_the_unit_count_leaves_empty_shards() {
    // Legitimate once the count is chosen from measured work, so it must be
    // representable rather than an error.
    let units = units_from(&[("a", 1.0), ("b", 1.0)]);
    let order = lpt_order(&units);
    let assignment = assign(&units, &order, 5);
    assert_eq!(assignment.len(), 5);
    assert_eq!(assignment.iter().filter(|s| s.is_empty()).count(), 3);
}

#[test]
fn units_go_to_the_first_least_loaded_shard() {
    let units = sample();
    let order = lpt_order(&units);
    assert_eq!(
        assign(&units, &order, 3),
        vec![vec![0], vec![1], vec![2, 3, 4, 5, 6]]
    );
    assert_eq!(assign(&units, &[], 0), Vec::<Vec<usize>>::new());
}

#[test]
fn units_without_a_timing_take_the_default() {
    let mut timings = Timings::new();
    timings.insert("b".to_string(), nanos(4.5));
    let units = with_timings(&ids(&["a", "b"]), &timings, nanos(1.0));
    assert_eq!((units[0].id.as_str(), units[0].nanos, units[0].measured), ("a", 1_000_000_000, false));
    assert_eq!((units[1].id.as_str(), units[1].nanos, units[1].measured), ("b", 4_500_000_000, true));
}

#[test]
fn a_plan_holds_order_totals_and_assignment() {
    let plan = sample_plan();
    assert_eq!(plan.shards, 4);
    assert_eq!(plan.total_nanos, total(77.0));
    assert_eq!(plan.measured_nanos, total(77.0));
    assert_eq!(plan.order, vec![0, 1, 2, 3, 4, 5, 6]);
    assert_eq!(
        plan.assignment,
        vec![vec![0], vec![1], vec![2, 5], vec![3, 4, 6]]
    );
    assert_eq!(plan.measured_fraction(), (total(77.0), total(77.0)));
    assert!(!plan.is_partly_assumed());
}

#[test]
fn an_unmeasured_suite_is_measured_by_no_part() {
    let plan = build(&args(), &ids(&["a", "b"]), &Timings::new());
    assert_eq!(plan.measured_fraction(), (0, 1));
    assert!(plan.is_partly_assumed());
    assert_eq!(plan.total_nanos, total(2.0));
    assert_eq!(plan.shards, 1);
}

#[test]
fn the_last_of_the_longest_units_is_critical() {
    let mut plan = sample_plan();
    assert_eq!(plan.critical_unit(), Some(0));
    assert_eq!(plan.unit_over_target(nanos(20.0)), Some(0));
    assert_eq!(plan.unit_over_target(nanos(30.0)), None);
    plan.units[3].nanos = nanos(30.0);
    assert_eq!(plan.critical_unit(), Some(3));
    plan.units.clear();
    assert_eq!(plan.critical_unit(), None);
}

#[test]
fn outputs_are_lines_with_a_json_matrix() {
    assert_eq!(
        emit_outputs(&sample_plan()),
        "shards=4\nmatrix={\"index\":[1,2,3,4]}\nunits=7\n"
    );
}

#[test]
fn outputs_write_numbers_in_decimal() {
    let mut wide = args();
    wide.target_nanos = 0;
    wide.max_shards = 12;
    let plan = build(&wide, &ids(&["a"]), &Timings::new());
    assert_eq!(
        emit_outputs(&plan),
        "shards=12\nmatrix={\"index\":[1,2,3,4,5,6,7,8,9,10,11,12]}\nunits=1\n"
    );
}

#[test]
fn the_range_of_shard_counts_is_checked() {
    assert!(args().check().is_ok());
    let mut none = args();
    none.min_shards = 0;
    let err = none.check().unwrap_err();
    assert!(matches!(err, PlanError::NoMinimum));
    assert_eq!(err.message(), "--min-shards must be at least 1");
    let mut turned = args();
    turned.min_shards = 20;
    let err = turned.check().unwrap_err();
    assert!(matches!(err, PlanError::MaximumBelowMinimum { max: 16, min: 20 }));
    assert_eq!(err.message(), "--max-shards (16) is below --min-shards (20)");
}

#[test]
fn packing_stays_within_the_bound_of_the_best_placement() {
    // Two shards, best placement 9: 5 + 4 and 3 + 3 + 3.
    let units = units_from(&[("a", 5.0), ("b", 4.0), ("c", 3.0), ("d", 3.0), ("e", 3.0)]);
    let order = lpt_order(&units);
    let assignment = assign(&units, &order, 2);
    let load = |list: &Vec<usize>| list.iter().map(|&i| units[i].nanos).sum::<i64>();
    let makespan = assignment.iter().map(load).max().unwrap();
    assert_eq!(makespan, nanos(10.0));
    assert!(3 * 2 * makespan <= (4 * 2 - 1) * nanos(9.0));
}

#[test]
fn units_that_take_the_same_time_are_split_by_count() {
    let mut wide = args();
    wide.target_nanos = 0;
    wide.max_shards = 3;
    let names: Vec<String> = (0..8).map(|i| format!("u{i}")).collect();
    let plan = build(&wide, &names, &Timings::new());
    let sizes: Vec<usize> = plan.assignment.iter().map(|s| s.len()).collect();
    assert_eq!(sizes, vec![3, 3, 2]);
}

#[test]
fn the_loads_of_the_shards_add_up_to_the_total() {
    let plan = sample_plan();
    let loads: Vec<i128> = plan
        .assignment
        .iter()
        .map(|shard| load_of(&plan.units, shard))
        .collect();
    assert_eq!(loads, vec![total(30.0), total(25.0), total(11.0), total(11.0)]);
    assert_eq!(loads.iter().sum::<i128>(), plan.total_nanos);
}

#[test]
fn the_measured_part_is_part_of_the_total() {
    let mut timings = Timings::new();
    timings.insert("a".to_string(), nanos(3.0));
    let plan = build(&args(), &ids(&["a", "b"]), &timings);
    assert_eq!(plan.measured_fraction(), (total(3.0), total(4.0)));
    assert!(plan.is_partly_assumed());
}

#[test]
fn a_unit_can_be_cloned() {
    let unit = sample().remove(0).clone();
    assert_eq!((unit.id.as_str(), unit.nanos, unit.measured), ("a", nanos(30.0), true));
}
