use shard_tests::claim;
use shard_tests::hook::{capture, shell, status, Ended, HookError};
use shard_tests::plan::{build, parse_units, Plan, PlanArgs};
use shard_tests::run::{self, can_run, RunArgs};
use shard_tests::text;
use shard_tests::timings::Timings;

fn plan() -> Plan {
    let args = PlanArgs {
        target_nanos: 2,
        default_nanos: 1,
        min_shards: 1,
        max_shards: 4,
    };
    let ids = parse_units("a\nb\nc\n").unwrap();
    build(&args, &ids, &Timings::new())
}

fn shard(index: usize, separator: &str) -> RunArgs {
    RunArgs {
        index,
        run: "test".to_string(),
        separator: separator.to_string(),
    }
}

#[test]
fn a_shard_gets_its_units() {
    let plan = plan();
    assert_eq!(plan.shards, 2);
    let launch = run::main(&plan, &shard(1, ", ")).unwrap().unwrap();
    assert_eq!(launch.units, vec!["a", "c"]);
    assert_eq!(launch.units_file, "a\nc\n");
    assert_eq!(launch.nanos, 2);
    assert_eq!(launch.script, "test");
    let env: Vec<(&str, &str)> = launch
        .env
        .iter()
        .map(|v| (v.name.as_str(), v.value.as_str()))
        .collect();
    assert_eq!(
        env,
        vec![
            ("SHARD_TESTS_UNITS", "a, c"),
            ("SHARD_TESTS_INDEX", "1"),
            ("SHARD_TESTS_TOTAL", "2"),
        ]
    );
}

#[test]
fn an_index_outside_the_plan_is_refused() {
    let plan = plan();
    for index in [0, 3] {
        let err = run::main(&plan, &shard(index, " ")).unwrap_err();
        assert_eq!(
            err.message(),
            format!("--index {index} is outside the planned range 1..=2")
        );
    }
}

#[test]
fn an_empty_shard_has_nothing_to_run() {
    let mut plan = plan();
    plan.assignment[1].clear();
    assert!(run::main(&plan, &shard(2, " ")).unwrap().is_none());
}

#[test]
fn every_unit_of_a_plan_runs_in_one_shard() {
    let plan = plan();
    let mut seen: Vec<String> = Vec::new();
    for index in 1..=plan.shards {
        if let Some(launch) = run::main(&plan, &shard(index, " ")).unwrap() {
            seen.extend(launch.units);
        }
    }
    seen.sort();
    assert_eq!(seen, vec!["a", "b", "c"]);
}

#[test]
fn a_units_file_lists_the_ids_again() {
    let plan = plan();
    let launch = run::main(&plan, &shard(1, " ")).unwrap().unwrap();
    assert_eq!(parse_units(&launch.units_file).unwrap(), launch.units);
}

#[test]
fn a_plan_that_names_unknown_units_cannot_be_run() {
    let mut plan = plan();
    assert!(can_run(&plan, 0) && can_run(&plan, 1) && can_run(&plan, 2) && can_run(&plan, 3));
    plan.assignment[0].push(3);
    assert!(!can_run(&plan, 1));
    plan.assignment.pop();
    assert!(!can_run(&plan, 2));
}

#[test]
fn snippets_are_handed_over_verbatim() {
    let unix = shell(false, "a | b \"$c\"");
    assert_eq!(unix.program, "bash");
    assert_eq!(unix.args, vec!["-eo", "pipefail", "-c", "a | b \"$c\""]);
    let windows = shell(true, "a");
    assert_eq!(windows.program, "pwsh");
    assert_eq!(windows.args, vec!["-NoProfile", "-Command", "a"]);
}

fn exited(success: bool) -> Ended {
    Ended::Exited {
        success,
        status: "exit status: 3".to_string(),
    }
}

#[test]
fn a_hook_is_judged_by_its_status() {
    assert!(status("build", exited(true)).is_ok());
    let err = status("build", exited(false)).unwrap_err();
    assert_eq!(err.message(), "the build hook failed (exit status: 3)");
    let err = status("build", Ended::NotStarted).unwrap_err();
    assert_eq!(err.message(), "could not spawn a shell for the build hook");
}

#[test]
fn a_hook_is_captured_as_text() {
    let printed = "é\n".as_bytes().to_vec();
    assert_eq!(capture("enumerate", exited(true), printed).unwrap(), "é\n");
    let err = capture("enumerate", exited(true), vec![0xff]).unwrap_err();
    assert!(matches!(err, HookError::NotText { .. }));
    assert_eq!(
        err.message(),
        "the enumerate hook wrote non-UTF-8 bytes to stdout"
    );
    let err = capture("enumerate", exited(false), vec![0xff]).unwrap_err();
    assert!(matches!(err, HookError::Failed { .. }));
}

#[test]
fn claiming_is_refused() {
    let err = claim::main(claim::ClaimArgs {}).unwrap_err();
    assert_eq!(
        err.message(),
        "claim-time assignment is not implemented yet (https://github.com/sotashimozono/shard-tests/issues/1). Use `shard-tests plan` followed by `shard-tests run --index` for the static path."
    );
}

#[test]
fn white_space_is_that_of_std() {
    for v in 0..=0x10ffffu32 {
        if let Some(c) = char::from_u32(v) {
            assert_eq!(text::space(c), c.is_whitespace(), "{v:x}");
        }
    }
}

#[test]
fn trimming_and_lines_are_those_of_std() {
    for s in [
        "", "a", " a ", "\r\n", "a\r\nb\n\nc", "a\rb\r", "\n\n", "\u{85}é \u{2003}", "a\r\r\nb",
    ] {
        assert_eq!(text::trim(s), s.trim());
        assert_eq!(text::lines(s), s.lines().collect::<Vec<_>>());
    }
}

#[test]
fn numbers_are_written_in_decimal() {
    for n in [0, 9, 10, 1090, usize::MAX] {
        assert_eq!(text::decimal(n), n.to_string());
    }
}

#[test]
fn parts_are_joined() {
    let parts = vec!["a".to_string(), "".to_string(), "b".to_string()];
    assert_eq!(text::join(&parts, "--"), "a----b");
    assert_eq!(text::join(&vec![], "--"), "");
}
