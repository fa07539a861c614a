use serde_json::Value;
use shard_tests::timings::{
    append, compact, load, load_any, record_lines, reduce, Estimates, Record, TimingsError,
};

fn nanos(seconds: f64) -> i64 {
    (seconds * 1e9).round() as i64
}

fn seconds(nanos: i64) -> f64 {
    nanos as f64 / 1e9
}

fn at(estimates: &Estimates, unit: &str) -> f64 {
    estimates.get(unit).unwrap() as f64 / 2e9
}

fn rec(unit: &str, seconds: f64, runner: &str) -> Record {
    Record {
        unit: unit.into(),
        nanos: nanos(seconds),
        runner: runner.into(),
        outcome: "pass".into(),
        sha: String::new(),
        run: String::new(),
    }
}

#[test]
fn reduce_takes_the_median_of_the_most_recent_observations() {
    // Oldest first. With keep = 3 the leading 99.0 must not survive to skew it.
    let records = vec![
        rec("a", 99.0, "linux"),
        rec("a", 1.0, "linux"),
        rec("a", 2.0, "linux"),
        rec("a", 3.0, "linux"),
    ];
    let out = reduce(&records, Some("linux"), 3);
    assert_eq!(at(&out, "a"), 2.0);
}

#[test]
fn reduce_selects_by_runner() {
    // A Windows job can be twice a Linux one; mixing them balances neither.
    let records = vec![rec("a", 1.0, "linux"), rec("a", 10.0, "windows")];
    assert_eq!(at(&reduce(&records, Some("linux"), 5), "a"), 1.0);
    assert_eq!(at(&reduce(&records, Some("windows"), 5), "a"), 10.0);
    assert_eq!(at(&reduce(&records, None, 5), "a"), 5.5, "unfiltered takes both");
}

#[test]
fn reduce_keeps_everything_when_keep_is_zero() {
    let records = vec![
        rec("a", 9.0, "linux"),
        rec("b", 4.0, "linux"),
        rec("a", 1.0, "linux"),
        rec("a", 2.0, "linux"),
        rec("a", 8.0, "linux"),
    ];
    let out = reduce(&records, None, 0);
    assert_eq!(at(&out, "a"), 5.0);
    assert_eq!(at(&out, "b"), 4.0);
    assert_eq!(out.get("c"), None);
}

#[test]
fn the_mean_of_two_middle_values_is_exact() {
    let mut low = rec("a", 0.0, "linux");
    low.nanos = -3;
    let mut high = rec("a", 0.0, "linux");
    high.nanos = 0;
    assert_eq!(reduce(&[low, high], None, 0).get("a"), Some(-3), "minus one and a half");
    let mut least = rec("b", 0.0, "linux");
    least.nanos = i64::MIN;
    let mut most = rec("b", 0.0, "linux");
    most.nanos = i64::MAX;
    assert_eq!(reduce(&[most, least], None, 0).get("b"), Some(-1));
    let mut one = rec("c", 0.0, "linux");
    one.nanos = 1;
    let mut two = one.clone();
    two.nanos = 2;
    assert_eq!(at(&reduce(&[one.clone(), two], None, 0), "c"), 1.5e-9);
    assert_eq!(reduce(&[one], None, 0).get("c"), Some(2), "a nanosecond");
}

#[test]
fn compact_keeps_the_last_n_per_unit_and_runner() {
    let records = vec![
        rec("a", 1.0, "linux"),
        rec("a", 2.0, "linux"),
        rec("a", 3.0, "linux"),
        rec("a", 9.0, "windows"),
    ];
    let out = compact(&records, 2, None);
    let linux: Vec<f64> = out
        .iter()
        .filter(|r| r.runner == "linux")
        .map(|r| seconds(r.nanos))
        .collect();
    assert_eq!(linux, vec![2.0, 3.0], "oldest dropped, order preserved");
    assert_eq!(out.iter().filter(|r| r.runner == "windows").count(), 1);
}

#[test]
fn compact_drops_units_no_longer_in_the_universe() {
    // A deleted test would otherwise keep counting toward the predicted total
    // that decides the shard count.
    let records = vec![rec("alive", 1.0, "linux"), rec("deleted", 50.0, "linux")];
    let universe = vec!["alive".to_string()];
    let out = compact(&records, 5, Some(&universe));
    assert_eq!(out.len(), 1);
    assert_eq!(out[0].unit, "alive");
}

#[test]
fn compact_keeps_all_when_keep_is_zero() {
    let records = vec![
        rec("a", 1.0, "linux"),
        rec("b", 2.0, "linux"),
        rec("a", 3.0, "linux"),
    ];
    let out = compact(&records, 0, None);
    assert_eq!(out.len(), 3);
    let order: Vec<&str> = out.iter().map(|r| r.unit.as_str()).collect();
    assert_eq!(order, vec!["a", "b", "a"]);
    assert_eq!(out[2].outcome, "pass");
}

#[test]
fn compacting_twice_changes_nothing_and_keeps_estimates() {
    let records: Vec<Record> = (0..40)
        .map(|i| {
            rec(
                ["a", "b", "c"][i % 3],
                (i * 17 % 11) as f64,
                ["linux", "windows"][i % 2],
            )
        })
        .collect();
    let once = compact(&records, 4, None);
    let twice = compact(&once, 4, None);
    assert_eq!(once.len(), 24);
    assert_eq!(once.len(), twice.len());
    for (a, b) in once.iter().zip(&twice) {
        assert_eq!((&a.unit, a.nanos, &a.runner), (&b.unit, b.nanos, &b.runner));
    }
    for unit in ["a", "b", "c"] {
        for runner in ["linux", "windows"] {
            assert_eq!(
                reduce(&records, Some(runner), 4).get(unit),
                reduce(&once, Some(runner), 4).get(unit)
            );
        }
    }
}

#[test]
fn a_record_is_stamped_with_its_provenance() {
    let record = Record::new(
        "a".to_string(),
        7,
        "pass",
        "linux",
        Some("abc".to_string()),
        None,
    );
    assert_eq!(record.unit, "a");
    assert_eq!(record.nanos, 7);
    assert_eq!(record.outcome, "pass");
    assert_eq!(record.runner, "linux");
    assert_eq!(record.sha, "abc");
    assert_eq!(record.run, "");
}

#[test]
fn blank_lines_are_skipped_but_counted() {
    let lines = record_lines("{1}\n\n  \t\n{2}\r\n{3}");
    let seen: Vec<(usize, &str)> = lines.iter().map(|l| (l.number, l.text.as_str())).collect();
    assert_eq!(seen, vec![(1, "{1}"), (4, "{2}"), (5, "{3}")]);
}

#[test]
fn appended_lines_are_read_back_after_what_was_there() {
    let first = vec!["{1}".to_string(), "{2}".to_string()];
    let second = vec!["{3}".to_string()];
    let store = format!("{}{}", append(&first), append(&second));
    assert_eq!(store, "{1}\n{2}\n{3}\n");
    let texts: Vec<String> = record_lines(&store).into_iter().map(|l| l.text).collect();
    assert_eq!(texts, vec!["{1}", "{2}", "{3}"]);
    assert_eq!(append(&[]), "");
}

#[test]
fn load_reports_the_line_that_failed() {
    let parsed = vec![Some(rec("a", 1.0, "linux")), None, None];
    let err = load("{1}\n\n?\n?\n", parsed).err().unwrap();
    assert!(matches!(err, TimingsError::NotARecord { line: 3 }));
    assert_eq!(err.message("t.jsonl"), "t.jsonl:3 is not a timing record");
    let parsed = vec![Some(rec("a", 1.0, "linux"))];
    assert_eq!(load("{1}\n", parsed).unwrap()[0].unit, "a");
}

#[test]
fn load_any_takes_the_flat_object_as_it_is() {
    let mut flat = Estimates::new();
    flat.insert("a".to_string(), 5);
    let out = load_any("{}", Some(flat), vec![], Some("linux"), 3).unwrap();
    assert_eq!(out.get("a"), Some(5));
    assert!(!out.is_empty());
    let none = load_any("{}", Some(Estimates::new()), vec![], Some("linux"), 3).unwrap();
    assert!(none.is_empty());
}

#[test]
fn load_any_reduces_records() {
    let parsed = vec![
        Some(rec("a", 1.0, "linux")),
        Some(rec("a", 3.0, "linux")),
        Some(rec("a", 50.0, "windows")),
    ];
    let out = load_any("{1}\n{2}\n{3}\n", None, parsed, Some("linux"), 5).unwrap();
    assert_eq!(at(&out, "a"), 2.0);
}

#[test]
fn load_any_refuses_a_store_without_records() {
    let err = load_any("\n \n", None, vec![], None, 5).err().unwrap();
    assert!(matches!(err, TimingsError::NoRecords));
    assert_eq!(
        err.message("t"),
        "t holds no timing records — it is neither JSONL nor a unit-to-seconds object"
    );
    let err = load_any("\n?\n", None, vec![None], None, 5).err().unwrap();
    assert!(matches!(err, TimingsError::NotARecord { line: 2 }));
}

#[test]
fn load_any_refuses_an_unknown_runner() {
    let parsed = vec![Some(rec("a", 1.0, "linux")), Some(rec("b", 1.0, "linux"))];
    let err = load_any("{1}\n{2}\n", None, parsed, Some("mac"), 5).err().unwrap();
    assert!(matches!(err, TimingsError::NoneForRunner { records: 2, .. }));
    assert_eq!(
        err.message("t"),
        "t has 2 record(s) but none for runner mac — check the --runner name"
    );
}

/// A record to a line: the unit and its nanoseconds.
fn decode(line: &str) -> Option<Record> {
    let (unit, nanos) = line.split_once('=')?;
    Some(Record {
        unit: unit.into(),
        nanos: nanos.parse().ok()?,
        runner: String::new(),
        outcome: String::new(),
        sha: String::new(),
        run: String::new(),
    })
}

fn load_decoded(raw: &str) -> Result<Vec<(String, i64)>, TimingsError> {
    let parsed = record_lines(raw).iter().map(|l| decode(&l.text)).collect();
    let records = load(raw, parsed)?;
    Ok(records.into_iter().map(|r| (r.unit, r.nanos)).collect())
}

#[test]
fn appended_records_are_loaded_after_the_old_ones() {
    let store = "a=1\n\nb=2\n".to_string();
    let added = append(&["c=3".to_string(), "a=4".to_string()]);
    assert_eq!(
        load_decoded(&(store + &added)).unwrap(),
        vec![
            ("a".to_string(), 1),
            ("b".to_string(), 2),
            ("c".to_string(), 3),
            ("a".to_string(), 4),
        ]
    );
    // A line that was no record before is still none.
    let broken = "a=1\nnonsense\n".to_string() + &added;
    assert!(matches!(
        load_decoded(&broken),
        Err(TimingsError::NotARecord { line: 2 })
    ));
}

#[test]
fn compacting_keeps_what_is_read_of_all_runners() {
    let records = vec![
        rec("a", 9.0, "linux"),
        rec("a", 1.0, "windows"),
        rec("a", 8.0, "linux"),
        rec("a", 2.0, "linux"),
        rec("a", 4.0, "windows"),
        rec("a", 6.0, "linux"),
    ];
    let kept = compact(&records, 2, None);
    assert_eq!(kept.len(), 4, "two of each runner");
    for back in 1..=2 {
        assert_eq!(
            at(&reduce(&kept, None, back), "a"),
            at(&reduce(&records, None, back), "a")
        );
    }
    assert_eq!(at(&reduce(&records, None, 2), "a"), 5.0);
}

#[test]
fn one_slow_run_does_not_move_the_estimate() {
    for slow in [3.0, 30.0, 3000.0] {
        let records = vec![
            rec("a", 1.0, "linux"),
            rec("a", slow, "linux"),
            rec("a", 2.0, "linux"),
        ];
        assert_eq!(at(&reduce(&records, Some("linux"), 3), "a"), 2.0);
    }
    // Two observations have no middle one: there the slower one counts.
    let two = vec![rec("a", 1.0, "linux"), rec("a", 9.0, "linux")];
    assert_eq!(at(&reduce(&two, Some("linux"), 3), "a"), 5.0);
}

/// A record as a JSON object with its duration in seconds; what is empty is left
/// out.
fn encode_json(record: &Record) -> String {
    let mut object = serde_json::Map::new();
    object.insert("unit".into(), Value::from(record.unit.clone()));
    object.insert("seconds".into(), Value::from(seconds(record.nanos)));
    for (key, value) in [
        ("runner", &record.runner),
        ("outcome", &record.outcome),
        ("sha", &record.sha),
        ("run", &record.run),
    ] {
        if !value.is_empty() {
            object.insert(key.into(), Value::from(value.clone()));
        }
    }
    Value::Object(object).to_string()
}

fn decode_json(line: &str) -> Option<Record> {
    let value: Value = serde_json::from_str(line).ok()?;
    let text = |key: &str| match value.get(key) {
        Some(text) => text.as_str().map(str::to_string),
        None => Some(String::new()),
    };
    Some(Record {
        unit: value.get("unit")?.as_str()?.to_string(),
        nanos: nanos(value.get("seconds")?.as_f64()?),
        runner: text("runner")?,
        outcome: text("outcome")?,
        sha: text("sha")?,
        run: text("run")?,
    })
}

fn fields(r: &Record) -> (&str, i64, &str, &str, &str, &str) {
    (&r.unit, r.nanos, &r.runner, &r.outcome, &r.sha, &r.run)
}

#[test]
fn records_written_as_json_are_loaded_with_every_field() {
    let mut odd = rec("tests/a b.py::\"x\"\n\u{2028}—", 91.0, "linux");
    odd.sha = "0f3a".into();
    odd.run = "42".into();
    let mut bare = rec("", 0.0, "");
    bare.outcome = String::new();
    let all = vec![rec("a", 12.0, "linux"), odd, bare, rec("a", 8_000_000_000.0, "windows")];
    let mut store = String::new();
    for shard in all.chunks(2) {
        let encoded: Vec<String> = shard.iter().map(encode_json).collect();
        store.push_str(&append(&encoded));
    }
    let parsed = record_lines(&store).iter().map(|l| decode_json(&l.text)).collect();
    let loaded = load(&store, parsed).unwrap();
    assert_eq!(loaded.len(), all.len());
    for (got, want) in loaded.iter().zip(&all) {
        assert_eq!(fields(got), fields(want));
    }
}
