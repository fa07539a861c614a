use shard_tests::recipe::{builtin, list, Recipe, TimingMode};

#[test]
fn every_builtin_recipe_is_internally_consistent() {
    for r in builtin() {
        assert!(!r.enumerate.is_empty(), "{}: empty enumerate", r.name);
        assert!(!r.test.is_empty(), "{}: empty test", r.name);
        // Reported needs something to read the report from; Measured must not
        // carry one, or the mode is ambiguous about where timings came from.
        match r.timing_mode {
            TimingMode::Reported => {
                assert!(
                    r.report.is_some(),
                    "{}: Reported without a report hook",
                    r.name
                )
            }
            TimingMode::Measured => {
                assert!(
                    r.report.is_none(),
                    "{}: Measured with a report hook",
                    r.name
                )
            }
        }
        // A recipe that needs the build must say what it hands over, otherwise
        // the shards have nothing to hydrate and would rebuild silently.
        if r.enumerate_needs_build {
            assert!(
                r.build.is_some(),
                "{}: needs a build but defines none",
                r.name
            );
            assert!(
                !r.transfers.is_empty(),
                "{}: builds but transfers nothing",
                r.name
            );
        }
    }
}

#[test]
fn only_verified_recipes_are_shipped() {
    // The shipping policy, enforced rather than remembered: trust is the scarce
    // thing at this stage, so an unverified recipe must not be in the table.
    for r in builtin() {
        assert!(
            r.verified.is_some(),
            "{} ships without verification",
            r.name
        );
    }
}

#[test]
fn find_reports_an_unknown_name() {
    assert!(Recipe::find("no-such-recipe", None).is_err());
    assert!(Recipe::find("vitest", None).is_ok());
}

#[test]
fn an_unknown_name_is_in_the_message() {
    let err = Recipe::find("no-such-recipe", None).unwrap_err();
    assert_eq!(
        err.message(),
        "no recipe named no-such-recipe. `shard-tests recipes` lists what is available, and --recipe-file takes a JSON array of your own."
    );
}

fn own(name: &str, notes: &str) -> Recipe {
    Recipe {
        name: name.to_string(),
        build: None,
        enumerate: "ls".to_string(),
        test: "true".to_string(),
        report: None,
        separator: " ".to_string(),
        enumerate_needs_build: false,
        transfers: vec![],
        timing_mode: TimingMode::Measured,
        verified: None,
        notes: notes.to_string(),
    }
}

#[test]
fn a_given_table_is_searched_instead_and_in_order() {
    let table = vec![own("x", "other"), own("mine", "first"), own("mine", "second")];
    let found = Recipe::find("mine", Some(table)).unwrap();
    assert_eq!(found.notes, "first");
    assert!(Recipe::find("vitest", Some(vec![own("mine", "")])).is_err());
}

#[test]
fn a_recipe_announces_whether_it_was_run() {
    assert_eq!(
        own("mine", "").announce(),
        "shard-tests: recipe mine is UNVERIFIED — it has not been executed against a real suite. Check the units it enumerates before trusting the split."
    );
    assert_eq!(
        builtin()[0].announce(),
        "shard-tests: recipe vitest (verified: obsidian-remote-ssh, 81 files, reporter ids join 81/81)"
    );
}

#[test]
fn the_list_has_one_line_per_recipe() {
    let text = list();
    let recipes = builtin();
    assert_eq!(text.lines().count(), recipes.len());
    for (line, recipe) in text.lines().zip(&recipes) {
        assert_eq!(line, recipe.describe());
    }
    let lines: Vec<&str> = text.lines().collect();
    assert_eq!(
        lines[0],
        "vitest | units come from: npx vitest list --filesOnly | build first: no — organize can run beside build from the first run | timing: from the runner's own report | verified: obsidian-remote-ssh, 81 files, reporter ids join 81/81 | Units are test files. The reporter's per-file durations summed to 22.6s against a 24.2s wall clock, so they are a sound balance signal."
    );
    assert!(lines[1].starts_with(
        "cargo-test-binaries | units come from: cut -f1 shard-tests-map.tsv | build first: yes — organize runs after build on the first run | timing: measured per unit by shard-tests | verified: QAtlasHub/doiget, 47 test binaries, ids version-free and unique | The id excludes"
    ));
    assert!(text.ends_with("Sharding cannot take the job below compile time.\n"));
}

#[test]
fn a_recipe_that_was_not_run_says_so_on_its_line() {
    assert_eq!(
        own("mine", "n").describe(),
        "mine | units come from: ls | build first: no — organize can run beside build from the first run | timing: measured per unit by shard-tests | verified: NOT VERIFIED | n"
    );
}

#[test]
fn the_cargo_recipe_keeps_its_snippets() {
    let r = Recipe::find("cargo-test-binaries", None).unwrap();
    let build = r.build.unwrap();
    assert!(build.starts_with(
        "cargo test --workspace --all-targets $SHARD_TESTS_EXTRA --no-run --message-format=json \\\n | jq -r 'select(.reason==\"compiler-artifact\")"
    ));
    assert!(build.ends_with("\n > shard-tests-map.tsv"));
    assert!(r.test.ends_with("do ( cd \"$dir\" && \"$exe\" ); done"));
    assert_eq!(r.separator, "\n");
    assert_eq!(r.transfers, vec!["target", "shard-tests-map.tsv"]);
}
