//! Built-in recipes.
//!
//! A recipe is data, not code: choosing one fills in every hook, the separator,
//! and the properties that decide how the CI graph must be assembled. Adding an
//! ecosystem is a row here, so nothing language-specific is ever compiled in.
//!
//! Only recipes that have been executed against a real suite ship here. The
//! `verified` field records where. A recipe nobody has run is worth less than no
//! recipe at all: it reads as support and behaves as a bug report.

use crate::text;
use vstd::prelude::*;
use vstd::string::*;

verus! {

/// Where the duration of a unit comes from.
#[derive(Clone, Copy, PartialEq, Eq, Debug, Structural)]
pub enum TimingMode {
    /// The runner reports per-unit durations; the `report` hook turns its output
    /// into `unit<TAB>seconds`. One invocation covers the whole slice.
    Reported,
    /// No per-unit report exists, so the `test` hook is invoked once per unit and
    /// timed from the outside. Needs no knowledge of the runner at all, and costs
    /// one process launch per unit.
    Measured,
}

/// The hooks and properties of one test ecosystem.
#[derive(Debug)]
pub struct Recipe {
    /// What the recipe is looked up by.
    pub name: String,
    /// Runs once, producing artifacts the shards hydrate. Absent when every shard
    /// prepares its own environment instead.
    pub build: Option<String>,
    /// Prints one unit id per line.
    pub enumerate: String,
    /// Runs this shard's units, which arrive in `$SHARD_TESTS_UNITS`.
    pub test: String,
    /// Turns the runner's own report into `unit<TAB>seconds`. Required by
    /// `Reported`, unused by `Measured`.
    pub report: Option<String>,
    /// What joins the unit ids.
    pub separator: String,
    /// Whether `enumerate` needs `build` to have run.
    ///
    /// This single property decides the shape of the CI graph. False means that
    /// units can be organized beside the build from the very first run. True means
    /// that the first run must enumerate after the build.
    pub enumerate_needs_build: bool,
    /// Paths the build phase leaves behind for the shards to hydrate.
    pub transfers: Vec<String>,
    /// Where durations come from.
    pub timing_mode: TimingMode,
    /// Where this recipe was actually executed. `None` means it was not.
    pub verified: Option<String>,
    /// What else to know.
    pub notes: String,
}

/// What a recipe holds, as characters.
pub struct RecipeView {
    pub name: Seq<char>,
    pub build: Option<Seq<char>>,
    pub enumerate: Seq<char>,
    pub test: Seq<char>,
    pub report: Option<Seq<char>>,
    pub separator: Seq<char>,
    pub enumerate_needs_build: bool,
    pub transfers: Seq<Seq<char>>,
    pub timing_mode: TimingMode,
    pub verified: Option<Seq<char>>,
    pub notes: Seq<char>,
}

/// No recipe has the name that was asked for.
#[derive(Debug)]
pub struct NoSuchRecipe {
    /// The name.
    pub name: String,
}

/// Lists the test files.
pub const VITEST_ENUMERATE: &'static str = "npx vitest list --filesOnly";

/// Runs the test files of a shard.
pub const VITEST_TEST: &'static str = r#"npx vitest run $SHARD_TESTS_EXTRA $SHARD_TESTS_UNITS --reporter=json --outputFile="$SHARD_TESTS_REPORT""#;

/// Reads the durations from the JSON report.
pub const VITEST_REPORT: &'static str = r#"jq -r --arg root "$PWD/" '.testResults[] | [(.name | sub("^" + $root; "")), ((.endTime - .startTime) / 1000)] | @tsv' "$SHARD_TESTS_REPORT""#;

/// Where the recipe was run.
pub const VITEST_VERIFIED: &'static str = "obsidian-remote-ssh, 81 files, reporter ids join 81/81";

/// What else to know.
pub const VITEST_NOTES: &'static str =
    "Units are test files. The reporter's per-file durations summed to 22.6s against a 24.2s wall clock, so they are a sound balance signal.";

/// Builds the test binaries and maps each id to its binary.
pub const CARGO_BUILD: &'static str = r#"cargo test --workspace --all-targets $SHARD_TESTS_EXTRA --no-run --message-format=json \
 | jq -r 'select(.reason=="compiler-artifact") | select(.profile.test==true) | select(.executable!=null)
     | ((.package_id | capture("(?<n>[a-z0-9_-]+)(@|#)[0-9]").n) // "unknown") as $p
     | [ "\(.target.kind[0])/\($p)/\(.target.name)", (.manifest_path | sub("/Cargo.toml$"; "")), .executable ] | @tsv' \
 > shard-tests-map.tsv"#;

/// Lists the ids of the map.
pub const CARGO_ENUMERATE: &'static str = "cut -f1 shard-tests-map.tsv";

/// Runs the binaries of a shard, each from its package directory, which is where
/// `cargo test` would put the working directory: a test resolving a fixture by
/// relative path fails anywhere else.
pub const CARGO_TEST: &'static str = r#"awk -F'\t' -v id="$SHARD_TESTS_UNITS" '$1==id{print $2"\t"$3}' shard-tests-map.tsv \
 | while IFS=$'\t' read -r dir exe; do ( cd "$dir" && "$exe" ); done"#;

/// Where the recipe was run.
pub const CARGO_VERIFIED: &'static str =
    "QAtlasHub/doiget, 47 test binaries, ids version-free and unique";

/// What else to know.
pub const CARGO_NOTES: &'static str =
    "The id excludes the crate version on purpose: taking it from package_id verbatim embeds `#0.8.6`, which invalidates every recorded timing on each release. Sharding cannot take the job below compile time.";

/// The characters of an optional string.
pub open spec fn opt_chars(s: Option<String>) -> Option<Seq<char>> {
    match s {
        Some(s) => Some(s@),
        None => None,
    }
}

impl View for Recipe {
    type V = RecipeView;

    open spec fn view(&self) -> RecipeView {
        RecipeView {
            name: self.name@,
            build: opt_chars(self.build),
            enumerate: self.enumerate@,
            test: self.test@,
            report: opt_chars(self.report),
            separator: self.separator@,
            enumerate_needs_build: self.enumerate_needs_build,
            transfers: text::views(self.transfers@),
            timing_mode: self.timing_mode,
            verified: opt_chars(self.verified),
            notes: self.notes@,
        }
    }
}

fn opt_clone(s: &Option<String>) -> (out: Option<String>)
    ensures
        opt_chars(out) == opt_chars(*s),
{
    match s {
        Some(s) => Some(s.clone()),
        None => None,
    }
}

impl Clone for Recipe {
    fn clone(&self) -> (recipe: Recipe)
        ensures
            recipe@ == self@,
            recipe.name@ == self.name@,
            recipe.enumerate@ == self.enumerate@,
            recipe.test@ == self.test@,
            recipe.separator@ == self.separator@,
            recipe.enumerate_needs_build == self.enumerate_needs_build,
            recipe.timing_mode == self.timing_mode,
            recipe.notes@ == self.notes@,
    {
        let transfers = self.transfers.clone();
        assert(text::views(transfers@) == text::views(self.transfers@));
        Recipe {
            name: self.name.clone(),
            build: opt_clone(&self.build),
            enumerate: self.enumerate.clone(),
            test: self.test.clone(),
            report: opt_clone(&self.report),
            separator: self.separator.clone(),
            enumerate_needs_build: self.enumerate_needs_build,
            transfers,
            timing_mode: self.timing_mode,
            verified: opt_clone(&self.verified),
            notes: self.notes.clone(),
        }
    }
}

/// What the recipes hold.
pub open spec fn recipe_views(recipes: Seq<Recipe>) -> Seq<RecipeView> {
    recipes.map_values(|r: Recipe| r@)
}

/// Vitest, by test file. `vitest list` is used rather than a glob deliberately: a
/// glob would also hand over files that the configuration leaves out.
pub open spec fn vitest() -> RecipeView {
    RecipeView {
        name: "vitest"@,
        build: None,
        enumerate: VITEST_ENUMERATE@,
        test: VITEST_TEST@,
        report: Some(VITEST_REPORT@),
        separator: " "@,
        enumerate_needs_build: false,
        transfers: seq![],
        timing_mode: TimingMode::Reported,
        verified: Some(VITEST_VERIFIED@),
        notes: VITEST_NOTES@,
    }
}

/// Cargo, by test binary. Executing the prebuilt binaries directly is the only
/// viable path: anything finer launches every binary per unit, or rebuilds.
pub open spec fn cargo_test_binaries() -> RecipeView {
    RecipeView {
        name: "cargo-test-binaries"@,
        build: Some(CARGO_BUILD@),
        enumerate: CARGO_ENUMERATE@,
        test: CARGO_TEST@,
        report: None,
        separator: "\n"@,
        enumerate_needs_build: true,
        transfers: seq!["target"@, "shard-tests-map.tsv"@],
        timing_mode: TimingMode::Measured,
        verified: Some(CARGO_VERIFIED@),
        notes: CARGO_NOTES@,
    }
}

/// The recipes that ship.
pub open spec fn builtin_of() -> Seq<RecipeView> {
    seq![vitest(), cargo_test_binaries()]
}

/// `recipe` has what its properties call for: hooks to enumerate and to test; a
/// report hook if and only if durations are reported; and a build that hands
/// something over if enumeration needs one.
pub open spec fn is_consistent(recipe: RecipeView) -> bool {
    &&& recipe.enumerate.len() > 0
    &&& recipe.test.len() > 0
    &&& recipe.report is Some <==> recipe.timing_mode == TimingMode::Reported
    &&& recipe.enumerate_needs_build ==> recipe.build is Some && recipe.transfers.len() > 0
}

/// Every recipe that ships is consistent and has been run somewhere.
pub proof fn builtin_recipes_are_consistent_and_verified(i: int)
    requires
        0 <= i < builtin_of().len(),
    ensures
        is_consistent(builtin_of()[i]),
        builtin_of()[i].verified is Some,
{
    reveal_strlit("npx vitest list --filesOnly");
    reveal_strlit(r#"npx vitest run $SHARD_TESTS_EXTRA $SHARD_TESTS_UNITS --reporter=json --outputFile="$SHARD_TESTS_REPORT""#);
    reveal_strlit("cut -f1 shard-tests-map.tsv");
    reveal_strlit(r#"awk -F'\t' -v id="$SHARD_TESTS_UNITS" '$1==id{print $2"\t"$3}' shard-tests-map.tsv \
 | while IFS=$'\t' read -r dir exe; do ( cd "$dir" && "$exe" ); done"#);
    assert(builtin_of()[0] == vitest());
    assert(builtin_of()[1] == cargo_test_binaries());
}

/// The recipes that ship.
pub fn builtin() -> (recipes: Vec<Recipe>)
    ensures
        recipe_views(recipes@) == builtin_of(),
        recipes@.len() == 2,
        recipes@[0].name@ == "vitest"@,
        recipes@[0].build is None,
        recipes@[0].enumerate@ == "npx vitest list --filesOnly"@,
        recipes@[0].test@ == r#"npx vitest run $SHARD_TESTS_EXTRA $SHARD_TESTS_UNITS --reporter=json --outputFile="$SHARD_TESTS_REPORT""#@,
        recipes@[0].report matches Some(text) && text@ == r#"jq -r --arg root "$PWD/" '.testResults[] | [(.name | sub("^" + $root; "")), ((.endTime - .startTime) / 1000)] | @tsv' "$SHARD_TESTS_REPORT""#@,
        recipes@[0].separator@ == " "@,
        !recipes@[0].enumerate_needs_build,
        recipes@[0].transfers@.len() == 0,
        recipes@[0].timing_mode is Reported,
        recipes@[0].verified matches Some(text) && text@ == "obsidian-remote-ssh, 81 files, reporter ids join 81/81"@,
        recipes@[0].notes@ == "Units are test files. The reporter's per-file durations summed to 22.6s against a 24.2s wall clock, so they are a sound balance signal."@,
        recipes@[1].name@ == "cargo-test-binaries"@,
        recipes@[1].build matches Some(text) && text@ == r#"cargo test --workspace --all-targets $SHARD_TESTS_EXTRA --no-run --message-format=json \
 | jq -r 'select(.reason=="compiler-artifact") | select(.profile.test==true) | select(.executable!=null)
     | ((.package_id | capture("(?<n>[a-z0-9_-]+)(@|#)[0-9]").n) // "unknown") as $p
     | [ "\(.target.kind[0])/\($p)/\(.target.name)", (.manifest_path | sub("/Cargo.toml$"; "")), .executable ] | @tsv' \
 > shard-tests-map.tsv"#@,
        recipes@[1].enumerate@ == "cut -f1 shard-tests-map.tsv"@,
        recipes@[1].test@ == r#"awk -F'\t' -v id="$SHARD_TESTS_UNITS" '$1==id{print $2"\t"$3}' shard-tests-map.tsv \
 | while IFS=$'\t' read -r dir exe; do ( cd "$dir" && "$exe" ); done"#@,
        recipes@[1].report is None,
        recipes@[1].separator@ == "\n"@,
        recipes@[1].enumerate_needs_build,
        recipes@[1].transfers@.len() == 2,
        recipes@[1].transfers@[0]@ == "target"@,
        recipes@[1].transfers@[1]@ == "shard-tests-map.tsv"@,
        recipes@[1].timing_mode is Measured,
        recipes@[1].verified matches Some(text) && text@ == "QAtlasHub/doiget, 47 test binaries, ids version-free and unique"@,
        recipes@[1].notes@ == "The id excludes the crate version on purpose: taking it from package_id verbatim embeds `#0.8.6`, which invalidates every recorded timing on each release. Sharding cannot take the job below compile time."@,
{
    let none: Vec<String> = Vec::new();
    let first = Recipe {
        name: "vitest".to_owned(),
        build: None,
        enumerate: VITEST_ENUMERATE.to_owned(),
        test: VITEST_TEST.to_owned(),
        report: Some(VITEST_REPORT.to_owned()),
        separator: " ".to_owned(),
        enumerate_needs_build: false,
        transfers: none,
        timing_mode: TimingMode::Reported,
        verified: Some(VITEST_VERIFIED.to_owned()),
        notes: VITEST_NOTES.to_owned(),
    };
    let mut handed: Vec<String> = Vec::new();
    handed.push("target".to_owned());
    handed.push("shard-tests-map.tsv".to_owned());
    let second = Recipe {
        name: "cargo-test-binaries".to_owned(),
        build: Some(CARGO_BUILD.to_owned()),
        enumerate: CARGO_ENUMERATE.to_owned(),
        test: CARGO_TEST.to_owned(),
        report: None,
        separator: "\n".to_owned(),
        enumerate_needs_build: true,
        transfers: handed,
        timing_mode: TimingMode::Measured,
        verified: Some(CARGO_VERIFIED.to_owned()),
        notes: CARGO_NOTES.to_owned(),
    };
    let mut recipes: Vec<Recipe> = Vec::new();
    assert(text::views(first.transfers@) == Seq::<Seq<char>>::empty());
    assert(text::views(second.transfers@) == seq!["target"@, "shard-tests-map.tsv"@]);
    assert(first@ == vitest());
    assert(second@ == cargo_test_binaries());
    recipes.push(first);
    recipes.push(second);
    assert(recipe_views(recipes@) == builtin_of());
    recipes
}

/// `recipe` is the first of the table with this name.
pub open spec fn is_first_named(
    table: Seq<RecipeView>,
    name: Seq<char>,
    recipe: RecipeView,
) -> bool {
    exists|i: int|
        {
            &&& 0 <= i < table.len()
            &&& #[trigger] table[i] == recipe
            &&& recipe.name == name
            &&& forall|j: int| 0 <= j < i ==> (#[trigger] table[j]).name != name
        }
}

/// The table to search: the given one, or else the recipes that ship.
pub open spec fn table_of(from: Option<Vec<Recipe>>) -> Seq<RecipeView> {
    match from {
        Some(table) => recipe_views(table@),
        None => builtin_of(),
    }
}

impl Recipe {
    /// Looks up a recipe by name, preferring a local table.
    pub fn find(name: &str, from: Option<Vec<Recipe>>) -> (out: Result<Recipe, NoSuchRecipe>)
        ensures
            match out {
                Ok(recipe) => {
                    &&& is_first_named(table_of(from), name@, recipe@)
                    &&& recipe.name@ == name@
                    &&& from matches Some(table) ==> exists|i: int|
                        {
                            &&& 0 <= i < table@.len()
                            &&& #[trigger] table@[i] == recipe
                            &&& forall|j: int|
                                0 <= j < i ==> (#[trigger] table@[j]).name@ != name@
                        }
                    &&& from is None ==> builtin_of().contains(recipe@)
                },
                Err(error) => {
                    &&& error.name@ == name@
                    &&& from matches Some(table) ==> forall|i: int|
                        0 <= i < table@.len() ==> (#[trigger] table@[i]).name@ != name@
                    &&& from is None ==> name@ != "vitest"@ && name@ != "cargo-test-binaries"@
                    &&& forall|i: int|
                        0 <= i < table_of(from).len() ==> (#[trigger] table_of(from)[i]).name
                            != name@
                },
            },
    {
        let mut table = match from {
            Some(table) => table,
            None => builtin(),
        };
        let ghost all = recipe_views(table@);
        let ghost given = table@;
        let wanted = name.to_owned();
        let mut i: usize = 0;
        while i < table.len()
            invariant
                i <= table.len(),
                all == recipe_views(table@),
                all == table_of(from),
                given == table@,
                from matches Some(own) ==> own@ == given,
                wanted@ == name@,
                forall|j: int| 0 <= j < i ==> (#[trigger] given[j]).name@ != name@,
                forall|j: int| 0 <= j < i ==> (#[trigger] all[j]).name != name@,
            decreases table.len() - i,
        {
            assert(all[i as int] == table@[i as int]@);
            if table[i].name == wanted {
                let found = table.swap_remove(i);
                assert(all[i as int] == found@);
                assert(given[i as int] == found);
                return Ok(found);
            }
            i += 1;
        }
        proof {
            if from is None {
                assert(all[0].name != name@);
                assert(all[1].name != name@);
            }
        }
        Err(NoSuchRecipe { name: wanted })
    }

    /// The text of the announcement.
    pub open spec fn announcement(recipe: RecipeView) -> Seq<char> {
        match recipe.verified {
            Some(place) => "shard-tests: recipe "@ + recipe.name + " (verified: "@ + place + ")"@,
            None => "shard-tests: recipe "@ + recipe.name
                + " is UNVERIFIED — it has not been executed against a real suite. Check the units it enumerates before trusting the split."@,
        }
    }

    /// Says which recipe is used, and warns when it has never been run against a
    /// real suite.
    pub fn announce(&self) -> (out: String)
        ensures
            out@ == Recipe::announcement(self@),
            self.verified matches Some(place) ==> out@ == "shard-tests: recipe "@ + self.name@
                + " (verified: "@ + place@ + ")"@,
            self.verified is None ==> out@ == "shard-tests: recipe "@ + self.name@
                + " is UNVERIFIED — it has not been executed against a real suite. Check the units it enumerates before trusting the split."@,
    {
        let mut out = "shard-tests: recipe ".to_owned();
        out.append(self.name.as_str());
        match &self.verified {
            Some(place) => {
                out.append(" (verified: ");
                out.append(place.as_str());
                out.append(")");
            },
            None => {
                out.append(
                    " is UNVERIFIED — it has not been executed against a real suite. Check the units it enumerates before trusting the split.",
                );
            },
        }
        out
    }

    /// The recipe's line in the list: name, where units come from, whether to build
    /// first, timing, where it was run, and notes.
    pub open spec fn line(recipe: RecipeView) -> Seq<char> {
        recipe.name + " | units come from: "@ + recipe.enumerate + " | build first: "@ + (
        if recipe.enumerate_needs_build {
            "yes — organize runs after build on the first run"@
        } else {
            "no — organize can run beside build from the first run"@
        }) + " | timing: "@ + (match recipe.timing_mode {
            TimingMode::Reported => "from the runner's own report"@,
            TimingMode::Measured => "measured per unit by shard-tests"@,
        }) + " | verified: "@ + (match recipe.verified {
            Some(place) => place,
            None => "NOT VERIFIED"@,
        }) + " | "@ + recipe.notes
    }

    /// The recipe's line in the list.
    pub fn describe(&self) -> (out: String)
        ensures
            out@ == Recipe::line(self@),
            out@ == self.name@ + " | units come from: "@ + self.enumerate@ + " | build first: "@ + (
            if self.enumerate_needs_build {
                "yes — organize runs after build on the first run"@
            } else {
                "no — organize can run beside build from the first run"@
            }) + " | timing: "@ + (match self.timing_mode {
                TimingMode::Reported => "from the runner's own report"@,
                TimingMode::Measured => "measured per unit by shard-tests"@,
            }) + " | verified: "@ + (match self.verified {
                Some(place) => place@,
                None => "NOT VERIFIED"@,
            }) + " | "@ + self.notes@,
    {
        let mut out = self.name.clone();
        out.append(" | units come from: ");
        out.append(self.enumerate.as_str());
        out.append(" | build first: ");
        if self.enumerate_needs_build {
            out.append("yes — organize runs after build on the first run");
        } else {
            out.append("no — organize can run beside build from the first run");
        }
        out.append(" | timing: ");
        match self.timing_mode {
            TimingMode::Reported => {
                out.append("from the runner's own report");
            },
            TimingMode::Measured => {
                out.append("measured per unit by shard-tests");
            },
        }
        out.append(" | verified: ");
        match &self.verified {
            Some(place) => {
                out.append(place.as_str());
            },
            None => {
                out.append("NOT VERIFIED");
            },
        }
        out.append(" | ");
        out.append(self.notes.as_str());
        out
    }
}

impl NoSuchRecipe {
    /// The text of the message.
    pub open spec fn text(self) -> Seq<char> {
        "no recipe named "@ + self.name@
            + ". `shard-tests recipes` lists what is available, and --recipe-file takes a JSON array of your own."@
    }

    /// What to tell the user.
    pub fn message(&self) -> (out: String)
        ensures
            out@ == self.text(),
            out@ == "no recipe named "@ + self.name@
                + ". `shard-tests recipes` lists what is available, and --recipe-file takes a JSON array of your own."@,
    {
        let mut out = "no recipe named ".to_owned();
        out.append(self.name.as_str());
        out.append(
            ". `shard-tests recipes` lists what is available, and --recipe-file takes a JSON array of your own.",
        );
        out
    }
}

/// The lines of the recipes.
pub open spec fn recipe_lines(recipes: Seq<RecipeView>) -> Seq<Seq<char>> {
    recipes.map_values(|r: RecipeView| Recipe::line(r))
}

/// The fixed words of a line hold no line feed.
proof fn labels_have_no_break()
    ensures
        !" | units come from: "@.contains('\n'),
        !" | build first: "@.contains('\n'),
        !" | timing: "@.contains('\n'),
        !" | verified: "@.contains('\n'),
        !" | "@.contains('\n'),
        !"yes — organize runs after build on the first run"@.contains('\n'),
        !"no — organize can run beside build from the first run"@.contains('\n'),
        !"from the runner's own report"@.contains('\n'),
        !"measured per unit by shard-tests"@.contains('\n'),
        !"NOT VERIFIED"@.contains('\n'),
{
    reveal_strlit(" | units come from: ");
    assert(text::breakless_up_to(" | units come from: "@, 20)) by {
        reveal_with_fuel(text::breakless_up_to, 21);
    }
    text::breakless_has_no_break(" | units come from: "@);
    reveal_strlit(" | build first: ");
    assert(text::breakless_up_to(" | build first: "@, 16)) by {
        reveal_with_fuel(text::breakless_up_to, 17);
    }
    text::breakless_has_no_break(" | build first: "@);
    reveal_strlit(" | timing: ");
    assert(text::breakless_up_to(" | timing: "@, 11)) by {
        reveal_with_fuel(text::breakless_up_to, 12);
    }
    text::breakless_has_no_break(" | timing: "@);
    reveal_strlit(" | verified: ");
    assert(text::breakless_up_to(" | verified: "@, 13)) by {
        reveal_with_fuel(text::breakless_up_to, 14);
    }
    text::breakless_has_no_break(" | verified: "@);
    reveal_strlit(" | ");
    assert(text::breakless_up_to(" | "@, 3)) by {
        reveal_with_fuel(text::breakless_up_to, 4);
    }
    text::breakless_has_no_break(" | "@);
    reveal_strlit("yes — organize runs after build on the first run");
    assert(text::breakless_up_to("yes — organize runs after build on the first run"@, 48)) by {
        reveal_with_fuel(text::breakless_up_to, 49);
    }
    text::breakless_has_no_break("yes — organize runs after build on the first run"@);
    reveal_strlit("no — organize can run beside build from the first run");
    assert(text::breakless_up_to("no — organize can run beside build from the first run"@, 50)) by {
        reveal_with_fuel(text::breakless_up_to, 51);
    }
    assert(text::breakless_up_to("no — organize can run beside build from the first run"@, 53)) by {
        reveal_with_fuel(text::breakless_up_to, 4);
    }
    text::breakless_has_no_break("no — organize can run beside build from the first run"@);
    reveal_strlit("from the runner's own report");
    assert(text::breakless_up_to("from the runner's own report"@, 28)) by {
        reveal_with_fuel(text::breakless_up_to, 29);
    }
    text::breakless_has_no_break("from the runner's own report"@);
    reveal_strlit("measured per unit by shard-tests");
    assert(text::breakless_up_to("measured per unit by shard-tests"@, 32)) by {
        reveal_with_fuel(text::breakless_up_to, 33);
    }
    text::breakless_has_no_break("measured per unit by shard-tests"@);
    reveal_strlit("NOT VERIFIED");
    assert(text::breakless_up_to("NOT VERIFIED"@, 12)) by {
        reveal_with_fuel(text::breakless_up_to, 13);
    }
    text::breakless_has_no_break("NOT VERIFIED"@);
}

/// A recipe whose texts hold no line feed has a line that reads as one.
pub proof fn line_stays_on_one_line(recipe: RecipeView)
    requires
        !recipe.name.contains('\n'),
        !recipe.enumerate.contains('\n'),
        recipe.verified is Some ==> !recipe.verified->0.contains('\n'),
        !recipe.notes.contains('\n'),
        recipe.notes.len() > 0 ==> recipe.notes.last() != '\r',
    ensures
        text::is_line(Recipe::line(recipe)),
{
    labels_have_no_break();
    reveal_strlit(" | ");
    let build = if recipe.enumerate_needs_build {
        "yes — organize runs after build on the first run"@
    } else {
        "no — organize can run beside build from the first run"@
    };
    let timing = match recipe.timing_mode {
        TimingMode::Reported => "from the runner's own report"@,
        TimingMode::Measured => "measured per unit by shard-tests"@,
    };
    let verified = match recipe.verified {
        Some(place) => place,
        None => "NOT VERIFIED"@,
    };
    let a = recipe.name;
    text::concatenation_has_no_break(a, " | units come from: "@);
    let b = a + " | units come from: "@;
    text::concatenation_has_no_break(b, recipe.enumerate);
    let c = b + recipe.enumerate;
    text::concatenation_has_no_break(c, " | build first: "@);
    let d = c + " | build first: "@;
    text::concatenation_has_no_break(d, build);
    let e = d + build;
    text::concatenation_has_no_break(e, " | timing: "@);
    let f = e + " | timing: "@;
    text::concatenation_has_no_break(f, timing);
    let g = f + timing;
    text::concatenation_has_no_break(g, " | verified: "@);
    let h = g + " | verified: "@;
    text::concatenation_has_no_break(h, verified);
    let i = h + verified;
    text::concatenation_has_no_break(i, " | "@);
    let j = i + " | "@;
    text::concatenation_has_no_break(j, recipe.notes);
    let k = j + recipe.notes;
    assert(k == Recipe::line(recipe));
    if recipe.notes.len() > 0 {
        assert(k.last() == recipe.notes.last());
    } else {
        assert(k.last() == " | "@.last());
    }
}

/// The line of `vitest` is one line.
#[verifier::spinoff_prover]
proof fn vitest_line_is_a_line()
    ensures
        text::is_line(Recipe::line(vitest())),
{
    reveal_strlit("vitest");
    assert(text::breakless_up_to("vitest"@, 6)) by {
        reveal_with_fuel(text::breakless_up_to, 7);
    }
    text::breakless_has_no_break("vitest"@);
    reveal_strlit("npx vitest list --filesOnly");
    assert(text::breakless_up_to(VITEST_ENUMERATE@, 27)) by {
        reveal_with_fuel(text::breakless_up_to, 28);
    }
    text::breakless_has_no_break(VITEST_ENUMERATE@);
    reveal_strlit("obsidian-remote-ssh, 81 files, reporter ids join 81/81");
    assert(text::breakless_up_to(VITEST_VERIFIED@, 30)) by {
        reveal_with_fuel(text::breakless_up_to, 31);
    }
    assert(text::breakless_up_to(VITEST_VERIFIED@, 54)) by {
        reveal_with_fuel(text::breakless_up_to, 25);
    }
    text::breakless_has_no_break(VITEST_VERIFIED@);
    reveal_strlit("Units are test files. The reporter's per-file durations summed to 22.6s against a 24.2s wall clock, so they are a sound balance signal.");
    assert(text::breakless_up_to(VITEST_NOTES@, 30)) by {
        reveal_with_fuel(text::breakless_up_to, 31);
    }
    assert(text::breakless_up_to(VITEST_NOTES@, 60)) by {
        reveal_with_fuel(text::breakless_up_to, 31);
    }
    assert(text::breakless_up_to(VITEST_NOTES@, 90)) by {
        reveal_with_fuel(text::breakless_up_to, 31);
    }
    assert(text::breakless_up_to(VITEST_NOTES@, 120)) by {
        reveal_with_fuel(text::breakless_up_to, 31);
    }
    assert(text::breakless_up_to(VITEST_NOTES@, 135)) by {
        reveal_with_fuel(text::breakless_up_to, 16);
    }
    text::breakless_has_no_break(VITEST_NOTES@);
    line_stays_on_one_line(vitest());
}

/// The line of `cargo_test_binaries` is one line.
#[verifier::spinoff_prover]
proof fn cargo_line_is_a_line()
    ensures
        text::is_line(Recipe::line(cargo_test_binaries())),
{
    reveal_strlit("cargo-test-binaries");
    assert(text::breakless_up_to("cargo-test-binaries"@, 19)) by {
        reveal_with_fuel(text::breakless_up_to, 20);
    }
    text::breakless_has_no_break("cargo-test-binaries"@);
    reveal_strlit("cut -f1 shard-tests-map.tsv");
    assert(text::breakless_up_to(CARGO_ENUMERATE@, 27)) by {
        reveal_with_fuel(text::breakless_up_to, 28);
    }
    text::breakless_has_no_break(CARGO_ENUMERATE@);
    reveal_strlit("QAtlasHub/doiget, 47 test binaries, ids version-free and unique");
    assert(text::breakless_up_to(CARGO_VERIFIED@, 30)) by {
        reveal_with_fuel(text::breakless_up_to, 31);
    }
    assert(text::breakless_up_to(CARGO_VERIFIED@, 60)) by {
        reveal_with_fuel(text::breakless_up_to, 31);
    }
    assert(text::breakless_up_to(CARGO_VERIFIED@, 63)) by {
        reveal_with_fuel(text::breakless_up_to, 4);
    }
    text::breakless_has_no_break(CARGO_VERIFIED@);
    reveal_strlit("The id excludes the crate version on purpose: taking it from package_id verbatim embeds `#0.8.6`, which invalidates every recorded timing on each release. Sharding cannot take the job below compile time.");
    assert(text::breakless_up_to(CARGO_NOTES@, 30)) by {
        reveal_with_fuel(text::breakless_up_to, 31);
    }
    assert(text::breakless_up_to(CARGO_NOTES@, 60)) by {
        reveal_with_fuel(text::breakless_up_to, 31);
    }
    assert(text::breakless_up_to(CARGO_NOTES@, 90)) by {
        reveal_with_fuel(text::breakless_up_to, 31);
    }
    assert(text::breakless_up_to(CARGO_NOTES@, 120)) by {
        reveal_with_fuel(text::breakless_up_to, 31);
    }
    assert(text::breakless_up_to(CARGO_NOTES@, 150)) by {
        reveal_with_fuel(text::breakless_up_to, 31);
    }
    assert(text::breakless_up_to(CARGO_NOTES@, 180)) by {
        reveal_with_fuel(text::breakless_up_to, 31);
    }
    assert(text::breakless_up_to(CARGO_NOTES@, 203)) by {
        reveal_with_fuel(text::breakless_up_to, 24);
    }
    text::breakless_has_no_break(CARGO_NOTES@);
    line_stays_on_one_line(cargo_test_binaries());
}

/// One line per recipe that ships, in the order of the table.
pub fn list() -> (out: String)
    ensures
        out@ == text::on_lines(recipe_lines(builtin_of())),
        text::lines_of(out@) == recipe_lines(builtin_of()),
        text::lines_of(out@).len() == builtin_of().len(),
        forall|i: int|
            0 <= i < builtin_of().len() ==> #[trigger] text::lines_of(out@)[i] == Recipe::line(
                builtin_of()[i],
            ),
{
    let recipes = builtin();
    let ghost all = recipe_lines(builtin_of());
    let mut out = String::new();
    let mut i: usize = 0;
    while i < recipes.len()
        invariant
            i <= recipes.len(),
            recipe_views(recipes@) == builtin_of(),
            all == recipe_lines(builtin_of()),
            out@ == text::on_lines(all.take(i as int)),
        decreases recipes.len() - i,
    {
        let ghost before = out@;
        out.append(recipes[i].describe().as_str());
        out.push('\n');
        assert(builtin_of()[i as int] == recipes@[i as int]@);
        assert(all.take(i + 1).drop_last() == all.take(i as int));
        assert(out@ == before + all[i as int].push('\n'));
        i += 1;
    }
    proof {
        assert(all.take(recipes@.len() as int) == all);
        vitest_line_is_a_line();
        cargo_line_is_a_line();
        assert(all[0] == Recipe::line(vitest()));
        assert(all[1] == Recipe::line(cargo_test_binaries()));
        text::lines_are_read_back(all);
    }
    out
}

/// The view of a recipe is what each of its fields holds.
pub proof fn a_view_holds_every_field(recipe: Recipe)
    ensures
        recipe@.name == recipe.name@,
        recipe.build is None <==> recipe@.build is None,
        recipe.build matches Some(s) ==> recipe@.build == Some(s@),
        recipe@.enumerate == recipe.enumerate@,
        recipe@.test == recipe.test@,
        recipe.report is None <==> recipe@.report is None,
        recipe.report matches Some(s) ==> recipe@.report == Some(s@),
        recipe@.separator == recipe.separator@,
        recipe@.enumerate_needs_build == recipe.enumerate_needs_build,
        recipe@.transfers.len() == recipe.transfers@.len(),
        forall|i: int|
            0 <= i < recipe.transfers@.len() ==> #[trigger] recipe@.transfers[i]
                == recipe.transfers@[i]@,
        recipe@.timing_mode == recipe.timing_mode,
        recipe.verified is None <==> recipe@.verified is None,
        recipe.verified matches Some(s) ==> recipe@.verified == Some(s@),
        recipe@.notes == recipe.notes@,
{
}

/// The views of recipes are those of each recipe, in turn.
pub proof fn recipe_views_are_of_each_recipe(recipes: Seq<Recipe>)
    ensures
        recipe_views(recipes).len() == recipes.len(),
        forall|i: int|
            0 <= i < recipes.len() ==> #[trigger] recipe_views(recipes)[i] == recipes[i]@,
{
}


} // verus!
