//! Recorded per-unit durations, as append-only lines.
//!
//! Appending is conflict-free, so N shards each write their own lines and the
//! store is their concatenation: there is no merge step to get wrong. Provenance
//! is a field, so one store holds every runner and the reader selects. And
//! keeping the observations means smoothing happens at read time, so the policy
//! can change later without the raw numbers having been destroyed.

use crate::median;
use crate::sums;
use crate::text;
use vstd::hash_map::StringHashMap;
use vstd::hash_set::StringHashSet;
use vstd::prelude::*;
use vstd::string::*;

verus! {

/// One observation of one unit.
#[derive(Debug)]
pub struct Record {
    /// The unit that was run.
    pub unit: String,
    /// How long it took.
    pub nanos: i64,
    /// Which runner ran it.
    pub runner: String,
    /// How the run ended.
    pub outcome: String,
    /// The commit that was tested.
    pub sha: String,
    /// The workflow run.
    pub run: String,
}

/// What a record holds.
pub struct RecordView {
    pub unit: Seq<char>,
    pub nanos: i64,
    pub runner: Seq<char>,
    pub outcome: Seq<char>,
    pub sha: Seq<char>,
    pub run: Seq<char>,
}

impl View for Record {
    type V = RecordView;

    open spec fn view(&self) -> RecordView {
        RecordView {
            unit: self.unit@,
            nanos: self.nanos,
            runner: self.runner@,
            outcome: self.outcome@,
            sha: self.sha@,
            run: self.run@,
        }
    }
}

/// One duration, in nanoseconds, for each unit that has one.
pub struct Timings {
    entries: StringHashMap<i64>,
}

/// One duration, in half nanoseconds, for each unit that has one. The median of
/// observations in whole nanoseconds is a whole number of these, so it is exact.
pub struct Estimates {
    entries: StringHashMap<i128>,
}

/// A line of a store, with its number in the file, counted from one.
#[derive(Debug)]
pub struct NumberedLine {
    /// The number of the line.
    pub number: usize,
    /// The line.
    pub text: String,
}

/// Why there are no timings.
#[derive(Debug)]
pub enum TimingsError {
    /// The line with this number is not a timing record.
    NotARecord { line: usize },
    /// The store holds no record.
    NoRecords,
    /// None of so many records is from this runner.
    NoneForRunner { runner: String, records: usize },
}

impl View for Timings {
    type V = Map<Seq<char>, i64>;

    closed spec fn view(&self) -> Map<Seq<char>, i64> {
        self.entries@
    }
}

impl Timings {
    /// No durations.
    pub fn new() -> (timings: Timings)
        ensures
            timings@ == Map::<Seq<char>, i64>::empty(),
    {
        Timings { entries: StringHashMap::new() }
    }

    /// Sets the duration of `unit`.
    pub fn insert(&mut self, unit: String, nanos: i64)
        ensures
            final(self)@ == old(self)@.insert(unit@, nanos),
    {
        self.entries.insert(unit, nanos);
    }

    /// The duration of `unit`, if there is one.
    pub fn get(&self, unit: &str) -> (nanos: Option<i64>)
        ensures
            nanos == (if self@.contains_key(unit@) {
                Some(self@[unit@])
            } else {
                None
            }),
    {
        match self.entries.get(unit) {
            Some(nanos) => Some(*nanos),
            None => None,
        }
    }
}

impl View for Estimates {
    type V = Map<Seq<char>, i128>;

    closed spec fn view(&self) -> Map<Seq<char>, i128> {
        self.entries@
    }
}

impl Estimates {
    /// No durations.
    pub fn new() -> (estimates: Estimates)
        ensures
            estimates@ == Map::<Seq<char>, i128>::empty(),
    {
        Estimates { entries: StringHashMap::new() }
    }

    /// Sets the duration of `unit`, in half nanoseconds.
    pub fn insert(&mut self, unit: String, half_nanos: i128)
        ensures
            final(self)@ == old(self)@.insert(unit@, half_nanos),
    {
        self.entries.insert(unit, half_nanos);
    }

    /// The duration of `unit`, in half nanoseconds, if there is one.
    pub fn get(&self, unit: &str) -> (half_nanos: Option<i128>)
        ensures
            half_nanos == (if self@.contains_key(unit@) {
                Some(self@[unit@])
            } else {
                None
            }),
    {
        match self.entries.get(unit) {
            Some(half_nanos) => Some(*half_nanos),
            None => None,
        }
    }

    /// Whether no unit has a duration.
    pub fn is_empty(&self) -> (yes: bool)
        ensures
            yes == self@.is_empty(),
    {
        self.entries.is_empty()
    }
}

/// The characters of a value that may be missing, and then count as none.
pub open spec fn or_empty(value: Option<String>) -> Seq<char> {
    match value {
        Some(s) => s@,
        None => Seq::empty(),
    }
}

fn string_or_empty(value: Option<String>) -> (out: String)
    ensures
        out@ == or_empty(value),
{
    match value {
        Some(s) => s,
        None => String::new(),
    }
}

impl Record {
    /// Stamps provenance from the CI environment, so a store gathered from several
    /// jobs stays readable afterwards. `sha` and `run` are what the environment
    /// holds for them, if anything.
    pub fn new(
        unit: String,
        nanos: i64,
        outcome: &str,
        runner: &str,
        sha: Option<String>,
        run: Option<String>,
    ) -> (record: Record)
        ensures
            record.unit == unit,
            record.nanos == nanos,
            record.outcome@ == outcome@,
            record.runner@ == runner@,
            record.sha@ == or_empty(sha),
            record.run@ == or_empty(run),
            record.sha@ == (match sha {
                Some(found) => found@,
                None => Seq::<char>::empty(),
            }),
            record.run@ == (match run {
                Some(found) => found@,
                None => Seq::<char>::empty(),
            }),
    {
        Record {
            unit,
            nanos,
            runner: runner.to_owned(),
            outcome: outcome.to_owned(),
            sha: string_or_empty(sha),
            run: string_or_empty(run),
        }
    }
}

impl Clone for Record {
    fn clone(&self) -> (record: Record)
        ensures
            record == *self,
    {
        Record {
            unit: self.unit.clone(),
            nanos: self.nanos,
            runner: self.runner.clone(),
            outcome: self.outcome.clone(),
            sha: self.sha.clone(),
            run: self.run.clone(),
        }
    }
}

/// The lines with their numbers, counted from one.
pub open spec fn numbered(lines: Seq<Seq<char>>) -> Seq<(int, Seq<char>)> {
    Seq::new(lines.len(), |i: int| (i + 1, lines[i]))
}

/// The lines that are not blank.
pub open spec fn not_blank(lines: Seq<(int, Seq<char>)>) -> Seq<(int, Seq<char>)> {
    lines.filter(|line: (int, Seq<char>)| text::trimmed(line.1).len() > 0)
}

/// The lines of a store that hold a record each.
pub open spec fn record_lines_of(raw: Seq<char>) -> Seq<(int, Seq<char>)> {
    not_blank(numbered(text::lines_of(raw)))
}

/// Numbers and characters of the lines.
pub open spec fn line_views(lines: Seq<NumberedLine>) -> Seq<(int, Seq<char>)> {
    lines.map_values(|line: NumberedLine| (line.number as int, line.text@))
}

proof fn not_blank_push(lines: Seq<(int, Seq<char>)>, n: int)
    requires
        0 <= n < lines.len(),
    ensures
        not_blank(lines.take(n + 1)) == (if text::trimmed(lines[n].1).len() > 0 {
            not_blank(lines.take(n)).push(lines[n])
        } else {
            not_blank(lines.take(n))
        }),
{
    assert(lines.take(n + 1).drop_last() == lines.take(n));
    reveal(Seq::filter);
}

/// The lines of a store to read a record from: all but the blank ones.
pub fn record_lines(raw: &str) -> (out: Vec<NumberedLine>)
    ensures
        line_views(out@) == record_lines_of(raw@),
        out@.len() == record_lines_of(raw@).len(),
        forall|i: int|
            0 <= i < out@.len() ==> (#[trigger] out@[i]).number == record_lines_of(raw@)[i].0
                && out@[i].text@ == record_lines_of(raw@)[i].1,
{
    let lines = text::lines(raw);
    let ghost all = numbered(text::lines_of(raw@));
    let mut out: Vec<NumberedLine> = Vec::new();
    let mut n: usize = 0;
    assert(not_blank(all.take(0)) == line_views(out@));
    while n < lines.len()
        invariant
            n <= lines.len(),
            all == numbered(text::lines_of(raw@)),
            text::views(lines@) == text::lines_of(raw@),
            line_views(out@) == not_blank(all.take(n as int)),
        decreases lines.len() - n,
    {
        let line = lines[n].clone();
        assert(text::lines_of(raw@)[n as int] == lines@[n as int]@);
        proof {
            not_blank_push(all, n as int);
        }
        n += 1;
        if !text::trim(line.as_str()).as_str().is_empty() {
            let ghost before = out@;
            out.push(NumberedLine { number: n, text: line });
            assert(line_views(out@) == line_views(before).push((n as int, line@)));
        }
    }
    assert(all.take(n as int) == all);
    assert forall|i: int| 0 <= i < out@.len() implies (#[trigger] out@[i]).number
        == record_lines_of(raw@)[i].0 && out@[i].text@ == record_lines_of(raw@)[i].1 by {
        assert(line_views(out@)[i] == (out@[i].number as int, out@[i].text@));
    }
    out
}

/// Every line gave a record.
pub open spec fn all_parsed(parsed: Seq<Option<Record>>) -> bool {
    forall|i: int| 0 <= i < parsed.len() ==> (#[trigger] parsed[i]) is Some
}

/// The records that the lines gave.
pub open spec fn parsed_records(parsed: Seq<Option<Record>>) -> Seq<Record> {
    parsed.map_values(|r: Option<Record>| r->0)
}

/// `line` is the number of the first line that gave no record.
pub open spec fn first_unparsed(
    lines: Seq<(int, Seq<char>)>,
    parsed: Seq<Option<Record>>,
    line: usize,
) -> bool {
    exists|i: int|
        0 <= i < parsed.len() && (#[trigger] parsed[i]) is None && all_parsed(parsed.take(i))
            && line == lines[i].0
}

/// The records of the store `raw`, given what was read from each of its record
/// lines: all of them, or the number of the line that failed rather than the whole
/// file.
pub fn load(raw: &str, parsed: Vec<Option<Record>>) -> (out: Result<Vec<Record>, TimingsError>)
    requires
        parsed@.len() == record_lines_of(raw@).len(),
    ensures
        match out {
            Ok(records) => {
                &&& all_parsed(parsed@) && records@ == parsed_records(parsed@)
                &&& records@.len() == parsed@.len()
                &&& forall|i: int|
                    0 <= i < parsed@.len() ==> #[trigger] parsed@[i] == Some(records@[i])
            },
            Err(TimingsError::NotARecord { line }) => {
                &&& first_unparsed(record_lines_of(raw@), parsed@, line)
                &&& exists|i: int|
                    {
                        &&& 0 <= i < parsed@.len()
                        &&& (#[trigger] parsed@[i]) is None
                        &&& forall|j: int| 0 <= j < i ==> (#[trigger] parsed@[j]) is Some
                        &&& line == record_lines_of(raw@)[i].0
                    }
            },
            Err(_) => false,
        },
{
    let lines = record_lines(raw);
    let mut records: Vec<Record> = Vec::new();
    let mut i: usize = 0;
    while i < parsed.len()
        invariant
            i <= parsed.len(),
            line_views(lines@) == record_lines_of(raw@),
            parsed@.len() == record_lines_of(raw@).len(),
            all_parsed(parsed@.take(i as int)),
            records@ == parsed_records(parsed@.take(i as int)),
        decreases parsed.len() - i,
    {
        match &parsed[i] {
            Some(record) => {
                records.push(record.clone());
            },
            None => {
                assert(record_lines_of(raw@)[i as int].0 == lines@[i as int].number);
                assert forall|j: int| 0 <= j < i implies (#[trigger] parsed@[j]) is Some by {
                    assert(parsed@.take(i as int)[j] is Some);
                }
                return Err(TimingsError::NotARecord { line: lines[i].number });
            },
        }
        assert(parsed@.take(i + 1) == parsed@.take(i as int).push(parsed@[i as int]));
        assert(parsed_records(parsed@.take(i + 1)) == parsed_records(parsed@.take(i as int)).push(
            parsed@[i as int]->0,
        ));
        i += 1;
    }
    assert(parsed@.take(i as int) == parsed@);
    assert forall|j: int| 0 <= j < parsed@.len() implies #[trigger] parsed@[j] == Some(
        records@[j],
    ) by {
        assert(parsed_records(parsed@)[j] == parsed@[j]->0);
    }
    Ok(records)
}

/// The text that appends the encoded records to a store, one to a line.
pub fn append(encoded: &[String]) -> (out: String)
    ensures
        out@ == text::on_lines(text::views(encoded@)),
{
    let mut out = String::new();
    let ghost all = text::views(encoded@);
    let mut i: usize = 0;
    while i < encoded.len()
        invariant
            i <= encoded.len(),
            all == text::views(encoded@),
            out@ == text::on_lines(all.take(i as int)),
        decreases encoded.len() - i,
    {
        let ghost before = out@;
        out.append(encoded[i].as_str());
        out.push('\n');
        assert(all.take(i + 1).drop_last() == all.take(i as int));
        assert(out@ == before + all[i as int].push('\n'));
        i += 1;
    }
    assert(all.take(i as int) == all);
    out
}

/// `record` is of this unit and, where a runner is given, from this runner.
pub open spec fn is_selected(record: Record, unit: Seq<char>, runner: Option<Seq<char>>) -> bool {
    record.unit@ == unit && (runner matches Some(want) ==> record.runner@ == want)
}

/// The durations observed of a unit, oldest first.
pub open spec fn observations(
    records: Seq<Record>,
    unit: Seq<char>,
    runner: Option<Seq<char>>,
) -> Seq<i64> {
    records.filter(|record: Record| is_selected(record, unit, runner)).map_values(
        |record: Record| record.nanos,
    )
}

/// The last `keep` of `list`, or all of them if `keep` is zero.
pub open spec fn latest(list: Seq<i64>, keep: nat) -> Seq<i64> {
    if keep > 0 && list.len() > keep {
        list.skip(list.len() - keep)
    } else {
        list
    }
}

/// `estimates` holds, for each unit with an observation and for no other, the
/// median of its last `keep` observations, in half nanoseconds.
pub open spec fn reduces_to(
    records: Seq<Record>,
    runner: Option<Seq<char>>,
    keep: nat,
    estimates: Map<Seq<char>, i128>,
) -> bool {
    forall|unit: Seq<char>|
        {
            &&& #[trigger] estimates.contains_key(unit) <==> observations(
                records,
                unit,
                runner,
            ).len() > 0
            &&& estimates.contains_key(unit) ==> estimates[unit] == median::twice_median_of(
                latest(observations(records, unit, runner), keep),
            )
        }
}

/// The characters of an optional string.
pub open spec fn opt_view(s: Option<&str>) -> Option<Seq<char>> {
    match s {
        Some(s) => Some(s@),
        None => None,
    }
}

proof fn observations_push(
    records: Seq<Record>,
    n: int,
    unit: Seq<char>,
    runner: Option<Seq<char>>,
)
    requires
        0 <= n < records.len(),
    ensures
        observations(records.take(n + 1), unit, runner) == (if is_selected(
            records[n],
            unit,
            runner,
        ) {
            observations(records.take(n), unit, runner).push(records[n].nanos)
        } else {
            observations(records.take(n), unit, runner)
        }),
{
    assert(records.take(n + 1).drop_last() == records.take(n));
    reveal(Seq::filter);
    let f = |record: Record| record.nanos;
    let p = |record: Record| is_selected(record, unit, runner);
    let before = records.take(n).filter(p);
    if is_selected(records[n], unit, runner) {
        assert(before.push(records[n]).map_values(f) == before.map_values(f).push(records[n].nanos));
    }
}

fn keep_latest(seen: &Vec<i64>, keep: usize) -> (out: Vec<i64>)
    ensures
        out@ == latest(seen@, keep as nat),
{
    let mut from: usize = 0;
    if keep > 0 && seen.len() > keep {
        from = seen.len() - keep;
    }
    let mut out: Vec<i64> = Vec::new();
    let mut i: usize = from;
    while i < seen.len()
        invariant
            from <= i <= seen.len(),
            out@ == seen@.subrange(from as int, i as int),
        decreases seen.len() - i,
    {
        out.push(seen[i]);
        i += 1;
    }
    out
}

/// Collapses observations into one duration per unit, in half nanoseconds.
///
/// Filters to a runner when asked, keeps the last `keep` observations of each unit
/// (file order is append order, so the last are the most recent) and takes their
/// median. Median rather than mean because a single job that hit a cold cache or a
/// noisy neighbour should not move the estimate.
pub fn reduce(records: &[Record], runner: Option<&str>, keep: usize) -> (out: Estimates)
    ensures
        reduces_to(records@, opt_view(runner), keep as nat, out@),
        reduces_to(
            records@,
            match runner {
                Some(name) => Some(name@),
                None => None,
            },
            keep as nat,
            out@,
        ),
{
    let ghost want_view = opt_view(runner);
    let want: Option<String> = match runner {
        Some(name) => Some(name.to_owned()),
        None => None,
    };
    let mut slots: StringHashMap<usize> = StringHashMap::new();
    let mut units: Vec<String> = Vec::new();
    let mut seen: Vec<Vec<i64>> = Vec::new();
    let mut i: usize = 0;
    proof {
        assert forall|unit: Seq<char>| observations(records@.take(0), unit, want_view).len()
            == 0 by {
            reveal(Seq::filter);
        }
    }
    while i < records.len()
        invariant
            i <= records.len(),
            want_view == (match want {
                Some(name) => Some(name@),
                None => None,
            }),
            units.len() == seen.len(),
            forall|unit: Seq<char>|
                {
                    let at = slots@[unit] as int;
                    if #[trigger] slots@.contains_key(unit) {
                        &&& at < units.len()
                        &&& units@[at]@ == unit
                        &&& seen@[at]@ == observations(records@.take(i as int), unit, want_view)
                        &&& seen@[at].len() > 0
                    } else {
                        observations(records@.take(i as int), unit, want_view).len() == 0
                    }
                },
            forall|j: int|
                0 <= j < units.len() ==> slots@.contains_key(#[trigger] units@[j]@)
                    && slots@[units@[j]@] == j,
        decreases records.len() - i,
    {
        let record = &records[i];
        let wanted = match &want {
            Some(name) => record.runner == *name,
            None => true,
        };
        proof {
            assert forall|unit: Seq<char>| true implies #[trigger] observations(
                records@.take(i + 1),
                unit,
                want_view,
            ) == (if is_selected(records@[i as int], unit, want_view) {
                observations(records@.take(i as int), unit, want_view).push(
                    records@[i as int].nanos,
                )
            } else {
                observations(records@.take(i as int), unit, want_view)
            }) by {
                observations_push(records@, i as int, unit, want_view);
            }
        }
        if wanted {
            match slots.get(record.unit.as_str()) {
                Some(at) => {
                    let at: usize = *at;
                    seen[at].push(record.nanos);
                },
                None => {
                    slots.insert(record.unit.clone(), units.len());
                    units.push(record.unit.clone());
                    let mut first: Vec<i64> = Vec::new();
                    first.push(record.nanos);
                    seen.push(first);
                },
            }
        }
        i += 1;
    }
    assert(records@.take(i as int) == records@);
    let mut out = Estimates::new();
    let mut j: usize = 0;
    while j < units.len()
        invariant
            j <= units.len(),
            want_view == opt_view(runner),
            units.len() == seen.len(),
            forall|unit: Seq<char>|
                {
                    let at = slots@[unit] as int;
                    if #[trigger] slots@.contains_key(unit) {
                        &&& at < units.len()
                        &&& units@[at]@ == unit
                        &&& seen@[at]@ == observations(records@, unit, want_view)
                        &&& seen@[at].len() > 0
                    } else {
                        observations(records@, unit, want_view).len() == 0
                    }
                },
            forall|j: int|
                0 <= j < units.len() ==> slots@.contains_key(#[trigger] units@[j]@)
                    && slots@[units@[j]@] == j,
            forall|unit: Seq<char>|
                {
                    &&& #[trigger] out@.contains_key(unit) <==> slots@.contains_key(unit)
                        && slots@[unit] < j
                    &&& out@.contains_key(unit) ==> out@[unit] == median::twice_median_of(
                        latest(observations(records@, unit, want_view), keep as nat),
                    )
                },
        decreases units.len() - j,
    {
        assert(slots@.contains_key(units@[j as int]@));
        let recent = keep_latest(&seen[j], keep);
        let estimate = median::twice_median(&recent);
        out.insert(units[j].clone(), estimate);
        j += 1;
    }
    assert forall|unit: Seq<char>| #[trigger] out@.contains_key(unit) <==> observations(
        records@,
        unit,
        want_view,
    ).len() > 0 by {
        assert(slots@.contains_key(unit) || !slots@.contains_key(unit));
    }
    out
}

/// `unit` is in the universe, where one is given.
pub open spec fn is_alive(unit: Seq<char>, universe: Option<Seq<Seq<char>>>) -> bool {
    universe matches Some(units) ==> units.contains(unit)
}

/// How many of the records are of this unit and from this runner.
pub open spec fn count_key(records: Seq<Record>, unit: Seq<char>, runner: Seq<char>) -> nat {
    observations(records, unit, Some(runner)).len()
}

/// The records without those of units outside the universe, and without those
/// that are followed by `keep` or more of the same unit and runner, unless `keep`
/// is zero.
pub open spec fn compacted(
    records: Seq<Record>,
    keep: nat,
    universe: Option<Seq<Seq<char>>>,
) -> Seq<Record>
    decreases records.len(),
{
    if records.len() == 0 {
        seq![]
    } else {
        let first = records.first();
        let rest = records.drop_first();
        let later = compacted(rest, keep, universe);
        if is_alive(first.unit@, universe) && (keep == 0 || count_key(
            rest,
            first.unit@,
            first.runner@,
        ) < keep) {
            seq![first] + later
        } else {
            later
        }
    }
}

/// The characters of an optional list of strings.
pub open spec fn opt_views(list: Option<&[String]>) -> Option<Seq<Seq<char>>> {
    match list {
        Some(list) => Some(text::views(list@)),
        None => None,
    }
}

proof fn observations_front(records: Seq<Record>, unit: Seq<char>, runner: Option<Seq<char>>)
    requires
        records.len() > 0,
    ensures
        observations(records, unit, runner) == (if is_selected(records.first(), unit, runner) {
            seq![records.first().nanos] + observations(records.drop_first(), unit, runner)
        } else {
            observations(records.drop_first(), unit, runner)
        }),
{
    let p = |record: Record| is_selected(record, unit, runner);
    let f = |record: Record| record.nanos;
    let head = seq![records.first()];
    let rest = records.drop_first();
    assert(records == head + rest);
    Seq::filter_distributes_over_add(head, rest, p);
    reveal(Seq::filter);
    assert(head.drop_last() == Seq::<Record>::empty());
    assert(Seq::<Record>::empty().filter(p) == Seq::<Record>::empty());
    if is_selected(records.first(), unit, runner) {
        assert(head.filter(p) == head);
        assert((head + rest.filter(p)).map_values(f) == seq![records.first().nanos] + rest.filter(
            p,
        ).map_values(f));
    } else {
        assert(head.filter(p) == Seq::<Record>::empty());
        assert(Seq::<Record>::empty() + rest.filter(p) == rest.filter(p));
    }
}

fn string_set(list: &[String]) -> (out: StringHashSet)
    ensures
        forall|s: Seq<char>| #[trigger] out@.contains(s) <==> text::views(list@).contains(s),
{
    let mut out = StringHashSet::new();
    let ghost all = text::views(list@);
    let mut i: usize = 0;
    while i < list.len()
        invariant
            i <= list.len(),
            all == text::views(list@),
            forall|s: Seq<char>| #[trigger] out@.contains(s) <==> all.take(i as int).contains(s),
        decreases list.len() - i,
    {
        let ghost before = all.take(i as int);
        let ghost after = all.take(i + 1);
        out.insert(list[i].clone());
        assert(after == before.push(list@[i as int]@));
        assert(after[i as int] == list@[i as int]@);
        assert forall|s: Seq<char>| after.contains(s) <==> before.contains(s) || s
            == list@[i as int]@ by {
            if before.contains(s) {
                let x = choose|x: int| 0 <= x < before.len() && before[x] == s;
                assert(after[x] == s);
            }
        }
        i += 1;
    }
    assert(all.take(i as int) == all);
    out
}

/// How many of each unit and runner have been counted.
struct Counts {
    slots: StringHashMap<usize>,
    runners: Vec<StringHashMap<usize>>,
}

impl Counts {
    spec fn well_formed(self) -> bool {
        forall|unit: Seq<char>| #[trigger]
            self.slots@.contains_key(unit) ==> self.slots@[unit] < self.runners@.len()
    }

    /// No two units share a slot.
    spec fn injective(self) -> bool {
        forall|a: Seq<char>, b: Seq<char>|
            #![trigger self.slots@[a], self.slots@[b]]
            self.slots@.contains_key(a) && self.slots@.contains_key(b) && a != b ==> self.slots@[a]
                != self.slots@[b]
    }

    spec fn count(self, unit: Seq<char>, runner: Seq<char>) -> nat {
        if self.slots@.contains_key(unit) {
            let row = self.runners@[self.slots@[unit] as int]@;
            if row.contains_key(runner) {
                row[runner] as nat
            } else {
                0
            }
        } else {
            0
        }
    }

    fn new() -> (counts: Counts)
        ensures
            counts.well_formed(),
            counts.injective(),
            forall|unit: Seq<char>, runner: Seq<char>| counts.count(unit, runner) == 0,
    {
        Counts { slots: StringHashMap::new(), runners: Vec::new() }
    }

    /// The count so far, to which one is added.
    fn count_one(&mut self, unit: &str, runner: &str) -> (before: usize)
        requires
            old(self).well_formed(),
            old(self).injective(),
            old(self).count(unit@, runner@) < usize::MAX,
        ensures
            final(self).well_formed(),
            final(self).injective(),
            before == old(self).count(unit@, runner@),
            forall|u: Seq<char>, r: Seq<char>| #[trigger]
                final(self).count(u, r) == old(self).count(u, r) + (if u == unit@ && r == runner@ {
                    1nat
                } else {
                    0
                }),
    {
        let known = match self.slots.get(unit) {
            Some(at) => Some(*at),
            None => None,
        };
        let at: usize = match known {
            Some(at) => at,
            None => {
                let at: usize = self.runners.len();
                self.runners.push(StringHashMap::new());
                self.slots.insert(unit.to_owned(), at);
                at
            },
        };
        let before: usize = match self.runners[at].get(runner) {
            Some(n) => *n,
            None => 0,
        };
        self.runners[at].insert(runner.to_owned(), before + 1);
        before
    }
}

/// Trims the store to the last `keep` observations of each unit and runner.
///
/// Also drops units absent from `universe` when one is given: without that the
/// store accumulates deleted tests forever, and a stale unit still counts toward
/// the predicted total that decides the shard count.
pub fn compact(records: &[Record], keep: usize, universe: Option<&[String]>) -> (out: Vec<Record>)
    ensures
        out@ == compacted(records@, keep as nat, opt_views(universe)),
        out@ == compacted(
            records@,
            keep as nat,
            match universe {
                Some(list) => Some(text::views(list@)),
                None => None,
            },
        ),
{
    let alive = match universe {
        Some(list) => Some(string_set(list)),
        None => None,
    };
    let ghost all = opt_views(universe);
    let mut counts = Counts::new();
    // Walk backwards so "the last `keep`" is what survives, then restore order.
    let mut kept: Vec<Record> = Vec::new();
    let mut i: usize = records.len();
    assert(records@.skip(i as int) == Seq::<Record>::empty());
    proof {
        assert forall|unit: Seq<char>, runner: Seq<char>| count_key(
            records@.skip(i as int),
            unit,
            runner,
        ) == 0 by {
            reveal(Seq::filter);
        }
        assert(kept@.reverse() == Seq::<Record>::empty());
    }
    while i > 0
        invariant
            i <= records.len(),
            all == opt_views(universe),
            alive is Some <==> all is Some,
            alive matches Some(set) ==> forall|s: Seq<char>| #[trigger]
                set@.contains(s) <==> all->0.contains(s),
            counts.well_formed(),
            counts.injective(),
            forall|u: Seq<char>, r: Seq<char>|
                is_alive(u, all) ==> #[trigger] counts.count(u, r) == count_key(
                    records@.skip(i as int),
                    u,
                    r,
                ),
            kept@.reverse() == compacted(records@.skip(i as int), keep as nat, all),
        decreases i,
    {
        let ghost rest = records@.skip(i as int);
        i -= 1;
        let record = &records[i];
        let ghost now = records@.skip(i as int);
        assert(now.drop_first() == rest);
        assert(now.first() == *record);
        proof {
            assert forall|u: Seq<char>, r: Seq<char>| #[trigger] count_key(now, u, r)
                == count_key(rest, u, r) + (if u == record.unit@ && r == record.runner@ {
                1nat
            } else {
                0
            }) by {
                observations_front(now, u, Some(r));
            }
            key_count_at_most(rest, record.unit@, record.runner@);
        }
        let living = match &alive {
            Some(set) => set.contains(record.unit.as_str()),
            None => true,
        };
        if living {
            let later = counts.count_one(record.unit.as_str(), record.runner.as_str());
            if keep == 0 || later < keep {
                let ghost before = kept@;
                kept.push(record.clone());
                assert(kept@.reverse() == seq![*record] + before.reverse());
            }
        }
    }
    assert(records@.skip(0) == records@);
    let mut out: Vec<Record> = Vec::new();
    let mut k: usize = kept.len();
    while k > 0
        invariant
            k <= kept.len(),
            out@ == kept@.reverse().take(kept.len() - k),
        decreases k,
    {
        k -= 1;
        out.push(kept[k].clone());
    }
    assert(kept@.reverse().take(kept.len() as int) == kept@.reverse());
    out
}

proof fn key_count_at_most(records: Seq<Record>, unit: Seq<char>, runner: Seq<char>)
    ensures
        count_key(records, unit, runner) <= records.len(),
{
    records.lemma_filter_len(|record: Record| is_selected(record, unit, Some(runner)));
}

/// Some record is from this runner, where one is given.
pub open spec fn any_from(records: Seq<Record>, runner: Option<Seq<char>>) -> bool {
    exists|i: int|
        0 <= i < records.len() && is_selected(#[trigger] records[i], records[i].unit@, runner)
}

proof fn observed_iff_selected(records: Seq<Record>, unit: Seq<char>, runner: Option<Seq<char>>)
    ensures
        observations(records, unit, runner).len() > 0 <==> exists|i: int|
            0 <= i < records.len() && is_selected(#[trigger] records[i], unit, runner),
    decreases records.len(),
{
    if records.len() > 0 {
        let rest = records.drop_first();
        observations_front(records, unit, runner);
        observed_iff_selected(rest, unit, runner);
        if observations(rest, unit, runner).len() > 0 {
            let i = choose|i: int|
                0 <= i < rest.len() && is_selected(#[trigger] rest[i], unit, runner);
            assert(records[i + 1] == rest[i]);
        }
        if exists|i: int|
            0 <= i < records.len() && is_selected(#[trigger] records[i], unit, runner) {
            let i = choose|i: int|
                0 <= i < records.len() && is_selected(#[trigger] records[i], unit, runner);
            if i > 0 {
                assert(rest[i - 1] == records[i]);
            }
        }
    } else {
        reveal(Seq::filter);
    }
}

proof fn estimates_iff_any(
    records: Seq<Record>,
    runner: Option<Seq<char>>,
    keep: nat,
    estimates: Map<Seq<char>, i128>,
)
    requires
        reduces_to(records, runner, keep, estimates),
    ensures
        estimates.is_empty() <==> !any_from(records, runner),
{
    if any_from(records, runner) {
        let i = choose|i: int|
            0 <= i < records.len() && is_selected(#[trigger] records[i], records[i].unit@, runner);
        observed_iff_selected(records, records[i].unit@, runner);
        assert(estimates.contains_key(records[i].unit@));
        assert(estimates.dom().contains(records[i].unit@));
    } else {
        assert forall|unit: Seq<char>| !estimates.dom().contains(unit) by {
            observed_iff_selected(records, unit, runner);
            if estimates.contains_key(unit) {
                let i = choose|i: int|
                    0 <= i < records.len() && is_selected(#[trigger] records[i], unit, runner);
                assert(is_selected(records[i], records[i].unit@, runner));
            }
        }
        assert(estimates.dom() == Set::<Seq<char>>::empty());
        assert(estimates == Map::<Seq<char>, i128>::empty());
    }
}

/// The durations in the store `raw` in either format: `flat` is the flat
/// unit-to-seconds object, if the store is one, and `parsed` what was read from
/// each of its record lines if it is not.
pub fn load_any(
    raw: &str,
    flat: Option<Estimates>,
    parsed: Vec<Option<Record>>,
    runner: Option<&str>,
    keep: usize,
) -> (out: Result<Estimates, TimingsError>)
    requires
        flat is None ==> parsed@.len() == record_lines_of(raw@).len(),
    ensures
        flat matches Some(estimates) ==> out == Ok::<Estimates, TimingsError>(estimates),
        flat is None ==> match out {
            Ok(estimates) => {
                &&& all_parsed(parsed@)
                &&& parsed@.len() > 0
                &&& reduces_to(parsed_records(parsed@), opt_view(runner), keep as nat, estimates@)
                &&& any_from(parsed_records(parsed@), opt_view(runner))
                &&& forall|i: int| 0 <= i < parsed@.len() ==> (#[trigger] parsed@[i]) is Some
                &&& runner matches Some(name) ==> exists|i: int|
                    0 <= i < parsed@.len() && (#[trigger] parsed@[i])->0.runner@ == name@
                &&& reduces_to(
                    parsed_records(parsed@),
                    match runner {
                        Some(name) => Some(name@),
                        None => None,
                    },
                    keep as nat,
                    estimates@,
                )
            },
            Err(TimingsError::NotARecord { line }) => {
                &&& first_unparsed(record_lines_of(raw@), parsed@, line)
                &&& exists|i: int|
                    {
                        &&& 0 <= i < parsed@.len()
                        &&& (#[trigger] parsed@[i]) is None
                        &&& forall|j: int| 0 <= j < i ==> (#[trigger] parsed@[j]) is Some
                        &&& line == record_lines_of(raw@)[i].0
                    }
            },
            Err(TimingsError::NoRecords) => record_lines_of(raw@).len() == 0,
            Err(TimingsError::NoneForRunner { runner: name, records }) => {
                &&& all_parsed(parsed@)
                &&& parsed@.len() > 0
                &&& opt_view(runner) == Some(name@)
                &&& records == parsed@.len()
                &&& !any_from(parsed_records(parsed@), opt_view(runner))
                &&& runner matches Some(want) && want@ == name@
                &&& forall|i: int|
                    0 <= i < parsed@.len() ==> ((#[trigger] parsed@[i]) matches Some(record)
                        && record.runner@ != name@)
            },
        },
{
    if let Some(estimates) = flat {
        return Ok(estimates);
    }
    let records = match load(raw, parsed) {
        Ok(records) => records,
        Err(error) => {
            return Err(error);
        },
    };
    if records.len() == 0 {
        return Err(TimingsError::NoRecords);
    }
    let reduced = reduce(records.as_slice(), runner, keep);
    proof {
        estimates_iff_any(records@, opt_view(runner), keep as nat, reduced@);
        assert forall|i: int| 0 <= i < parsed@.len() implies records@[i] == (
        #[trigger] parsed@[i])->0 by {
            assert(parsed@[i] == Some(records@[i]));
        }
        if any_from(records@, opt_view(runner)) {
            if let Some(name) = runner {
                let i = choose|i: int|
                    0 <= i < records@.len() && is_selected(
                        #[trigger] records@[i],
                        records@[i].unit@,
                        opt_view(runner),
                    );
                assert(parsed@[i]->0.runner@ == name@);
            }
        } else {
            assert forall|i: int|
                0 <= i < parsed@.len() && runner is Some implies (#[trigger] parsed@[i])->0.runner@
                != runner->0@ by {
                assert(!is_selected(records@[i], records@[i].unit@, opt_view(runner)));
            }
        }
    }
    if reduced.is_empty() {
        if let Some(name) = runner {
            return Err(
                TimingsError::NoneForRunner { runner: name.to_owned(), records: records.len() },
            );
        }
        assert(is_selected(records@[0], records@[0].unit@, opt_view(runner)));
    }
    Ok(reduced)
}

impl TimingsError {
    /// The text of the message about the store at `path`.
    pub open spec fn text(self, path: Seq<char>) -> Seq<char> {
        match self {
            TimingsError::NotARecord { line } => path + ":"@ + text::decimal_of(line as nat)
                + " is not a timing record"@,
            TimingsError::NoRecords => path
                + " holds no timing records — it is neither JSONL nor a unit-to-seconds object"@,
            TimingsError::NoneForRunner { runner, records } => path + " has "@ + text::decimal_of(
                records as nat,
            ) + " record(s) but none for runner "@ + runner@ + " — check the --runner name"@,
        }
    }

    /// What to tell the user about the store at `path`.
    pub fn message(&self, path: &str) -> (out: String)
        ensures
            out@ == self.text(path@),
            self matches TimingsError::NotARecord { line } ==> out@ == path@ + ":"@
                + text::decimal_of(*line as nat) + " is not a timing record"@,
            self is NoRecords ==> out@ == path@
                + " holds no timing records — it is neither JSONL nor a unit-to-seconds object"@,
            self matches TimingsError::NoneForRunner { runner, records } ==> out@ == path@
                + " has "@ + text::decimal_of(*records as nat) + " record(s) but none for runner "@
                + runner@ + " — check the --runner name"@,
    {
        let mut out = path.to_owned();
        match self {
            TimingsError::NotARecord { line } => {
                out.append(":");
                out.append(text::decimal(*line).as_str());
                out.append(" is not a timing record");
            },
            TimingsError::NoRecords => {
                out.append(
                    " holds no timing records — it is neither JSONL nor a unit-to-seconds object",
                );
            },
            TimingsError::NoneForRunner { runner, records } => {
                out.append(" has ");
                out.append(text::decimal(*records).as_str());
                out.append(" record(s) but none for runner ");
                out.append(runner.as_str());
                out.append(" — check the --runner name");
            },
        }
        out
    }
}

/// The lines without their numbers.
pub open spec fn texts(lines: Seq<(int, Seq<char>)>) -> Seq<Seq<char>> {
    lines.map_values(|line: (int, Seq<char>)| line.1)
}

/// `line` can be stored and will be read.
pub open spec fn is_storable(line: Seq<char>) -> bool {
    text::is_line(line) && text::trimmed(line).len() > 0
}

/// What is appended to a store is what is read from it, after what was there:
/// nothing is lost, merged or reordered. The store has to be empty or end with a
/// line feed, as appending leaves it.
pub proof fn appended_lines_are_read_back(store: Seq<char>, encoded: Seq<Seq<char>>)
    requires
        store.len() > 0 ==> store.last() == '\n',
        forall|i: int| 0 <= i < encoded.len() ==> is_storable(#[trigger] encoded[i]),
    ensures
        texts(record_lines_of(store + text::on_lines(encoded))) == texts(record_lines_of(store))
            + encoded,
        (store + text::on_lines(encoded)).len() > 0 ==> (store + text::on_lines(encoded)).last()
            == '\n',
{
    let p = |line: (int, Seq<char>)| text::trimmed(line.1).len() > 0;
    let added = text::on_lines(encoded);
    assert forall|i: int| 0 <= i < encoded.len() implies text::is_line(#[trigger] encoded[i]) by {
        assert(is_storable(encoded[i]));
    }
    text::lines_are_read_back(encoded);
    text::lines_of_concatenation(store, added);
    if added.len() == 0 {
        assert(store + added == store);
    } else {
        assert((store + added).last() == added.last());
    }
    let old_lines = text::lines_of(store);
    let a = numbered(old_lines);
    let b = Seq::new(encoded.len(), |i: int| (old_lines.len() + i + 1, encoded[i]));
    assert(numbered(old_lines + encoded) == a + b);
    Seq::filter_distributes_over_add(a, b, p);
    assert forall|i: int| 0 <= i < b.len() implies p(#[trigger] b[i]) by {
        assert(is_storable(encoded[i]));
    }
    sums::filter_keeps_all(b, p);
    assert(texts(a.filter(p) + b) == texts(a.filter(p)) + encoded);
}

/// What the records hold.
pub open spec fn record_views(records: Seq<Record>) -> Seq<RecordView> {
    records.map_values(|record: Record| record@)
}

/// What `decode` reads from each record line of a store.
pub open spec fn decoded(
    raw: Seq<char>,
    decode: spec_fn(Seq<char>) -> Option<Record>,
) -> Seq<Option<Record>> {
    texts(record_lines_of(raw)).map_values(decode)
}

/// If each encoded line reads back as its record, loading a store after `append`
/// gives the old records and then the new ones; a store that could be loaded still
/// can, and one that could not still cannot. The store has to be empty or end with
/// a line feed, as appending leaves it. How a record is written on its line and
/// read from it is the caller's: this holds of every such encoding.
pub proof fn appended_records_are_loaded(
    store: Seq<char>,
    encoded: Seq<Seq<char>>,
    records: Seq<Record>,
    decode: spec_fn(Seq<char>) -> Option<Record>,
)
    requires
        store.len() > 0 ==> store.last() == '\n',
        encoded.len() == records.len(),
        forall|i: int| 0 <= i < encoded.len() ==> is_storable(#[trigger] encoded[i]),
        forall|i: int|
            0 <= i < encoded.len() ==> (decode(#[trigger] encoded[i]) matches Some(record)
                && record@ == records[i]@),
    ensures
        decoded(store + text::on_lines(encoded), decode).len() == record_lines_of(
            store + text::on_lines(encoded),
        ).len(),
        all_parsed(decoded(store + text::on_lines(encoded), decode)) <==> all_parsed(
            decoded(store, decode),
        ),
        record_views(parsed_records(decoded(store + text::on_lines(encoded), decode)))
            == record_views(parsed_records(decoded(store, decode))) + record_views(records),
{
    appended_lines_are_read_back(store, encoded);
    let before = decoded(store, decode);
    let after = decoded(store + text::on_lines(encoded), decode);
    let added = encoded.map_values(decode);
    assert(after == before + added);
    assert forall|i: int| 0 <= i < added.len() implies (#[trigger] added[i]) is Some
        && added[i]->0@ == records[i]@ by {
        assert(decode(encoded[i]) is Some);
    }
    if all_parsed(after) {
        assert forall|i: int| 0 <= i < before.len() implies (#[trigger] before[i]) is Some by {
            assert(after[i] == before[i]);
        }
    }
    assert(record_views(parsed_records(after)) =~= record_views(parsed_records(before))
        + record_views(records));
}

/// Compacting forgets nothing that an estimate with the same `keep` would use: of
/// a unit in the universe the observations from a runner are then exactly the last
/// `keep` ones, and of any other unit there are none.
pub proof fn compaction_keeps_the_latest(
    records: Seq<Record>,
    keep: nat,
    universe: Option<Seq<Seq<char>>>,
    unit: Seq<char>,
    runner: Seq<char>,
)
    ensures
        observations(compacted(records, keep, universe), unit, Some(runner)) == (if is_alive(
            unit,
            universe,
        ) {
            latest(observations(records, unit, Some(runner)), keep)
        } else {
            Seq::empty()
        }),
    decreases records.len(),
{
    let who = Some(runner);
    if records.len() == 0 {
        reveal(Seq::filter);
        assert(observations(records, unit, who) == Seq::<i64>::empty());
        assert(observations(compacted(records, keep, universe), unit, who) == Seq::<i64>::empty());
    } else {
        let first = records.first();
        let rest = records.drop_first();
        let later = compacted(rest, keep, universe);
        compaction_keeps_the_latest(rest, keep, universe, unit, runner);
        observations_front(records, unit, who);
        let now = compacted(records, keep, universe);
        if now != later {
            assert(now == seq![first] + later);
            assert(now.drop_first() == later);
            observations_front(now, unit, who);
        }
        let seen = observations(rest, unit, who);
        if is_selected(first, unit, who) && is_alive(unit, universe) {
            let whole = seq![first.nanos] + seen;
            if keep > 0 && seen.len() >= keep {
                assert(whole.skip(whole.len() - keep) == latest(seen, keep));
            } else {
                assert(now == seq![first] + later);
                assert(now.len() == later.len() + 1);
            }
        }
    }
}

proof fn any_runner_has_as_many(records: Seq<Record>, unit: Seq<char>, runner: Seq<char>)
    ensures
        count_key(records, unit, runner) <= observations(records, unit, None).len(),
    decreases records.len(),
{
    if records.len() == 0 {
        reveal(Seq::filter);
    } else {
        any_runner_has_as_many(records.drop_first(), unit, runner);
        observations_front(records, unit, Some(runner));
        observations_front(records, unit, None);
    }
}

/// Compacting keeps what a reader sees who looks no further back than the
/// compaction kept, of one runner or of all of them: of a unit in the universe the
/// last `back` observations stay the same.
pub proof fn compaction_keeps_recent_observations(
    records: Seq<Record>,
    keep: nat,
    universe: Option<Seq<Seq<char>>>,
    unit: Seq<char>,
    runner: Option<Seq<char>>,
    back: nat,
)
    requires
        is_alive(unit, universe),
        keep == 0 || 0 < back <= keep,
    ensures
        latest(observations(compacted(records, keep, universe), unit, runner), back) == latest(
            observations(records, unit, runner),
            back,
        ),
    decreases records.len(),
{
    if records.len() == 0 {
        assert(compacted(records, keep, universe) == records);
    } else {
        let first = records.first();
        let rest = records.drop_first();
        let later = compacted(rest, keep, universe);
        let now = compacted(records, keep, universe);
        compaction_keeps_recent_observations(rest, keep, universe, unit, runner, back);
        observations_front(records, unit, runner);
        if now != later {
            assert(now == seq![first] + later);
            assert(now.drop_first() == later);
            observations_front(now, unit, runner);
        }
        let seen = observations(rest, unit, runner);
        let kept = observations(later, unit, runner);
        if is_selected(first, unit, runner) {
            let whole = seq![first.nanos] + seen;
            if keep > 0 && count_key(rest, unit, first.runner@) >= keep {
                any_runner_has_as_many(rest, unit, first.runner@);
                assert(now == later);
                assert(latest(whole, back) == latest(seen, back));
            } else {
                assert(now == seq![first] + later);
                assert(now.len() == later.len() + 1);
                let left = seq![first.nanos] + kept;
                if back > 0 && kept.len() >= back {
                    assert(seen.len() >= back);
                    assert(latest(left, back) == latest(kept, back));
                    assert(latest(whole, back) == latest(seen, back));
                } else {
                    assert(seen == kept);
                }
            }
        }
    }
}

/// Compacting a store changes no estimate that looks no further back than the
/// compaction kept, whether it is of one runner or of all of them.
pub proof fn compaction_keeps_estimates(
    records: Seq<Record>,
    keep: nat,
    runner: Option<Seq<char>>,
    back: nat,
    estimates: Map<Seq<char>, i128>,
)
    requires
        keep == 0 || 0 < back <= keep,
        reduces_to(records, runner, back, estimates),
    ensures
        reduces_to(compacted(records, keep, None), runner, back, estimates),
{
    let kept = compacted(records, keep, None);
    assert forall|unit: Seq<char>|
        {
            &&& #[trigger] estimates.contains_key(unit) <==> observations(kept, unit, runner).len()
                > 0
            &&& estimates.contains_key(unit) ==> estimates[unit] == median::twice_median_of(
                latest(observations(kept, unit, runner), back),
            )
        } by {
        compaction_keeps_recent_observations(records, keep, None, unit, runner, back);
        let all = observations(records, unit, runner);
        let left = observations(kept, unit, runner);
        assert(latest(all, back).len() > 0 <==> all.len() > 0);
        assert(latest(left, back).len() > 0 <==> left.len() > 0);
        assert(estimates.contains_key(unit) <==> all.len() > 0);
    }
}

/// The records, with another duration for the one at `i`.
pub open spec fn with_nanos(records: Seq<Record>, i: int, nanos: i64) -> Seq<Record> {
    records.update(i, Record { nanos, ..records[i] })
}

proof fn observations_update(
    records: Seq<Record>,
    i: int,
    nanos: i64,
    unit: Seq<char>,
    runner: Option<Seq<char>>,
) -> (j: int)
    requires
        0 <= i < records.len(),
        is_selected(records[i], unit, runner),
    ensures
        0 <= j < observations(records, unit, runner).len(),
        observations(records, unit, runner)[j] == records[i].nanos,
        observations(with_nanos(records, i, nanos), unit, runner) == observations(
            records,
            unit,
            runner,
        ).update(j, nanos),
{
    let front = records.take(i);
    let back = records.skip(i);
    let after = with_nanos(records, i, nanos);
    assert(records == front + back);
    assert(after == front + after.skip(i));
    stores_concatenate(front, back, unit, runner);
    stores_concatenate(front, after.skip(i), unit, runner);
    observations_front(back, unit, runner);
    observations_front(after.skip(i), unit, runner);
    assert(back.drop_first() == after.skip(i).drop_first());
    let j = observations(front, unit, runner).len() as int;
    assert(observations(after, unit, runner) == observations(records, unit, runner).update(
        j,
        nanos,
    ));
    j
}

/// One slow run does not move an estimate: with three or more observations kept of
/// a unit, making the slowest of them slower leaves the unit's estimate as it was.
pub proof fn one_slow_run_moves_no_estimate(
    records: Seq<Record>,
    i: int,
    slower: i64,
    unit: Seq<char>,
    runner: Option<Seq<char>>,
    keep: nat,
    before: Map<Seq<char>, i128>,
    after: Map<Seq<char>, i128>,
)
    requires
        0 <= i < records.len(),
        is_selected(records[i], unit, runner),
        slower >= records[i].nanos,
        latest(observations(records, unit, runner), keep).len() >= 3,
        forall|j: int|
            0 <= j < latest(observations(records, unit, runner), keep).len() ==> (
            #[trigger] latest(observations(records, unit, runner), keep)[j]) <= records[i].nanos,
        reduces_to(records, runner, keep, before),
        reduces_to(with_nanos(records, i, slower), runner, keep, after),
    ensures
        before.contains_key(unit),
        after.contains_key(unit),
        after[unit] == before[unit],
{
    let seen = observations(records, unit, runner);
    let j = observations_update(records, i, slower, unit, runner);
    let changed = observations(with_nanos(records, i, slower), unit, runner);
    assert(before.contains_key(unit) <==> seen.len() > 0);
    assert(after.contains_key(unit) <==> changed.len() > 0);
    let kept = latest(seen, keep);
    let from = seen.len() - kept.len();
    if j < from {
        assert(latest(changed, keep) == kept);
    } else {
        assert(latest(changed, keep) == kept.update(j - from, slower));
        assert(kept[j - from] == records[i].nanos);
        median::raising_the_largest_keeps_the_median(kept, j - from, slower);
    }
}

/// Compacting a compacted store changes nothing.
pub proof fn compaction_is_idempotent(
    records: Seq<Record>,
    keep: nat,
    universe: Option<Seq<Seq<char>>>,
)
    ensures
        compacted(compacted(records, keep, universe), keep, universe) == compacted(
            records,
            keep,
            universe,
        ),
    decreases records.len(),
{
    if records.len() > 0 {
        let first = records.first();
        let rest = records.drop_first();
        let later = compacted(rest, keep, universe);
        compaction_is_idempotent(rest, keep, universe);
        let now = compacted(records, keep, universe);
        if is_alive(first.unit@, universe) && (keep == 0 || count_key(
            rest,
            first.unit@,
            first.runner@,
        ) < keep) {
            assert(now == seq![first] + later);
            assert(now.drop_first() == later);
            assert(now.first() == first);
            compaction_keeps_the_latest(rest, keep, universe, first.unit@, first.runner@);
        }
    }
}

/// A runner's observations do not depend on what other runners recorded.
pub proof fn runners_do_not_mix(records: Seq<Record>, unit: Seq<char>, runner: Seq<char>)
    ensures
        observations(records, unit, Some(runner)) == observations(
            records.filter(|record: Record| record.runner@ == runner),
            unit,
            None,
        ),
    decreases records.len(),
{
    let p = |record: Record| record.runner@ == runner;
    reveal(Seq::filter);
    if records.len() > 0 {
        let n = records.len() - 1;
        let rest = records.drop_last();
        runners_do_not_mix(rest, unit, runner);
        observations_push(records, n, unit, Some(runner));
        assert(records.take(n) == rest);
        assert(records.take(n + 1) == records);
        if p(records.last()) {
            let own = rest.filter(p);
            let all = own.push(records.last());
            observations_push(all, own.len() as int, unit, None);
            assert(all.take(own.len() as int) == own);
            assert(all.take(own.len() as int + 1) == all);
        }
    } else {
        assert(records.filter(p) == records);
    }
}

/// The observations in two stores, one after the other, are those in the one and
/// then those in the other.
pub proof fn stores_concatenate(
    a: Seq<Record>,
    b: Seq<Record>,
    unit: Seq<char>,
    runner: Option<Seq<char>>,
)
    ensures
        observations(a + b, unit, runner) == observations(a, unit, runner) + observations(
            b,
            unit,
            runner,
        ),
{
    let p = |record: Record| is_selected(record, unit, runner);
    let f = |record: Record| record.nanos;
    Seq::filter_distributes_over_add(a, b, p);
    assert((a.filter(p) + b.filter(p)).map_values(f) == a.filter(p).map_values(f) + b.filter(
        p,
    ).map_values(f));
}

/// The latest observations are the last ones: all of them without a limit, and
/// otherwise as many as the limit allows and there are.
pub proof fn the_latest_come_last(list: Seq<i64>, keep: nat)
    ensures
        keep == 0 ==> latest(list, keep) == list,
        keep > 0 && list.len() <= keep ==> latest(list, keep).len() == list.len(),
        keep > 0 && list.len() > keep ==> latest(list, keep).len() == keep,
        list == list.take(list.len() - latest(list, keep).len()) + latest(list, keep),
{
}

/// An empty store holds no observations, and a store of one record holds one if
/// the record is of the unit and, where a runner is asked for, from that runner.
pub proof fn a_record_is_an_observation(record: Record, unit: Seq<char>, runner: Option<Seq<char>>)
    ensures
        observations(Seq::<Record>::empty(), unit, runner) == Seq::<i64>::empty(),
        observations(seq![record], unit, runner) == (if record.unit@ == unit && (runner is None
            || runner == Some(record.runner@)) {
            seq![record.nanos]
        } else {
            Seq::<i64>::empty()
        }),
{
    let none = Seq::<Record>::empty();
    reveal(Seq::filter);
    assert(observations(none, unit, runner) == Seq::<i64>::empty());
    observations_front(seq![record], unit, runner);
    assert(seq![record].drop_first() == none);
    assert(seq![record.nanos] + Seq::<i64>::empty() == seq![record.nanos]);
}

/// A unit has an estimate if and only if a record is of it and, where a runner is
/// asked for, from that runner. The estimate splits the observations that count in
/// half: at least half of the last `keep` of them, or of all of them if `keep` is
/// zero, are at most the estimate, and at least half are at least the estimate.
pub proof fn an_estimate_halves_what_was_last_observed(
    records: Seq<Record>,
    runner: Option<Seq<char>>,
    keep: nat,
    estimates: Map<Seq<char>, i128>,
    unit: Seq<char>,
    older: Seq<i64>,
    recent: Seq<i64>,
)
    requires
        reduces_to(records, runner, keep, estimates),
        observations(records, unit, runner) == older + recent,
        keep == 0 ==> older.len() == 0,
        keep > 0 ==> recent.len() <= keep && (recent.len() < keep ==> older.len() == 0),
    ensures
        estimates.contains_key(unit) <==> exists|i: int|
            {
                &&& 0 <= i < records.len()
                &&& (#[trigger] records[i]).unit@ == unit
                &&& runner is None || runner == Some(records[i].runner@)
            },
        estimates.contains_key(unit) <==> recent.len() > 0,
        estimates.contains_key(unit) ==> {
            &&& 2 * recent.filter(|v: i64| 2 * v <= estimates[unit]).len() >= recent.len()
            &&& 2 * recent.filter(|v: i64| 2 * v >= estimates[unit]).len() >= recent.len()
            &&& estimates[unit] == median::twice_median_of(recent)
        },
{
    let all = observations(records, unit, runner);
    assert(estimates.contains_key(unit) <==> all.len() > 0);
    observed_iff_selected(records, unit, runner);
    if all.len() > 0 {
        let i = choose|i: int|
            0 <= i < records.len() && is_selected(#[trigger] records[i], unit, runner);
        assert(records[i].unit@ == unit);
    }
    if exists|i: int|
        {
            &&& 0 <= i < records.len()
            &&& (#[trigger] records[i]).unit@ == unit
            &&& runner is None || runner == Some(records[i].runner@)
        } {
        let i = choose|i: int|
            {
                &&& 0 <= i < records.len()
                &&& (#[trigger] records[i]).unit@ == unit
                &&& runner is None || runner == Some(records[i].runner@)
            };
        assert(is_selected(records[i], unit, runner));
    }
    assert(latest(all, keep) == recent);
    if recent.len() > 0 {
        median::the_median_halves_the_values(recent);
        let m = median::twice_median_of(recent);
        assert((|v: i64| 2 * v <= estimates[unit]) =~= (|v: i64| 2 * v <= m));
        assert((|v: i64| 2 * v >= estimates[unit]) =~= (|v: i64| 2 * v >= m));
    }
}

proof fn count_key_is(records: Seq<Record>, unit: Seq<char>, runner: Seq<char>)
    ensures
        count_key(records, unit, runner) == records.filter(
            |r: Record| r.unit@ == unit && r.runner@ == runner,
        ).len(),
{
    let p = |r: Record| is_selected(r, unit, Some(runner));
    let q = |r: Record| r.unit@ == unit && r.runner@ == runner;
    assert(p =~= q);
}

/// Whether compacting keeps a record depends on what comes after it, not on what
/// comes before: it stays if its unit is in the universe, where one is given, and
/// fewer than `keep` later records are of the same unit and runner, unless `keep`
/// is zero. The later records are treated as they would be by themselves.
pub proof fn compaction_decides_on_each_record(
    first: Record,
    rest: Seq<Record>,
    keep: nat,
    universe: Option<Seq<Seq<char>>>,
)
    ensures
        compacted(Seq::<Record>::empty(), keep, universe) == Seq::<Record>::empty(),
        compacted(seq![first] + rest, keep, universe) == (if (universe is None
            || universe->0.contains(first.unit@)) && (keep == 0 || rest.filter(
            |r: Record| r.unit@ == first.unit@ && r.runner@ == first.runner@,
        ).len() < keep) {
            seq![first] + compacted(rest, keep, universe)
        } else {
            compacted(rest, keep, universe)
        }),
{
    let all = seq![first] + rest;
    assert(all.drop_first() == rest);
    assert(all.first() == first);
    let unit = first.unit@;
    let runner = first.runner@;
    count_key_is(rest, unit, runner);
    assert((|r: Record| r.unit@ == unit && r.runner@ == runner) =~= (|r: Record|
        r.unit@ == first.unit@ && r.runner@ == first.runner@));
}

/// Compacting keeps the last `keep` records of each unit in the universe and each
/// runner, as they are and in order, or all of them if `keep` is zero, and none of
/// a unit that is not in the universe.
pub proof fn compaction_keeps_the_last_records(
    records: Seq<Record>,
    keep: nat,
    universe: Option<Seq<Seq<char>>>,
    unit: Seq<char>,
    runner: Seq<char>,
)
    ensures
        ({
            let of_key = |r: Record| r.unit@ == unit && r.runner@ == runner;
            let before = records.filter(of_key);
            let after = compacted(records, keep, universe).filter(of_key);
            if universe is Some && !universe->0.contains(unit) {
                after.len() == 0
            } else {
                &&& keep == 0 ==> after == before
                &&& keep > 0 && before.len() <= keep ==> after == before
                &&& keep > 0 && before.len() > keep ==> after.len() == keep && before
                    == before.take(before.len() - keep) + after
            }
        }),
    decreases records.len(),
{
    let of_key = |r: Record| r.unit@ == unit && r.runner@ == runner;
    let none = Seq::<Record>::empty();
    if records.len() == 0 {
        reveal(Seq::filter);
        assert(compacted(records, keep, universe) == none);
        assert(records == none);
        assert(none.filter(of_key) == none);
    } else {
        let first = records.first();
        let rest = records.drop_first();
        let head = seq![first];
        assert(records == head + rest);
        compaction_decides_on_each_record(first, rest, keep, universe);
        compaction_keeps_the_last_records(rest, keep, universe, unit, runner);
        let later = compacted(rest, keep, universe);
        Seq::filter_distributes_over_add(head, rest, of_key);
        Seq::filter_distributes_over_add(head, later, of_key);
        reveal(Seq::filter);
        assert(head.drop_last() == none);
        assert(none.filter(of_key) == none);
        let before = rest.filter(of_key);
        if of_key(first) {
            assert(head.filter(of_key) == head);
            let same = |r: Record| r.unit@ == first.unit@ && r.runner@ == first.runner@;
            assert(same =~= of_key);
            assert(records.filter(of_key) == head + before);
            if keep > 0 && before.len() >= keep && (universe is None || universe->0.contains(unit)) {
                let whole = head + before;
                let kept = later.filter(of_key);
                let cut = before.len() - keep;
                assert(before == before.take(cut) + kept) by {
                    if cut == 0 {
                        assert(before.take(0) + before == before);
                    }
                }
                assert(whole.take(cut + 1) == head + before.take(cut));
                assert(head + before.take(cut) + kept == head + (before.take(cut) + kept));
            }
        } else {
            assert(head.filter(of_key) == none);
            assert(none + before == before);
            assert(none + later.filter(of_key) == later.filter(of_key));
        }
    }
}

/// Compacting a store leaves as many records of a unit in the universe and of a
/// runner as there were, but no more than `keep` unless `keep` is zero.
pub proof fn compaction_keeps_so_many(
    records: Seq<Record>,
    keep: nat,
    universe: Option<Seq<Seq<char>>>,
    unit: Seq<char>,
    runner: Seq<char>,
)
    requires
        universe is None || universe->0.contains(unit),
    ensures
        ({
            let of_key = |r: Record| r.unit@ == unit && r.runner@ == runner;
            let before = records.filter(of_key).len();
            let after = compacted(records, keep, universe).filter(of_key).len();
            after == (if keep == 0 || before <= keep {
                before
            } else {
                keep
            })
        }),
{
    compaction_keeps_the_last_records(records, keep, universe, unit, runner);
}

/// The records that lines gave are what each line gave, in turn, and every line
/// gave one if and only if none gave nothing.
pub proof fn parsed_records_are_of_each_line(parsed: Seq<Option<Record>>)
    ensures
        parsed_records(parsed).len() == parsed.len(),
        forall|i: int|
            0 <= i < parsed.len() ==> (#[trigger] parsed[i]) is Some ==> parsed[i] == Some(
                parsed_records(parsed)[i],
            ),
        all_parsed(parsed) <==> !parsed.contains(None),
{
    if !all_parsed(parsed) {
        let i = choose|i: int| 0 <= i < parsed.len() && !((#[trigger] parsed[i]) is Some);
        assert(parsed[i] == None::<Record>);
    }
}

/// The record lines of a store are its lines that hold more than white space, each
/// with its number in the file, in the order of the file.
pub proof fn record_lines_are_the_lines_that_are_not_blank(raw: Seq<char>)
    ensures
        forall|k: int|
            0 <= k < record_lines_of(raw).len() ==> {
                let line = #[trigger] record_lines_of(raw)[k];
                &&& 1 <= line.0 <= text::lines_of(raw).len()
                &&& line.1 == text::lines_of(raw)[line.0 - 1]
                &&& text::trimmed(line.1).len() > 0
            },
        forall|k: int, l: int|
            0 <= k < l < record_lines_of(raw).len() ==> (#[trigger] record_lines_of(raw)[k]).0 < (
            #[trigger] record_lines_of(raw)[l]).0,
        forall|n: int|
            0 <= n < text::lines_of(raw).len() && text::trimmed(
                #[trigger] text::lines_of(raw)[n],
            ).len() > 0 ==> record_lines_of(raw).contains((n + 1, text::lines_of(raw)[n])),
{
    let lines = text::lines_of(raw);
    let all = numbered(lines);
    not_blank_up_to(lines, lines.len() as int);
    assert(all.take(lines.len() as int) == all);
}

proof fn not_blank_up_to(lines: Seq<Seq<char>>, n: int)
    requires
        0 <= n <= lines.len(),
    ensures
        ({
            let got = not_blank(numbered(lines).take(n));
            &&& forall|k: int|
                0 <= k < got.len() ==> {
                    let line = #[trigger] got[k];
                    &&& 1 <= line.0 <= n
                    &&& line.1 == lines[line.0 - 1]
                    &&& text::trimmed(line.1).len() > 0
                }
            &&& forall|k: int, l: int|
                0 <= k < l < got.len() ==> (#[trigger] got[k]).0 < (#[trigger] got[l]).0
            &&& forall|i: int|
                0 <= i < n && text::trimmed(#[trigger] lines[i]).len() > 0 ==> got.contains(
                    (i + 1, lines[i]),
                )
        }),
    decreases n,
{
    let all = numbered(lines);
    if n == 0 {
        reveal(Seq::filter);
    } else {
        not_blank_up_to(lines, n - 1);
        not_blank_push(all, n - 1);
        let before = not_blank(all.take(n - 1));
        let got = not_blank(all.take(n));
        assert(all[n - 1] == (n, lines[n - 1]));
        assert forall|i: int| 0 <= i < n && text::trimmed(#[trigger] lines[i]).len() > 0 implies
            got.contains((i + 1, lines[i])) by {
            if i < n - 1 {
                assert(before.contains((i + 1, lines[i])));
                let x = choose|x: int| 0 <= x < before.len() && before[x] == (i + 1, lines[i]);
                assert(got[x] == (i + 1, lines[i]));
            } else {
                assert(got[got.len() - 1] == (i + 1, lines[i]));
            }
        }
    }
}


/// The view of a record is what each of its fields holds, and views of records are
/// those of each record, in turn.
pub proof fn a_view_holds_every_field(record: Record, records: Seq<Record>)
    ensures
        record@.unit == record.unit@,
        record@.nanos == record.nanos,
        record@.runner == record.runner@,
        record@.outcome == record.outcome@,
        record@.sha == record.sha@,
        record@.run == record.run@,
        record_views(records).len() == records.len(),
        forall|i: int|
            0 <= i < records.len() ==> #[trigger] record_views(records)[i] == records[i]@,
{
}


} // verus!
