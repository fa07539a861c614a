# shard-tests

Split any test suite across the jobs of a CI matrix: timing-balanced,
language-agnostic, no server and no account.

The library under `src/` is verified with Verus. It turns what an enumerate hook
printed into units, chooses a shard count, packs the units into shards, keeps the
store of recorded durations, looks up recipes, and says what a shard has to run.
`app/` is the command line program around it: arguments, files, environment and
shells.

Durations are whole nanoseconds in the library, and estimates half nanoseconds,
since the median of an even number of durations may lie between two of them.
Sums, comparisons and medians are therefore exact; the program converts from and
to seconds where it reads and writes them.

| module | what it holds |
| --- | --- |
| `plan` | units, shard count, assignment, step outputs |
| `packing` | what the greedy packing is and how near it is to the best one |
| `order` | the longest-first order |
| `run` | one shard's share of a plan |
| `timings` | the store of durations: reading, appending, reducing, compacting |
| `median` | the median of a list of durations |
| `recipe` | recipes and the table of those that ship |
| `hook` | how a snippet is run and what its end means |
| `claim` | claiming, which is not offered yet |
| `text`, `json`, `sums` | lines, trimming, decimals; JSON text; finite sums |
