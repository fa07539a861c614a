//! Splits a test suite across the jobs of a CI matrix.
//!
//! `plan` turns the units of a suite and their recorded durations into a shard
//! count and an assignment, `run` says what one shard has to do, `timings` keeps
//! the recorded durations, `recipe` and `hook` deal with the shell snippets that
//! list and run units. `packing` states how good the assignment is.

pub mod claim;
pub mod hook;
pub mod json;
pub mod median;
pub mod order;
pub mod packing;
pub mod plan;
pub mod recipe;
pub mod run;
pub mod sums;
pub mod text;
pub mod timings;
