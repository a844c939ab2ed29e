//! Parsing, aggregation and ranking of experiment-run logs.
//!
//! Each log line names a configuration (population size and number of
//! generations), a run number and an outcome: either a success marker or a
//! run time. Run times are single-precision floats; the library carries them
//! as their IEEE-754 bit patterns (`u32`) and orders them with
//! [`ranking::float_order_key`].
mod record;
pub mod parse;
pub mod aggregate;
pub mod ranking;

pub use record::{ConfigKey, Outcome, Record};
pub use parse::{parse_line, runtime_from_scan, ParseError};
pub use aggregate::{Data, RunResult};
pub use ranking::{median_of_ranked, median_pick, order_key, rank, MedianPick};
