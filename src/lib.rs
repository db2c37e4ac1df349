//! Command history analysis: a parser for shell history logs in several
//! hand-written formats, and a statistics engine over the parsed entries
//! (frequency rankings, hourly and weekly patterns, trends), with the
//! decisions of the interactive screens that show them.

pub mod calendar;
pub mod cli;
pub mod detail;
pub mod history;
pub mod layout;
pub mod rank;
pub mod stats;
pub mod text;
pub mod viewer;
