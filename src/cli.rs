//! The subcommands of the program.
use vstd::prelude::*;

verus! {

/// What the program was asked to show.
#[derive(Debug, Clone, Copy, PartialEq, Eq)]
pub enum Commands {
    /// The command history in an interactive viewer.
    History,
    /// Summary statistics about command usage.
    Stats,
    /// Today's figures.
    Today,
}

/// The parsed command line.
#[derive(Debug, Clone, Copy, PartialEq, Eq)]
pub struct Cli {
    pub command: Commands,
}

} // verus!
