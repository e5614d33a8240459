//! The command line: which pages to read.
use vstd::prelude::*;

verus! {

/// The parsed command line.
#[derive(Debug, Clone, Copy, PartialEq, Eq, Structural)]
pub struct Args {
    pub command: Command,
}

/// What to read: the graded races of a year (`0` for the current year), the
/// entry lists of the coming races, or the results of the latest ones.
#[derive(Debug, Clone, Copy, PartialEq, Eq, Structural)]
pub enum Command {
    GradeRace { year: u16 },
    Wakuban,
    Result,
}

} // verus!
