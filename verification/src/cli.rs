//! The choices a user makes on the command line, as plain values.

use vstd::prelude::*;

verus! {

/// The command line after parsing: the image to read, where to write the
/// solved image, one switch for each algorithm, and whether to print
/// statistics.
#[derive(Clone, Debug, PartialEq, Eq)]
pub struct Cli {
    pub filename: Option<String>,
    pub output: Option<String>,
    pub dijkstra: bool,
    pub a_star: bool,
    pub left_turn: bool,
    pub breadth_first: bool,
    pub depth_first: bool,
    pub statistics: bool,
}

} // verus!
