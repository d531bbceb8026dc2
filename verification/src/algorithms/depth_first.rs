//! Depth-first search with an explicit stack.

use vstd::prelude::*;
use crate::algorithms::uninformed::{explore, finished};
use crate::algorithms::{Solution, Solver};
use crate::maze::Maze;
use crate::node::Point;

verus! {

/// The depth-first solver: the frontier is a stack, so the search follows
/// the cell it discovered last.
pub struct DepthFirst;

impl Solver for DepthFirst {
    open spec fn outcome(maze: &Maze) -> Option<(nat, Seq<Point>)> {
        finished(maze, true).answer(maze)
    }

    fn solve<'a>(maze: &'a Maze) -> (r: Option<Solution<'a>>) {
        explore(maze, true)
    }
}

} // verus!
