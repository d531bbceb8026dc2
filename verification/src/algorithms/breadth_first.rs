//! Breadth-first search.

use vstd::prelude::*;
use crate::algorithms::uninformed::{explore, finished};
use crate::algorithms::{Solution, Solver};
use crate::maze::Maze;
use crate::node::Point;

verus! {

/// The breadth-first solver: the frontier is a queue, so cells are taken in
/// the order of their distance from the entrance.
pub struct BreadthFirst;

impl Solver for BreadthFirst {
    open spec fn outcome(maze: &Maze) -> Option<(nat, Seq<Point>)> {
        finished(maze, false).answer(maze)
    }

    /// The route that is returned has as few cells as any walk from the
    /// entrance to the exit.
    fn solve<'a>(maze: &'a Maze) -> (r: Option<Solution<'a>>)
        ensures
            r matches Some(s) ==> s.shortest(maze),
    {
        explore(maze, false)
    }
}

} // verus!
