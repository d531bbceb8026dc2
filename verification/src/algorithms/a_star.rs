//! The A* algorithm.

use vstd::prelude::*;
use crate::algorithms::best_first::{finished, search};
use crate::algorithms::{Solution, Solver};
use crate::maze::Maze;
use crate::node::Point;

verus! {

/// The A* solver: the cell taken next is the one for which the cost from the
/// entrance and the Manhattan distance to the exit together are least.
pub struct AStar;

impl Solver for AStar {
    open spec fn outcome(maze: &Maze) -> Option<(nat, Seq<Point>)> {
        finished(maze, true).answer(maze)
    }

    /// The route that is returned has as few cells as any walk from the
    /// entrance to the exit.
    fn solve<'a>(maze: &'a Maze) -> (r: Option<Solution<'a>>)
        ensures
            r matches Some(s) ==> s.shortest(maze),
            r matches Some(s) ==> s.frugal(maze),
    {
        search(maze, true)
    }
}

} // verus!
