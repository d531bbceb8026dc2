//! Dijkstra's algorithm.

use vstd::prelude::*;
use crate::algorithms::best_first::{finished, search};
use crate::algorithms::{Solution, Solver};
use crate::maze::Maze;
use crate::node::Point;

verus! {

/// Dijkstra's solver: the cell taken next is the one that is reached at the
/// least cost from the entrance, every edge costing one.
pub struct Dijkstra;

impl Solver for Dijkstra {
    open spec fn outcome(maze: &Maze) -> Option<(nat, Seq<Point>)> {
        finished(maze, false).answer(maze)
    }

    /// The route that is returned has as few cells as any walk from the
    /// entrance to the exit.
    fn solve<'a>(maze: &'a Maze) -> (r: Option<Solution<'a>>)
        ensures
            r matches Some(s) ==> s.shortest(maze),
            r matches Some(s) ==> s.thorough(maze),
    {
        search(maze, false)
    }
}

} // verus!
