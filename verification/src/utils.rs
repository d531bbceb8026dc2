//! Turning the choices of the command line into an algorithm.

use vstd::prelude::*;
use crate::algorithms::Algorithm;
use crate::cli::Cli;

verus! {

/// The algorithm that a command line asks for: that of the first switch
/// that is set, in the order Dijkstra, A*, left turn, breadth first, depth
/// first; none if no switch is set.
pub open spec fn chosen(cli: &Cli) -> Option<Algorithm> {
    if cli.dijkstra {
        Some(Algorithm::Dijkstra)
    } else if cli.a_star {
        Some(Algorithm::AStar)
    } else if cli.left_turn {
        Some(Algorithm::LeftTurn)
    } else if cli.breadth_first {
        Some(Algorithm::BreadthFirst)
    } else if cli.depth_first {
        Some(Algorithm::DepthFirst)
    } else {
        None
    }
}

/// Picks the algorithm that the command line asks for.
pub fn get_algorithm(cli: &Cli) -> (algorithm: Option<Algorithm>)
    ensures
        algorithm == chosen(cli),
{
    if cli.dijkstra {
        Some(Algorithm::Dijkstra)
    } else if cli.a_star {
        Some(Algorithm::AStar)
    } else if cli.left_turn {
        Some(Algorithm::LeftTurn)
    } else if cli.breadth_first {
        Some(Algorithm::BreadthFirst)
    } else if cli.depth_first {
        Some(Algorithm::DepthFirst)
    } else {
        None
    }
}

} // verus!
