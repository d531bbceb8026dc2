//! The solver contract and the solution that every solver returns.

use vstd::prelude::*;
use crate::maze::Maze;
use crate::node::{Node, Point};
use crate::algorithms::a_star::AStar;
use crate::algorithms::breadth_first::BreadthFirst;
use crate::algorithms::depth_first::DepthFirst;
use crate::algorithms::dijkstra::Dijkstra;
use crate::algorithms::left_turn::LeftTurn;

pub mod book;
pub mod uninformed;
pub mod best_first;
pub mod depth_first;
pub mod breadth_first;
pub mod dijkstra;
pub mod a_star;
pub mod left_turn;

verus! {

/// The outcome of a search: the route that was found, from the exit back to
/// the entrance, and the number of nodes the search took from its frontier.
#[derive(Clone, Debug)]
pub struct Solution<'a> {
    pub decisions: usize,
    pub length: usize,
    pub path: Vec<&'a Node>,
}

/// The coordinates of the nodes of `path`, in order.
pub open spec fn points_of(path: Seq<&Node>) -> Seq<Point> {
    Seq::new(path.len(), |i: int| path[i].point)
}

/// What a search hands back, reduced to plain values: the number of
/// decisions and the coordinates of the route, or nothing.
pub open spec fn summary(r: Option<Solution>) -> Option<(nat, Seq<Point>)> {
    match r {
        Some(s) => Some((s.decisions as nat, s.points())),
        None => None,
    }
}

/// An edge leads to the node at position `i` of `path` from the one after it.
pub open spec fn hop_back(maze: &Maze, path: Seq<&Node>, i: int) -> bool {
    maze.linked(path[i + 1].point, path[i].point)
}

/// `path` is a route through `maze`: it holds nodes of the maze, begins at
/// the exit, ends at the entrance, visits no cell twice, and an edge leads to
/// each of its nodes from the one after it.
pub open spec fn is_route(maze: &Maze, path: Seq<&Node>) -> bool {
    &&& path.len() > 0
    &&& path[0].point == maze.exit
    &&& path.last().point == maze.start
    &&& forall|i: int|
        0 <= i < path.len() ==> {
            &&& maze.contains((#[trigger] path[i]).point)
            &&& *path[i] == maze.node_at(path[i].point)
        }
    &&& forall|i: int| 0 <= i < path.len() - 1 ==> #[trigger] hop_back(maze, path, i)
    &&& forall|i: int, j: int|
        0 <= i < j < path.len() ==> (#[trigger] path[i]).point != (#[trigger] path[j]).point
}

impl<'a> Solution<'a> {
    /// The coordinates of the route, in the order of `path`.
    pub open spec fn points(&self) -> Seq<Point> {
        points_of(self.path@)
    }

    /// The solution answers `maze`: its path is a route from the exit back to
    /// the entrance, `length` counts the nodes of the path, and the search
    /// took at least that many nodes from its frontier, each at most once.
    pub open spec fn wf(&self, maze: &Maze) -> bool {
        &&& is_route(maze, self.path@)
        &&& self.length == self.path@.len()
        &&& 1 <= self.length <= self.decisions <= maze.cell_count()
    }

    /// No walk from the entrance to the exit has fewer cells than the route.
    pub open spec fn shortest(&self, maze: &Maze) -> bool {
        maze.no_shorter(maze.exit, self.path@.len())
    }

    /// The search took from its frontier, besides the exit, only cells that
    /// lie nearer to the entrance than the exit does.
    pub open spec fn frugal(&self, maze: &Maze) -> bool {
        self.decisions <= maze.within((self.length - 1) as nat).len() + 1
    }

    /// The search took from its frontier, besides the exit, every cell that
    /// lies nearer to the entrance than the exit does.
    pub open spec fn thorough(&self, maze: &Maze) -> bool {
        maze.within((self.length - 1) as nat).len() + 1 <= self.decisions
    }

    /// Puts a route and its decision count together.
    pub fn new(decisions: usize, path: Vec<&'a Node>) -> (s: Self)
        ensures
            s.decisions == decisions,
            s.length == path@.len(),
            s.path@ == path@,
    {
        let length = path.len();
        Solution { decisions, length, path }
    }

    /// Read from the entrance to the exit, the route is a walk of the maze.
    pub proof fn lemma_route_is_walk(&self, maze: &Maze)
        requires
            self.wf(maze),
        ensures
            maze.joins(self.points().reverse(), maze.start, maze.exit),
            self.points().reverse().len() == self.length,
            maze.solvable(),
    {
        let pts = self.points();
        let w = pts.reverse();
        let n = pts.len() as int;
        assert forall|i: int| 0 <= i < w.len() implies maze.contains(#[trigger] w[i]) by {
            assert(w[i] == self.path@[n - 1 - i].point);
        }
        assert forall|i: int| 0 <= i < w.len() - 1 implies #[trigger] maze.hop(w, i) by {
            assert(hop_back(maze, self.path@, n - 2 - i));
            assert(w[i] == pts[n - 1 - i]);
            assert(w[i + 1] == pts[n - 2 - i]);
        }
        assert(w[0] == pts[n - 1]);
        assert(w.last() == pts[0]);
    }
}

/// A strategy that searches a maze for a route from the entrance to the exit.
pub trait Solver {
    /// What the strategy makes of `maze`: the number of decisions it takes
    /// and the coordinates of the route it finds, from the exit back to the
    /// entrance, or nothing.
    spec fn outcome(maze: &Maze) -> Option<(nat, Seq<Point>)>;

    /// Searches `maze`. A solution is returned exactly when some walk leads
    /// from the entrance to the exit, and it then answers the maze. What is
    /// returned depends on the maze alone.
    fn solve<'a>(maze: &'a Maze) -> (r: Option<Solution<'a>>)
        requires
            maze.wf(),
        ensures
            r is Some <==> maze.solvable(),
            r matches Some(s) ==> s.wf(maze),
            summary(r) == Self::outcome(maze),
    ;
}

/// The algorithms a user can choose from.
#[derive(Clone, Copy, Debug, PartialEq, Eq, Structural)]
pub enum Algorithm {
    LeftTurn,
    Dijkstra,
    AStar,
    BreadthFirst,
    DepthFirst,
}

impl Algorithm {
    /// What the chosen algorithm makes of `maze`.
    pub open spec fn outcome(self, maze: &Maze) -> Option<(nat, Seq<Point>)> {
        match self {
            Algorithm::LeftTurn => LeftTurn::outcome(maze),
            Algorithm::Dijkstra => Dijkstra::outcome(maze),
            Algorithm::AStar => AStar::outcome(maze),
            Algorithm::BreadthFirst => BreadthFirst::outcome(maze),
            Algorithm::DepthFirst => DepthFirst::outcome(maze),
        }
    }

    /// The chosen algorithm returns a route that is as short as any walk
    /// from the entrance to the exit.
    pub open spec fn finds_shortest(self) -> bool {
        self is Dijkstra || self is AStar || self is BreadthFirst
    }

    /// Searches `maze` with the chosen algorithm.
    pub fn solve<'a>(self, maze: &'a Maze) -> (r: Option<Solution<'a>>)
        requires
            maze.wf(),
        ensures
            r is Some <==> maze.solvable(),
            r matches Some(s) ==> s.wf(maze) && (self.finds_shortest() ==> s.shortest(maze)),
            summary(r) == self.outcome(maze),
    {
        match self {
            Algorithm::LeftTurn => LeftTurn::solve(maze),
            Algorithm::Dijkstra => Dijkstra::solve(maze),
            Algorithm::AStar => AStar::solve(maze),
            Algorithm::BreadthFirst => BreadthFirst::solve(maze),
            Algorithm::DepthFirst => DepthFirst::solve(maze),
        }
    }
}

/// Two runs of one solver on one maze take the same number of decisions and
/// find the same route.
pub proof fn lemma_solver_is_deterministic<S: Solver>(
    maze: &Maze,
    first: Option<Solution>,
    second: Option<Solution>,
)
    requires
        summary(first) == S::outcome(maze),
        summary(second) == S::outcome(maze),
    ensures
        first is Some <==> second is Some,
        first is Some ==> first->0.decisions == second->0.decisions && first->0.points()
            == second->0.points(),
{
}

/// A frugal search for a shortest route takes no more decisions than a
/// thorough one.
pub proof fn lemma_frugal_takes_no_more(maze: &Maze, frugal: Solution, thorough: Solution)
    requires
        frugal.wf(maze),
        frugal.shortest(maze),
        frugal.frugal(maze),
        thorough.wf(maze),
        thorough.shortest(maze),
        thorough.thorough(maze),
    ensures
        frugal.length == thorough.length,
        frugal.decisions <= thorough.decisions,
{
    lemma_shortest_routes_agree(maze, frugal, thorough);
}

/// Two shortest routes through one maze have the same number of cells.
pub proof fn lemma_shortest_routes_agree(maze: &Maze, first: Solution, second: Solution)
    requires
        first.wf(maze),
        first.shortest(maze),
        second.wf(maze),
        second.shortest(maze),
    ensures
        first.length == second.length,
{
    lemma_no_route_is_shorter(maze, first, second);
    lemma_no_route_is_shorter(maze, second, first);
}

/// No route through a maze has fewer cells than a shortest one.
pub proof fn lemma_no_route_is_shorter(maze: &Maze, shortest: Solution, other: Solution)
    requires
        shortest.wf(maze),
        shortest.shortest(maze),
        other.wf(maze),
    ensures
        shortest.length <= other.length,
{
    other.lemma_route_is_walk(maze);
}

} // verus!
