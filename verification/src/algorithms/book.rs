//! The ghost record that the solvers keep of a search, and the walk back
//! along the predecessor trace that turns it into a route.

use vstd::prelude::*;
use crate::algorithms::{hop_back, is_route, points_of};
use crate::maze::Maze;
use crate::node::{Node, Point};

verus! {

/// The state of a search. `seen`, `trace`, `frontier`, `decisions` and
/// `found` mirror what the solver holds in memory; the rest exists only in
/// proofs. All sequences but `frontier` are indexed by the linear index of a
/// cell.
pub struct Book {
    /// Whether a cell has been discovered.
    pub seen: Seq<bool>,
    /// The cell from which a cell was discovered.
    pub trace: Seq<Option<usize>>,
    /// The discovered cells that wait to be taken.
    pub frontier: Seq<usize>,
    /// How many cells have been taken from the frontier.
    pub decisions: nat,
    /// Whether the exit has been taken from the frontier.
    pub found: bool,
    /// The value of `decisions` at which a cell was taken; zero before that.
    pub rank: Seq<nat>,
    /// The number of edges on the traced route from the entrance to a cell.
    pub depth: Seq<nat>,
    /// The depth of the cell that was taken last.
    pub level: nat,
}

impl Book {
    /// All per-cell sequences cover the grid of `n` cells.
    pub open spec fn sized(self, n: int) -> bool {
        &&& self.seen.len() == n
        &&& self.trace.len() == n
        &&& self.rank.len() == n
        &&& self.depth.len() == n
    }

    /// Cell `k` has been taken from the frontier.
    pub open spec fn taken(self, k: int) -> bool {
        0 <= k < self.rank.len() && self.rank[k] > 0
    }

    /// The set of cells that have been taken from the frontier.
    pub open spec fn popped(self) -> Set<usize> {
        Set::new(|k: usize| self.taken(k as int))
    }

    /// The trace of cell `k` is sound: `k` is a cell of the maze; the entrance
    /// has no predecessor and depth zero; any other cell was discovered over
    /// an edge from a cell that was taken earlier and lies one step nearer to
    /// the entrance.
    pub open spec fn traced(self, maze: &Maze, k: int) -> bool {
        &&& maze.data@.contains_key(k as usize)
        &&& self.linked_back(maze, k)
    }

    /// The predecessor of cell `k` is sound.
    pub open spec fn linked_back(self, maze: &Maze, k: int) -> bool {
        if k == maze.index_of(maze.start) {
            self.trace[k] is None && self.depth[k] == 0
        } else {
            &&& self.trace[k] matches Some(p)
            &&& self.taken(p as int)
            &&& p != maze.index_of(maze.exit)
            &&& self.rank[k] > 0 ==> self.rank[p as int] < self.rank[k]
            &&& maze.linked(maze.spot(p as int), maze.spot(k))
            &&& self.depth[k] == self.depth[p as int] + 1
        }
    }

    /// The coordinates of the cells from `k` back along the trace, for as
    /// long as each predecessor was taken before the cell it leads to.
    pub open spec fn trail(self, maze: &Maze, k: int) -> Seq<Point>
        decreases self.rank[k],
    {
        if 0 <= k < self.rank.len() && self.trace[k] is Some && self.trace[k]->0 < self.rank.len()
            && self.rank[self.trace[k]->0 as int] < self.rank[k] {
            seq![maze.spot(k)] + self.trail(maze, self.trace[k]->0 as int)
        } else {
            seq![maze.spot(k)]
        }
    }

    /// What a finished search hands back: the number of decisions and the
    /// trail from the exit, if the exit was taken.
    pub open spec fn answer(self, maze: &Maze) -> Option<(nat, Seq<Point>)> {
        if self.found {
            Some((self.decisions, self.trail(maze, maze.index_of(maze.exit))))
        } else {
            None
        }
    }

    /// Every cell that has been taken is a cell of the maze with a sound trace.
    pub open spec fn traceable(self, maze: &Maze) -> bool {
        &&& self.sized(maze.width * maze.height)
        &&& forall|k: int|
            0 <= k < self.rank.len() && self.rank[k] > 0 ==> #[trigger] self.traced(maze, k)
    }
}

/// The record of a search that has discovered the entrance and nothing else.
pub open spec fn opening(maze: &Maze) -> Book {
    let n = (maze.width * maze.height) as nat;
    let s = maze.index_of(maze.start);
    Book {
        seen: Seq::new(n, |k: int| k == s),
        trace: Seq::new(n, |k: int| None),
        frontier: seq![s as usize],
        decisions: 0,
        found: false,
        rank: Seq::new(n, |k: int| 0nat),
        depth: Seq::new(n, |k: int| 0nat),
        level: 0,
    }
}

/// What `retrace` has gathered after some steps: `path` holds the nodes from
/// the exit back to the last one added, each the predecessor of the one before.
pub open spec fn partial_route(maze: &Maze, book: Book, goal: int, path: Seq<&Node>) -> bool {
    &&& forall|i: int|
        0 <= i < path.len() ==> {
            let k = maze.index_of((#[trigger] path[i]).point);
            &&& book.taken(k)
            &&& maze.data@.contains_key(k as usize)
            &&& *path[i] == maze.data@[k as usize]
            &&& book.depth[k] + i == book.depth[goal]
        }
    &&& forall|i: int| 0 <= i < path.len() - 1 ==> #[trigger] hop_back(maze, path, i)
    &&& path.len() > 0 ==> path[0].point == maze.exit
}

/// What `retrace` gathers is a route of the maze.
pub proof fn lemma_route(maze: &Maze, book: Book, path: Seq<&Node>)
    requires
        maze.wf(),
        partial_route(maze, book, maze.index_of(maze.exit), path),
        path.len() > 0,
        path.last().point == maze.start,
    ensures
        is_route(maze, path),
{
    assert forall|i: int| 0 <= i < path.len() implies {
        &&& maze.contains((#[trigger] path[i]).point)
        &&& *path[i] == maze.node_at(path[i].point)
    } by {
        let k = maze.index_of(path[i].point);
        maze.lemma_key_of_spot(k as usize);
    }
}

/// Walks the predecessor trace from the exit back to the entrance and
/// gathers the nodes on the way.
pub(crate) fn retrace<'a>(
    maze: &'a Maze,
    trace: &Vec<Option<usize>>,
    Ghost(book): Ghost<Book>,
) -> (path: Vec<&'a Node>)
    requires
        maze.wf(),
        book.traceable(maze),
        book.trace == trace@,
        book.taken(maze.index_of(maze.exit)),
    ensures
        partial_route(maze, book, maze.index_of(maze.exit), path@),
        path@.len() > 0,
        path@.last().point == maze.start,
        path@.len() == book.depth[maze.index_of(maze.exit)] + 1,
        path@.len() <= book.rank[maze.index_of(maze.exit)],
        points_of(path@) == book.trail(maze, maze.index_of(maze.exit)),
{
    let goal = maze.index(&maze.exit);
    let mut path: Vec<&'a Node> = Vec::new();
    let mut cur = goal;
    let mut more = true;
    while more
        invariant
            maze.wf(),
            book.traceable(maze),
            book.trace == trace@,
            goal == maze.index_of(maze.exit),
            partial_route(maze, book, goal as int, path@),
            more ==> book.taken(cur as int),
            more ==> path@.len() + book.rank[cur as int] <= book.rank[goal as int],
            more ==> path@.len() + book.depth[cur as int] == book.depth[goal as int],
            more && path@.len() > 0 ==> maze.linked(maze.spot(cur as int), path@.last().point),
            more && path@.len() == 0 ==> cur == goal,
            !more ==> path@.len() > 0 && path@.last().point == maze.start,
            !more ==> path@.len() <= book.rank[goal as int],
            !more ==> path@.len() == book.depth[goal as int] + 1,
            more ==> points_of(path@) + book.trail(maze, cur as int) == book.trail(
                maze,
                goal as int,
            ),
            !more ==> points_of(path@) == book.trail(maze, goal as int),
        decreases
            if more {
                book.rank[cur as int]
            } else {
                0
            },
    {
        proof {
            assert(book.rank[cur as int] > 0);
            assert(book.traced(maze, cur as int));
            maze.lemma_key_of_spot(cur);
        }
        let ghost before = path@;
        match maze.data.get(&cur) {
            Some(node) => {
                path.push(node);
            },
            None => {
                assert(false);
            },
        }
        proof {
            assert(path@ == before.push(path@.last()));
            assert(path@.last().point == maze.spot(cur as int));
            if before.len() == 0 {
                maze.lemma_index_in_range(maze.exit);
                maze.lemma_index_injective(maze.spot(cur as int), maze.exit);
            }
            assert forall|i: int| 0 <= i < path@.len() implies {
                let k = maze.index_of((#[trigger] path@[i]).point);
                &&& book.taken(k)
                &&& maze.data@.contains_key(k as usize)
                &&& *path@[i] == maze.data@[k as usize]
                &&& book.depth[k] + i == book.depth[goal as int]
            } by {
                if i < before.len() {
                    assert(path@[i] == before[i]);
                }
            }
            assert forall|i: int| 0 <= i < path@.len() - 1 implies #[trigger] hop_back(
                maze,
                path@,
                i,
            ) by {
                assert(path@[i] == before[i]);
                if i + 1 < before.len() {
                    assert(path@[i + 1] == before[i + 1]);
                    assert(hop_back(maze, before, i));
                }
            }
        }
        proof {
            assert(points_of(path@) == points_of(before).push(maze.spot(cur as int)));
        }
        match trace[cur] {
            Some(p) => {
                proof {
                    assert(book.traced(maze, cur as int));
                    assert(book.rank[p as int] > 0);
                    assert(points_of(path@) + book.trail(maze, p as int) == points_of(before) + (
                    seq![maze.spot(cur as int)] + book.trail(maze, p as int)));
                }
                cur = p;
            },
            None => {
                proof {
                    assert(book.traced(maze, cur as int));
                    maze.lemma_index_in_range(maze.start);
                    assert(maze.node_ok(cur));
                    maze.lemma_index_injective(maze.spot(cur as int), maze.start);
                    assert(points_of(path@) == points_of(before) + seq![maze.spot(cur as int)]);
                }
                more = false;
            },
        }
    }
    path
}

} // verus!
