//! The wall follower: at every cell it turns left if it can, else goes
//! straight, else turns right, and walks back out of a dead end.
//!
//! The walker marks the cells it has entered in a table that covers every
//! index of the grid, so the memory in use grows with `width * height`. It
//! enters no cell twice; in a maze without loops that is the walk of a hand
//! kept on the left wall, and in a maze with loops it keeps the walk finite.

use vstd::prelude::*;
use vstd::set_lib::lemma_len_subset;
use crate::algorithms::book::{opening, Book};
use crate::algorithms::{hop_back, is_route, Solution, Solver};
use crate::maze::Maze;
use crate::node::{Direction, Node, Point};

verus! {

/// The wall-following solver. It keeps the way it came as a stack of cells
/// and never enters a cell twice, so the walk ends in every maze: at the exit
/// if a walk leads there, else back at the entrance with nowhere left to go.
pub struct LeftTurn;

/// The walker as it stands on the last cell of its way.
pub struct Walker {
    /// The record of the walk; `frontier` holds the way from the entrance to
    /// the cell the walker stands on.
    pub book: Book,
    /// The direction in which each cell of the way was entered.
    pub headings: Seq<Direction>,
    /// The direction the walker faces.
    pub facing: Direction,
}

/// The position of the first edge, among the first `n` of cell `cur`, that
/// leaves in direction `d` for a cell that has not been seen.
pub open spec fn open_edge(maze: &Maze, seen: Seq<bool>, cur: int, d: Direction, n: nat) -> Option<
    int,
>
    decreases n,
{
    if n == 0 {
        None
    } else {
        match open_edge(maze, seen, cur, d, (n - 1) as nat) {
            Some(i) => Some(i),
            None => if maze.edges(cur)[n - 1].0 == d && !seen[maze.target(cur, n - 1)] {
                Some(n - 1)
            } else {
                None
            },
        }
    }
}

/// The edge that a walker on cell `cur` takes: the first open edge to its
/// left, else straight on, else to its right, else behind it.
pub open spec fn turn(maze: &Maze, seen: Seq<bool>, cur: int, facing: Direction) -> Option<int> {
    let n = maze.edges(cur).len();
    if open_edge(maze, seen, cur, facing.left(), n) is Some {
        open_edge(maze, seen, cur, facing.left(), n)
    } else if open_edge(maze, seen, cur, facing, n) is Some {
        open_edge(maze, seen, cur, facing, n)
    } else if open_edge(maze, seen, cur, facing.right(), n) is Some {
        open_edge(maze, seen, cur, facing.right(), n)
    } else {
        open_edge(maze, seen, cur, facing.reverse(), n)
    }
}

/// What `open_edge` finds is an open edge in the direction asked for; when
/// it finds none, every edge in that direction leads to a cell that was seen.
pub proof fn lemma_open_edge(maze: &Maze, seen: Seq<bool>, cur: int, d: Direction, n: nat)
    ensures
        open_edge(maze, seen, cur, d, n) matches Some(i) ==> 0 <= i < n && maze.edges(cur)[i].0 == d
            && !seen[maze.target(cur, i)],
        open_edge(maze, seen, cur, d, n) is None ==> forall|i: int|
            0 <= i < n && (#[trigger] maze.edges(cur)[i]).0 == d ==> seen[maze.target(cur, i)],
    decreases n,
{
    if n > 0 {
        lemma_open_edge(maze, seen, cur, d, (n - 1) as nat);
    }
}

/// The edge that `turn` names is open; when it names none, every edge of
/// the cell leads to a cell that was seen.
pub proof fn lemma_turn(maze: &Maze, seen: Seq<bool>, cur: int, facing: Direction)
    ensures
        turn(maze, seen, cur, facing) matches Some(i) ==> 0 <= i < maze.edges(cur).len()
            && !seen[maze.target(cur, i)],
        turn(maze, seen, cur, facing) is None ==> forall|i: int|
            0 <= i < maze.edges(cur).len() ==> seen[#[trigger] maze.target(cur, i)],
{
    let n = maze.edges(cur).len();
    lemma_open_edge(maze, seen, cur, facing.left(), n);
    lemma_open_edge(maze, seen, cur, facing, n);
    lemma_open_edge(maze, seen, cur, facing.right(), n);
    lemma_open_edge(maze, seen, cur, facing.reverse(), n);
    if turn(maze, seen, cur, facing) is None {
        assert forall|i: int| 0 <= i < n implies seen[#[trigger] maze.target(cur, i)] by {
            let d = maze.edges(cur)[i].0;
            assert(d == facing.left() || d == facing || d == facing.right() || d
                == facing.reverse());
        }
    }
}

/// The walker at the entrance, facing down into the maze.
pub open spec fn setting_out(maze: &Maze) -> Walker {
    let first = opening(maze);
    Walker {
        book: Book {
            decisions: 1,
            rank: first.rank.update(maze.index_of(maze.start), 1),
            found: maze.index_of(maze.start) == maze.index_of(maze.exit),
            ..first
        },
        headings: seq![Direction::Down],
        facing: Direction::Down,
    }
}

/// The walker after it has stepped over edge `i` of the cell it stood on.
pub open spec fn step(maze: &Maze, walker: Walker, i: int) -> Walker {
    let cur = walker.book.frontier.last() as int;
    let k = maze.target(cur, i);
    let d = maze.edges(cur)[i].0;
    Walker {
        book: Book {
            seen: walker.book.seen.update(k, true),
            frontier: walker.book.frontier.push(k as usize),
            decisions: walker.book.decisions + 1,
            rank: walker.book.rank.update(k, walker.book.decisions + 1),
            found: k == maze.index_of(maze.exit),
            ..walker.book
        },
        headings: walker.headings.push(d),
        facing: d,
    }
}

/// The walker after it has walked back out of the cell it stood on.
pub open spec fn retreat(walker: Walker) -> Walker {
    Walker {
        book: Book { frontier: walker.book.frontier.drop_last(), ..walker.book },
        headings: walker.headings.drop_last(),
        facing: walker.headings.last().reverse(),
    }
}

/// The walker after its next move: a step over the edge that `turn` names,
/// or a retreat when there is none.
pub open spec fn advance(maze: &Maze, walker: Walker) -> Walker {
    let cur = walker.book.frontier.last() as int;
    match turn(maze, walker.book.seen, cur, walker.facing) {
        Some(i) => step(maze, walker, i),
        None => retreat(walker),
    }
}

/// The walker after at most `moves` moves, stopping when it stands on the
/// exit or has walked back out of the entrance.
pub open spec fn run(maze: &Maze, walker: Walker, moves: nat) -> Walker
    decreases moves,
{
    if moves == 0 || walker.book.found || walker.book.frontier.len() == 0 {
        walker
    } else {
        run(maze, advance(maze, walker), (moves - 1) as nat)
    }
}

/// The walker at the end of its walk. Each cell is entered and left at most
/// once, so the walk takes no more than two moves for each cell.
pub open spec fn finished(maze: &Maze) -> Walker {
    run(maze, setting_out(maze), 2 * maze.cell_count())
}

/// What the walker hands back: the number of cells it entered and its way
/// read from the exit back to the entrance, if it stands on the exit.
pub open spec fn answer(maze: &Maze, walker: Walker) -> Option<(nat, Seq<Point>)> {
    let way = walker.book.frontier;
    if walker.book.found {
        Some(
            (
                walker.book.decisions,
                Seq::new(way.len(), |j: int| maze.spot(way[way.len() - 1 - j] as int)),
            ),
        )
    } else {
        None
    }
}

/// An edge leads from the cell at position `i` of the way to the next one.
pub open spec fn way_hop(maze: &Maze, book: Book, i: int) -> bool {
    maze.linked(maze.spot(book.frontier[i] as int), maze.spot(book.frontier[i + 1] as int))
}

/// What holds of the cell at position `i` of the way.
pub open spec fn way_ok(maze: &Maze, book: Book, i: int) -> bool {
    let k = book.frontier[i] as int;
    &&& k < maze.width * maze.height
    &&& book.seen[k]
    &&& i < book.rank[k]
}

/// Every edge of cell `k` leads to a cell that has been seen.
pub open spec fn closed(maze: &Maze, book: Book, k: int) -> bool {
    forall|e: int| 0 <= e < maze.edges(k).len() ==> book.seen[#[trigger] maze.target(k, e)]
}

/// What holds of a cell that has been seen: it is a cell of the maze, it
/// was counted, and it lies on the way or has no edge left to an unseen cell.
pub open spec fn visited_ok(maze: &Maze, book: Book, k: int) -> bool {
    &&& maze.data@.contains_key(k as usize)
    &&& 0 < book.rank[k] <= book.decisions
    &&& book.frontier.contains(k as usize) || closed(maze, book, k)
}

/// The cells of the way were entered one after the other.
pub open spec fn in_order(book: Book) -> bool {
    forall|i: int, j: int|
        0 <= i < j < book.frontier.len() ==> book.rank[(#[trigger] book.frontier[i]) as int]
            < book.rank[(#[trigger] book.frontier[j]) as int]
}

/// The invariant of the walk.
pub open spec fn inv(maze: &Maze, walker: Walker) -> bool {
    let n = maze.width * maze.height;
    let book = walker.book;
    &&& book.sized(n)
    &&& book.seen[maze.index_of(maze.start)]
    &&& walker.headings.len() == book.frontier.len()
    &&& book.frontier.len() > 0 ==> book.frontier[0] == maze.index_of(maze.start)
    &&& forall|k: int| 0 <= k < n ==> (#[trigger] book.seen[k] <==> book.rank[k] > 0)
    &&& forall|k: int| 0 <= k < n && book.seen[k] ==> #[trigger] visited_ok(maze, book, k)
    &&& forall|i: int| 0 <= i < book.frontier.len() ==> #[trigger] way_ok(maze, book, i)
    &&& forall|i: int| 0 <= i < book.frontier.len() - 1 ==> #[trigger] way_hop(maze, book, i)
    &&& in_order(book)
    &&& book.found <==> book.seen[maze.index_of(maze.exit)]
    &&& book.found ==> book.frontier.len() > 0 && book.frontier.last() == maze.index_of(maze.exit)
    &&& book.popped().finite()
    &&& book.popped().len() == book.decisions
    &&& 1 <= book.decisions <= maze.cell_count()
}

/// The walk begins in a state that meets the invariant.
pub proof fn lemma_setting_out(maze: &Maze)
    requires
        maze.wf(),
    ensures
        inv(maze, setting_out(maze)),
{
    let walker = setting_out(maze);
    let book = walker.book;
    let s = maze.index_of(maze.start);
    maze.lemma_spot_of_index(maze.start);
    maze.lemma_index_in_range(maze.exit);
    assert(book.frontier[0] == s);
    assert(book.frontier.contains(s as usize));
    assert(way_ok(maze, book, 0));
    assert(book.popped() =~= Set::<usize>::empty().insert(s as usize));
    assert(book.popped().subset_of(maze.data@.dom()));
    lemma_len_subset(book.popped(), maze.data@.dom());
}

/// A step over an open edge keeps the invariant.
pub proof fn lemma_step(maze: &Maze, walker: Walker, i: int)
    requires
        maze.wf(),
        inv(maze, walker),
        walker.book.frontier.len() > 0,
        !walker.book.found,
        0 <= i < maze.edges(walker.book.frontier.last() as int).len(),
        !walker.book.seen[maze.target(walker.book.frontier.last() as int, i)],
    ensures
        0 <= maze.target(walker.book.frontier.last() as int, i) < maze.width * maze.height,
        walker.book.decisions < maze.cell_count(),
        inv(maze, step(maze, walker, i)),
{
    let n = maze.width * maze.height;
    let book = walker.book;
    let top = book.frontier.len() - 1;
    let cur = book.frontier.last() as int;
    let k = maze.target(cur, i);
    let after = step(maze, walker, i).book;
    assert(way_ok(maze, book, top));
    assert(visited_ok(maze, book, cur));
    maze.lemma_key_of_spot(cur as usize);
    maze.lemma_index_in_range(maze.exit);
    maze.lemma_index_in_range(maze.start);
    assert(maze.contains(maze.edges(cur)[i].1));
    assert(after.frontier[top + 1] == k as usize);
    assert forall|j: int| 0 <= j < after.frontier.len() implies #[trigger] way_ok(
        maze,
        after,
        j,
    ) by {
        if j <= top {
            assert(after.frontier[j] == book.frontier[j]);
            assert(way_ok(maze, book, j));
        } else {
            assert(book.rank[cur] <= book.decisions);
        }
    }
    assert forall|j: int| 0 <= j < after.frontier.len() - 1 implies #[trigger] way_hop(
        maze,
        after,
        j,
    ) by {
        assert(after.frontier[j] == book.frontier[j]);
        if j < top {
            assert(after.frontier[j + 1] == book.frontier[j + 1]);
            assert(way_hop(maze, book, j));
        }
    }
    assert forall|j: int| 0 <= j < n && after.seen[j] implies #[trigger] visited_ok(
        maze,
        after,
        j,
    ) by {
        if j == k {
            assert(after.frontier.contains(k as usize));
        } else {
            assert(visited_ok(maze, book, j));
            if book.frontier.contains(j as usize) {
                let x = choose|x: int|
                    0 <= x < book.frontier.len() && book.frontier[x] == j as usize;
                assert(after.frontier[x] == j as usize);
            } else {
                maze.lemma_key_of_spot(j as usize);
                assert forall|e: int| 0 <= e < maze.edges(j).len() implies after.seen[
                #[trigger] maze.target(j, e)] by {
                    assert(book.seen[maze.target(j, e)]);
                }
            }
        }
    }
    assert(in_order(after)) by {
        assert forall|x: int, y: int| 0 <= x < y < after.frontier.len() implies after.rank[(
        #[trigger] after.frontier[x]) as int] < after.rank[(
        #[trigger] after.frontier[y]) as int] by {
            assert(way_ok(maze, book, x));
            assert(visited_ok(maze, book, book.frontier[x] as int));
            if y <= top {
                assert(way_ok(maze, book, y));
            }
        }
    }
    assert(after.popped() =~= book.popped().insert(k as usize));
    assert(!book.popped().contains(k as usize));
    assert(after.popped().subset_of(maze.data@.dom())) by {
        assert forall|j: usize| after.popped().contains(j) implies maze.data@.dom().contains(j) by {
            assert(after.seen[j as int]);
            assert(visited_ok(maze, after, j as int));
        }
    }
    lemma_len_subset(after.popped(), maze.data@.dom());
}

/// Walking back out of a cell that has no open edge keeps the invariant.
pub proof fn lemma_retreat(maze: &Maze, walker: Walker)
    requires
        maze.wf(),
        inv(maze, walker),
        walker.book.frontier.len() > 0,
        !walker.book.found,
        closed(maze, walker.book, walker.book.frontier.last() as int),
    ensures
        inv(maze, retreat(walker)),
{
    let n = maze.width * maze.height;
    let book = walker.book;
    let top = book.frontier.len() - 1;
    let cur = book.frontier.last() as int;
    let after = retreat(walker).book;
    maze.lemma_index_in_range(maze.exit);
    assert(after.popped() =~= book.popped());
    assert forall|j: int| 0 <= j < after.frontier.len() implies #[trigger] way_ok(
        maze,
        after,
        j,
    ) by {
        assert(after.frontier[j] == book.frontier[j]);
        assert(way_ok(maze, book, j));
    }
    assert forall|j: int| 0 <= j < after.frontier.len() - 1 implies #[trigger] way_hop(
        maze,
        after,
        j,
    ) by {
        assert(after.frontier[j] == book.frontier[j]);
        assert(after.frontier[j + 1] == book.frontier[j + 1]);
        assert(way_hop(maze, book, j));
    }
    assert forall|j: int| 0 <= j < n && after.seen[j] implies #[trigger] visited_ok(
        maze,
        after,
        j,
    ) by {
        assert(visited_ok(maze, book, j));
        if j != cur && book.frontier.contains(j as usize) {
            let x = choose|x: int| 0 <= x < book.frontier.len() && book.frontier[x] == j as usize;
            assert(after.frontier[x] == j as usize);
        }
    }
    assert(in_order(after)) by {
        assert forall|x: int, y: int| 0 <= x < y < after.frontier.len() implies after.rank[(
        #[trigger] after.frontier[x]) as int] < after.rank[(
        #[trigger] after.frontier[y]) as int] by {
            assert(after.frontier[x] == book.frontier[x]);
            assert(after.frontier[y] == book.frontier[y]);
        }
    }
}

/// When the walker is back at the entrance with nowhere left to go, every
/// cell of a walk that starts at the entrance has been seen.
proof fn lemma_walk_is_seen(maze: &Maze, walker: Walker, w: Seq<Point>, i: int)
    requires
        maze.wf(),
        inv(maze, walker),
        walker.book.frontier.len() == 0,
        maze.is_walk(w),
        w[0] == maze.start,
        0 <= i < w.len(),
    ensures
        walker.book.seen[maze.index_of(w[i])],
    decreases i,
{
    let book = walker.book;
    let k = maze.index_of(w[i]);
    assert(maze.contains(w[i]));
    maze.lemma_spot_of_index(w[i]);
    if i > 0 {
        lemma_walk_is_seen(maze, walker, w, i - 1);
        let p = maze.index_of(w[i - 1]);
        assert(maze.contains(w[i - 1]));
        maze.lemma_spot_of_index(w[i - 1]);
        assert(visited_ok(maze, book, p));
        if book.frontier.contains(p as usize) {
            let x = choose|x: int| 0 <= x < book.frontier.len() && book.frontier[x] == p as usize;
        }
        assert(maze.hop(w, i - 1));
        let e = choose|e: int|
            0 <= e < maze.node_at(w[i - 1]).children@.len() && (
            #[trigger] maze.node_at(w[i - 1]).children@[e]).1 == w[i];
        assert(maze.target(p, e) == k);
    }
}

/// A walker that is back at the entrance with nowhere left to go shows that
/// no walk leads from the entrance to the exit.
pub proof fn lemma_stranded(maze: &Maze, walker: Walker)
    requires
        maze.wf(),
        inv(maze, walker),
        !walker.book.found,
        walker.book.frontier.len() == 0,
    ensures
        !maze.solvable(),
{
    if maze.solvable() {
        let w = choose|w: Seq<Point>| maze.joins(w, maze.start, maze.exit);
        lemma_walk_is_seen(maze, walker, w, w.len() - 1);
    }
}

/// The way of a walker that stands on the exit, read backwards, is a route.
pub proof fn lemma_way_is_route(maze: &Maze, walker: Walker, path: Seq<&Node>)
    requires
        maze.wf(),
        inv(maze, walker),
        walker.book.found,
        path.len() == walker.book.frontier.len(),
        forall|j: int|
            0 <= j < path.len() ==> *(#[trigger] path[j]) == maze.data@[walker.book.frontier[
                path.len() - 1 - j]],
    ensures
        is_route(maze, path),
        path.len() <= walker.book.decisions,
{
    let book = walker.book;
    let len = path.len() as int;
    maze.lemma_spot_of_index(maze.exit);
    maze.lemma_spot_of_index(maze.start);
    assert(way_ok(maze, book, len - 1));
    assert(visited_ok(maze, book, book.frontier[len - 1] as int));
    assert forall|j: int| 0 <= j < len implies {
        &&& maze.contains((#[trigger] path[j]).point)
        &&& *path[j] == maze.node_at(path[j].point)
        &&& maze.index_of(path[j].point) == book.frontier[len - 1 - j]
    } by {
        let k = book.frontier[len - 1 - j];
        assert(way_ok(maze, book, len - 1 - j));
        assert(visited_ok(maze, book, k as int));
        maze.lemma_key_of_spot(k);
    }
    assert forall|j: int| 0 <= j < len - 1 implies #[trigger] hop_back(maze, path, j) by {
        assert(way_hop(maze, book, len - 2 - j));
        assert(path[j].point == maze.spot(book.frontier[len - 1 - j] as int));
        assert(path[j + 1].point == maze.spot(book.frontier[len - 2 - j] as int));
    }
    assert forall|i: int, j: int| 0 <= i < j < len implies (#[trigger] path[i]).point != (
    #[trigger] path[j]).point by {
        assert(maze.index_of(path[i].point) == book.frontier[len - 1 - i]);
        assert(maze.index_of(path[j].point) == book.frontier[len - 1 - j]);
        assert(book.rank[book.frontier[len - 1 - j] as int] < book.rank[book.frontier[len - 1
            - i] as int]);
    }
}

/// Finds the first edge of `node` that leaves in direction `d` for a cell
/// that has not been seen.
fn probe(maze: &Maze, node: &Node, d: Direction, seen: &Vec<bool>, Ghost(cur): Ghost<usize>) -> (r:
    Option<usize>)
    requires
        maze.wf(),
        maze.data@.contains_key(cur),
        *node == maze.data@[cur],
        seen@.len() == maze.width * maze.height,
    ensures
        match r {
            Some(i) => open_edge(maze, seen@, cur as int, d, node.children@.len()) == Some(
                i as int,
            ),
            None => open_edge(maze, seen@, cur as int, d, node.children@.len()) is None,
        },
{
    let mut i: usize = 0;
    while i < node.children.len()
        invariant
            maze.wf(),
                maze.data@.contains_key(cur),
            *node == maze.data@[cur],
            seen@.len() == maze.width * maze.height,
            0 <= i <= node.children@.len(),
            open_edge(maze, seen@, cur as int, d, i as nat) is None,
        decreases node.children@.len() - i,
    {
        let (heading, next) = node.children[i];
        proof {
            maze.lemma_key_of_spot(cur);
            assert(maze.contains(maze.edges(cur as int)[i as int].1));
        }
        if heading == d {
            let k = maze.index(&next);
            if !seen[k] {
                proof {
                    lemma_open_edge_grows(
                        maze,
                        seen@,
                        cur as int,
                        d,
                        (i + 1) as nat,
                        node.children@.len(),
                    );
                }
                return Some(i);
            }
        }
        i += 1;
    }
    None
}

/// An open edge that is found among the first `n` edges is the one found
/// among any more of them.
proof fn lemma_open_edge_grows(maze: &Maze, seen: Seq<bool>, cur: int, d: Direction, n: nat, m: nat)
    requires
        n <= m,
        open_edge(maze, seen, cur, d, n) is Some,
    ensures
        open_edge(maze, seen, cur, d, m) == open_edge(maze, seen, cur, d, n),
    decreases m,
{
    if n < m {
        lemma_open_edge_grows(maze, seen, cur, d, n, (m - 1) as nat);
    }
}

/// Finds the edge that a walker on `node` takes when it faces `facing`.
fn choose_turn(
    maze: &Maze,
    node: &Node,
    facing: Direction,
    seen: &Vec<bool>,
    Ghost(cur): Ghost<usize>,
) -> (r: Option<usize>)
    requires
        maze.wf(),
        maze.data@.contains_key(cur),
        *node == maze.data@[cur],
        seen@.len() == maze.width * maze.height,
    ensures
        match r {
            Some(i) => turn(maze, seen@, cur as int, facing) == Some(i as int),
            None => turn(maze, seen@, cur as int, facing) is None,
        },
{
    if let Some(i) = probe(maze, node, facing.left(), seen, Ghost(cur)) {
        return Some(i);
    }
    if let Some(i) = probe(maze, node, facing, seen, Ghost(cur)) {
        return Some(i);
    }
    if let Some(i) = probe(maze, node, facing.right(), seen, Ghost(cur)) {
        return Some(i);
    }
    probe(maze, node, facing.reverse(), seen, Ghost(cur))
}

impl Solver for LeftTurn {
    open spec fn outcome(maze: &Maze) -> Option<(nat, Seq<Point>)> {
        answer(maze, finished(maze))
    }

    fn solve<'a>(maze: &'a Maze) -> (r: Option<Solution<'a>>) {
        let total = maze.width * maze.height;
        let cells = maze.data.len();
        let start = maze.index(&maze.start);
        let goal = maze.index(&maze.exit);
        let mut seen: Vec<bool> = vec![false; total];
        let mut way: Vec<usize> = Vec::new();
        let mut headings: Vec<Direction> = Vec::new();
        let mut facing = Direction::Down;
        seen.set(start, true);
        way.push(start);
        headings.push(Direction::Down);
        let mut decisions: usize = 1;
        let mut found = start == goal;
        let ghost mut walker = setting_out(maze);
        proof {
            lemma_setting_out(maze);
            assert(seen@ =~= walker.book.seen);
            assert(way@ =~= walker.book.frontier);
            assert(headings@ =~= walker.headings);
        }
        while !found && way.len() > 0
            invariant
                maze.wf(),
                total == maze.width * maze.height,
                cells == maze.cell_count(),
                goal == maze.index_of(maze.exit),
                inv(maze, walker),
                walker.book.seen == seen@,
                walker.book.frontier == way@,
                walker.book.decisions == decisions,
                walker.book.found == found,
                walker.headings == headings@,
                walker.facing == facing,
                run(maze, walker, (2 * (cells - decisions) + way@.len() + 1) as nat) == finished(
                    maze,
                ),
            decreases 2 * (cells - decisions) + way@.len(),
        {
            let cur = way[way.len() - 1];
            let ghost before = walker;
            proof {
                assert(way_ok(maze, walker.book, way@.len() - 1));
                assert(visited_ok(maze, walker.book, cur as int));
                lemma_turn(maze, seen@, cur as int, facing);
            }
            match maze.data.get(&cur) {
                Some(node) => {
                    match choose_turn(maze, node, facing, &seen, Ghost(cur)) {
                        Some(i) => {
                            let (heading, next) = node.children[i];
                            proof {
                                lemma_step(maze, walker, i as int);
                                maze.lemma_key_of_spot(cur);
                                assert(maze.contains(maze.edges(cur as int)[i as int].1));
                                walker = step(maze, walker, i as int);
                            }
                            let k = maze.index(&next);
                            seen.set(k, true);
                            way.push(k);
                            headings.push(heading);
                            facing = heading;
                            decisions += 1;
                            found = k == goal;
                        },
                        None => {
                            proof {
                                lemma_retreat(maze, walker);
                                walker = retreat(walker);
                            }
                            way.pop();
                            match headings.pop() {
                                Some(heading) => {
                                    facing = heading.reverse();
                                },
                                None => {
                                    assert(false);
                                },
                            }
                        },
                    }
                },
                None => {
                    assert(false);
                },
            }
            proof {
                assert(walker == advance(maze, before));
            }
        }
        if !found {
            proof {
                lemma_stranded(maze, walker);
            }
            return None;
        }
        let mut path: Vec<&'a Node> = Vec::new();
        let mut i: usize = way.len();
        while i > 0
            invariant
                maze.wf(),
                inv(maze, walker),
                walker.book.frontier == way@,
                0 <= i <= way@.len(),
                path@.len() == way@.len() - i,
                forall|j: int|
                    0 <= j < path@.len() ==> *(#[trigger] path@[j]) == maze.data@[way@[way@.len()
                        - 1 - j]],
            decreases i,
        {
            i -= 1;
            let ghost before = path@;
            proof {
                assert(way_ok(maze, walker.book, i as int));
                assert(visited_ok(maze, walker.book, way@[i as int] as int));
            }
            match maze.data.get(&way[i]) {
                Some(node) => {
                    path.push(node);
                },
                None => {
                    assert(false);
                },
            }
            proof {
                assert forall|j: int| 0 <= j < path@.len() implies *(#[trigger] path@[j])
                    == maze.data@[way@[way@.len() - 1 - j]] by {
                    if j < before.len() {
                        assert(path@[j] == before[j]);
                    }
                }
            }
        }
        let solution = Solution::new(decisions, path);
        proof {
            lemma_way_is_route(maze, walker, solution.path@);
            solution.lemma_route_is_walk(maze);
            let way = walker.book.frontier;
            assert(solution.points() =~= Seq::new(
                way.len(),
                |j: int| maze.spot(way[way.len() - 1 - j] as int),
            ));
        }
        Some(solution)
    }
}

} // verus!
