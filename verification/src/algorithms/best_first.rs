//! The search that Dijkstra and A* share. The frontier is a priority queue:
//! the cell taken next is the one with the least cost from the entrance,
//! to which the informed search adds its estimate of the way to the exit.
//!
//! The frontier holds each waiting cell once and reads its priority from the
//! cost table, so a cell whose cost is lowered while it waits moves forward
//! without being inserted again. Taking a cell scans the frontier; a maze of
//! narrow corridors keeps it short.
//!
//! The tables of costs, estimates and predecessors cover every index of the
//! grid, walls included, so the memory in use grows with `width * height`.

use vstd::prelude::*;
use vstd::set_lib::lemma_len_subset;
use crate::algorithms::book::{lemma_route, opening, retrace, Book};
use crate::algorithms::{summary, Solution};
use crate::maze::Maze;
use crate::node::Point;

verus! {

/// The estimate of the way from cell `k` to the exit: the Manhattan distance
/// when the search is informed, nothing otherwise.
pub open spec fn estimate_of(maze: &Maze, informed: bool, k: int) -> nat {
    if informed {
        maze.spot(k).manhattan(maze.exit)
    } else {
        0
    }
}

/// The priority of cell `k`: its cost from the entrance and its estimate.
pub open spec fn priority(maze: &Maze, book: Book, informed: bool, k: int) -> nat {
    book.depth[k] + estimate_of(maze, informed, k)
}

/// The position, among the first `n` cells of the frontier, of the first
/// cell of least priority.
pub open spec fn first_least(maze: &Maze, book: Book, informed: bool, n: nat) -> int
    decreases n,
{
    if n <= 1 {
        0
    } else {
        let best = first_least(maze, book, informed, (n - 1) as nat);
        if priority(maze, book, informed, book.frontier[n - 1] as int) < priority(
            maze,
            book,
            informed,
            book.frontier[best] as int,
        ) {
            n - 1
        } else {
            best
        }
    }
}

/// `first_least` names a position whose cell has the least priority.
pub proof fn lemma_first_least(maze: &Maze, book: Book, informed: bool, n: nat)
    requires
        0 < n <= book.frontier.len(),
    ensures
        0 <= first_least(maze, book, informed, n) < n,
        forall|i: int|
            0 <= i < n ==> priority(
                maze,
                book,
                informed,
                book.frontier[first_least(maze, book, informed, n)] as int,
            ) <= priority(maze, book, informed, (#[trigger] book.frontier[i]) as int),
    decreases n,
{
    if n > 1 {
        lemma_first_least(maze, book, informed, (n - 1) as nat);
    }
}

/// The cell that is taken next.
pub open spec fn next(maze: &Maze, book: Book, informed: bool) -> usize {
    book.frontier[first_least(maze, book, informed, book.frontier.len())]
}

/// The record after the cell of least priority has been taken from the
/// frontier; the last cell of the frontier moves into its place.
pub open spec fn take(maze: &Maze, book: Book, informed: bool) -> Book {
    let at = first_least(maze, book, informed, book.frontier.len());
    let cur = book.frontier[at];
    Book {
        frontier: book.frontier.update(at, book.frontier.last()).drop_last(),
        decisions: book.decisions + 1,
        found: cur == maze.index_of(maze.exit),
        rank: book.rank.update(cur as int, book.decisions + 1),
        level: book.depth[cur as int],
        ..book
    }
}

/// The record after edge `i` of cell `cur` has been relaxed. A cell that had
/// not been seen is marked, given its cost, traced back to `cur` and put on
/// the frontier; a cell that was reached at a higher cost before gets the
/// lower cost and is traced back to `cur`.
pub open spec fn relax(maze: &Maze, book: Book, cur: int, i: int) -> Book {
    let k = maze.target(cur, i);
    let cost = book.depth[cur] + 1;
    if !book.seen[k] {
        Book {
            seen: book.seen.update(k, true),
            trace: book.trace.update(k, Some(cur as usize)),
            frontier: book.frontier.push(k as usize),
            depth: book.depth.update(k, cost as nat),
            ..book
        }
    } else if cost < book.depth[k] {
        Book {
            trace: book.trace.update(k, Some(cur as usize)),
            depth: book.depth.update(k, cost as nat),
            ..book
        }
    } else {
        book
    }
}

/// The record after the first `n` edges of cell `cur` have been relaxed.
pub open spec fn expand(maze: &Maze, book: Book, cur: int, n: nat) -> Book
    decreases n,
{
    if n == 0 {
        book
    } else {
        relax(maze, expand(maze, book, cur, (n - 1) as nat), cur, n - 1)
    }
}

/// The record after one round: the cell of least priority is taken and,
/// unless it is the exit, all its edges are relaxed.
pub open spec fn round(maze: &Maze, book: Book, informed: bool) -> Book {
    let cur = next(maze, book, informed);
    let taken = take(maze, book, informed);
    if cur == maze.index_of(maze.exit) {
        taken
    } else {
        expand(maze, taken, cur as int, maze.edges(cur as int).len())
    }
}

/// The record after at most `rounds` rounds, stopping when the exit has been
/// taken or the frontier is empty.
pub open spec fn run(maze: &Maze, book: Book, informed: bool, rounds: nat) -> Book
    decreases rounds,
{
    if rounds == 0 || book.found || book.frontier.len() == 0 {
        book
    } else {
        run(maze, round(maze, book, informed), informed, (rounds - 1) as nat)
    }
}

/// The record of the finished search. No search takes more rounds than the
/// maze has cells.
pub open spec fn finished(maze: &Maze, informed: bool) -> Book {
    run(maze, opening(maze), informed, maze.cell_count())
}

/// Edge `i` of cell `k` leads to a cell that has been seen at a cost no
/// more than one above that of `k`.
pub open spec fn edge_relaxed(maze: &Maze, book: Book, k: int, i: int) -> bool {
    let t = maze.target(k, i);
    book.seen[t] && book.depth[t] <= book.depth[k] + 1
}

/// What holds of a cell that has been seen: its trace is sound, it was taken
/// or waits on the frontier, and some walk from the entrance reaches it at
/// its cost.
pub open spec fn known_ok(maze: &Maze, book: Book, k: int) -> bool {
    &&& book.traced(maze, k)
    &&& book.rank[k] > 0 || book.frontier.contains(k as usize)
    &&& book.depth[k] <= book.decisions
    &&& maze.reached_in(maze.spot(k), book.depth[k] + 1)
}

/// What holds of a cell that has been taken from the frontier: no walk
/// from the entrance reaches it at a lower cost, no walk to the exit has
/// fewer edges than its priority says, and all its edges have been relaxed,
/// unless it is the exit or the cell `cur` whose edges are being relaxed, of
/// which the first `upto` are done.
pub open spec fn settled_ok(
    maze: &Maze,
    book: Book,
    informed: bool,
    k: int,
    cur: int,
    upto: int,
) -> bool {
    &&& book.seen[k]
    &&& book.rank[k] <= book.decisions
    &&& book.depth[k] < book.rank[k]
    &&& maze.no_shorter(maze.spot(k), book.depth[k] + 1)
    &&& maze.no_shorter(maze.exit, priority(maze, book, informed, k) + 1)
    &&& k != maze.index_of(maze.exit) ==> forall|i: int|
        0 <= i < (if k == cur {
            upto
        } else {
            maze.edges(k).len() as int
        }) ==> #[trigger] edge_relaxed(maze, book, k, i)
}

/// What holds of the cell at position `i` of the frontier.
pub open spec fn waiting_ok(maze: &Maze, book: Book, i: int) -> bool {
    let k = book.frontier[i] as int;
    &&& k < maze.width * maze.height
    &&& book.seen[k]
    &&& book.rank[k] == 0
}

/// The cell at position `i` of the frontier has no lower priority than the
/// exit.
pub open spec fn behind(maze: &Maze, book: Book, informed: bool, i: int) -> bool {
    priority(maze, book, informed, maze.index_of(maze.exit)) <= priority(
        maze,
        book,
        informed,
        book.frontier[i] as int,
    )
}

/// Cell `k` has not had its edges relaxed: it was not taken, or is the exit.
pub open spec fn idle(maze: &Maze, book: Book, k: int) -> bool {
    book.rank[k] == 0 || k == maze.index_of(maze.exit)
}

/// The invariant of the search. `cur` is the cell whose edges are being
/// relaxed, of which the first `upto` are done; between two takes `cur` is
/// negative.
pub open spec fn inv(maze: &Maze, book: Book, informed: bool, cur: int, upto: int) -> bool {
    let n = maze.width * maze.height;
    let goal = maze.index_of(maze.exit);
    &&& book.sized(n)
    &&& book.seen[maze.index_of(maze.start)]
    &&& forall|k: int| 0 <= k < n && book.seen[k] ==> #[trigger] known_ok(maze, book, k)
    &&& forall|k: int|
        0 <= k < n && book.rank[k] > 0 ==> #[trigger] settled_ok(maze, book, informed, k, cur, upto)
    &&& forall|i: int| 0 <= i < book.frontier.len() ==> #[trigger] waiting_ok(maze, book, i)
    &&& book.frontier.no_duplicates()
    &&& book.found <==> book.rank[goal] > 0
    &&& book.found ==> book.rank[goal] == book.decisions
    &&& book.found ==> forall|i: int|
        0 <= i < book.frontier.len() ==> #[trigger] behind(maze, book, informed, i)
    &&& book.popped().finite()
    &&& book.popped().len() == book.decisions
    &&& book.decisions <= maze.cell_count()
    &&& 0 <= cur ==> {
        &&& cur < n
        &&& book.rank[cur] > 0
        &&& cur != goal
        &&& !book.found
        &&& 0 <= upto <= maze.edges(cur).len()
    }
}

/// The search begins in a state that meets the invariant.
pub proof fn lemma_opening(maze: &Maze, informed: bool)
    requires
        maze.wf(),
    ensures
        inv(maze, opening(maze), informed, -1, 0),
{
    let book = opening(maze);
    let s = maze.index_of(maze.start);
    maze.lemma_spot_of_index(maze.start);
    maze.lemma_index_in_range(maze.exit);
    assert(book.frontier[0] == s);
    assert(book.frontier.contains(s as usize));
    assert(waiting_ok(maze, book, 0));
    assert(book.popped() =~= Set::<usize>::empty());
    let w = seq![maze.start];
    assert(maze.joins(w, maze.start, maze.start));
    assert(known_ok(maze, book, s));
}

/// A walk from the entrance holds, among its first `i + 1` cells, one at
/// some position `j` that has been seen at a cost of at most `j`. Unless `j`
/// is `i` and the edges of that cell have been relaxed, the cell is idle.
proof fn lemma_walk_front(maze: &Maze, book: Book, informed: bool, w: Seq<Point>, i: int) -> (j:
    int)
    requires
        maze.wf(),
        inv(maze, book, informed, -1, 0),
        maze.is_walk(w),
        w[0] == maze.start,
        0 <= i < w.len(),
    ensures
        0 <= j <= i,
        0 <= maze.index_of(w[j]) < maze.width * maze.height,
        book.seen[maze.index_of(w[j])],
        book.depth[maze.index_of(w[j])] <= j,
        j < i || idle(maze, book, maze.index_of(w[i])) ==> idle(maze, book, maze.index_of(w[j])),
    decreases i,
{
    let k = maze.index_of(w[i]);
    assert(maze.contains(w[i]));
    maze.lemma_spot_of_index(w[i]);
    if i == 0 {
        assert(known_ok(maze, book, k));
        0
    } else {
        let j = lemma_walk_front(maze, book, informed, w, i - 1);
        let p = maze.index_of(w[i - 1]);
        assert(maze.contains(w[i - 1]));
        maze.lemma_spot_of_index(w[i - 1]);
        if j < i - 1 || idle(maze, book, p) {
            j
        } else {
            assert(settled_ok(maze, book, informed, p, -1, 0));
            assert(maze.hop(w, i - 1));
            let e = choose|e: int|
                0 <= e < maze.node_at(w[i - 1]).children@.len() && (
                #[trigger] maze.node_at(w[i - 1]).children@[e]).1 == w[i];
            assert(edge_relaxed(maze, book, p, e));
            assert(maze.target(p, e) == k);
            i
        }
    }
}

/// Before the exit is taken, the cell of least priority on the frontier has
/// a priority below the number of cells of any walk from the entrance to the
/// exit.
proof fn lemma_least_is_before_exit(maze: &Maze, book: Book, informed: bool)
    requires
        maze.wf(),
        inv(maze, book, informed, -1, 0),
        !book.found,
        book.frontier.len() > 0,
    ensures
        maze.no_shorter(
            maze.exit,
            priority(maze, book, informed, next(maze, book, informed) as int) + 1,
        ),
{
    let at = first_least(maze, book, informed, book.frontier.len());
    lemma_first_least(maze, book, informed, book.frontier.len());
    let cur = book.frontier[at] as int;
    maze.lemma_spot_of_index(maze.exit);
    assert forall|w: Seq<Point>| #[trigger] maze.joins(w, maze.start, maze.exit) implies priority(
        maze,
        book,
        informed,
        cur,
    ) + 1 <= w.len() by {
        let last = w.len() - 1;
        let j = lemma_walk_front(maze, book, informed, w, last);
        let kj = maze.index_of(w[j]);
        assert(maze.contains(w[j]));
        maze.lemma_spot_of_index(w[j]);
        assert(known_ok(maze, book, kj));
        let x = choose|x: int| 0 <= x < book.frontier.len() && book.frontier[x] == kj as usize;
        assert(priority(maze, book, informed, cur) <= priority(
            maze,
            book,
            informed,
            book.frontier[x] as int,
        ));
        maze.lemma_walk_bounds_manhattan(w, j, maze.exit);
    }
}

/// The cell of least priority on the frontier is reached at the least cost:
/// no walk from the entrance to it has fewer cells than its cost says.
proof fn lemma_least_is_nearest(maze: &Maze, book: Book, informed: bool)
    requires
        maze.wf(),
        inv(maze, book, informed, -1, 0),
        !book.found,
        book.frontier.len() > 0,
    ensures
        maze.no_shorter(
            maze.spot(next(maze, book, informed) as int),
            book.depth[next(maze, book, informed) as int] + 1,
        ),
{
    let at = first_least(maze, book, informed, book.frontier.len());
    lemma_first_least(maze, book, informed, book.frontier.len());
    let cur = book.frontier[at] as int;
    assert(waiting_ok(maze, book, at));
    assert(known_ok(maze, book, cur));
    maze.lemma_key_of_spot(cur as usize);
    let here = maze.spot(cur);
    assert forall|w: Seq<Point>| #[trigger] maze.joins(w, maze.start, here) implies book.depth[cur]
        + 1 <= w.len() by {
        let last = w.len() - 1;
        let j = lemma_walk_front(maze, book, informed, w, last);
        let kj = maze.index_of(w[j]);
        assert(maze.contains(w[j]));
        maze.lemma_spot_of_index(w[j]);
        assert(known_ok(maze, book, kj));
        let x = choose|x: int| 0 <= x < book.frontier.len() && book.frontier[x] == kj as usize;
        assert(priority(maze, book, informed, cur) <= priority(
            maze,
            book,
            informed,
            book.frontier[x] as int,
        ));
        maze.lemma_walk_bounds_manhattan(w, j, maze.exit);
    }
}

/// Taking the cell of least priority from the frontier keeps the invariant.
pub proof fn lemma_take(maze: &Maze, book: Book, informed: bool)
    requires
        maze.wf(),
        inv(maze, book, informed, -1, 0),
        !book.found,
        book.frontier.len() > 0,
    ensures
        0 <= first_least(maze, book, informed, book.frontier.len()) < book.frontier.len(),
        next(maze, book, informed) < maze.width * maze.height,
        maze.data@.contains_key(next(maze, book, informed)),
        book.decisions < maze.cell_count(),
        book.depth[next(maze, book, informed) as int] <= book.decisions,
        inv(
            maze,
            take(maze, book, informed),
            informed,
            if next(maze, book, informed) == maze.index_of(maze.exit) {
                -1
            } else {
                next(maze, book, informed) as int
            },
            0,
        ),
{
    let n = maze.width * maze.height;
    let goal = maze.index_of(maze.exit);
    let at = first_least(maze, book, informed, book.frontier.len());
    lemma_first_least(maze, book, informed, book.frontier.len());
    let cur = next(maze, book, informed);
    let after = take(maze, book, informed);
    let last = book.frontier.len() - 1;
    let c = if cur == goal {
        -1
    } else {
        cur as int
    };
    maze.lemma_index_in_range(maze.exit);
    lemma_least_is_nearest(maze, book, informed);
    lemma_least_is_before_exit(maze, book, informed);
    assert(waiting_ok(maze, book, at));
    if cur == goal {
        assert forall|i: int| 0 <= i < after.frontier.len() implies #[trigger] behind(
            maze,
            after,
            informed,
            i,
        ) by {
            let j = if i == at {
                last
            } else {
                i
            };
            assert(after.frontier[i] == book.frontier[j]);
        }
    }
    assert(known_ok(maze, book, cur as int));
    assert forall|i: int| 0 <= i < after.frontier.len() implies #[trigger] waiting_ok(
        maze,
        after,
        i,
    ) by {
        let j = if i == at {
            last
        } else {
            i
        };
        assert(after.frontier[i] == book.frontier[j]);
        assert(waiting_ok(maze, book, j));
        assert(book.frontier[j] != book.frontier[at]);
    }
    assert forall|k: int| 0 <= k < n && after.seen[k] implies #[trigger] known_ok(
        maze,
        after,
        k,
    ) by {
        assert(known_ok(maze, book, k));
        if k != maze.index_of(maze.start) {
            let p = book.trace[k]->0 as int;
            assert(book.rank[p] > 0);
            assert(settled_ok(maze, book, informed, p, -1, 0));
        }
        if k != cur && book.rank[k] == 0 {
            let j = choose|j: int| 0 <= j < book.frontier.len() && book.frontier[j] == k as usize;
            let i = if j == last {
                at
            } else {
                j
            };
            assert(after.frontier[i] == k as usize);
        }
    }
    assert forall|k: int| 0 <= k < n && after.rank[k] > 0 implies #[trigger] settled_ok(
        maze,
        after,
        informed,
        k,
        c,
        0,
    ) by {
        if k != cur {
            assert(book.rank[k] > 0);
            assert(settled_ok(maze, book, informed, k, -1, 0));
            if k != goal {
                assert forall|i: int| 0 <= i < maze.edges(k).len() implies #[trigger] edge_relaxed(
                    maze,
                    after,
                    k,
                    i,
                ) by {
                    assert(edge_relaxed(maze, book, k, i));
                }
            }
        }
    }
    assert(after.frontier.no_duplicates());
    assert(after.popped() =~= book.popped().insert(cur));
    assert(!book.popped().contains(cur));
    assert(after.popped().subset_of(maze.data@.dom())) by {
        assert forall|k: usize| after.popped().contains(k) implies maze.data@.dom().contains(k) by {
            assert(after.rank[k as int] > 0);
            assert(settled_ok(maze, after, informed, k as int, c, 0));
            assert(known_ok(maze, after, k as int));
        }
    }
    lemma_len_subset(after.popped(), maze.data@.dom());
}

/// Relaxing one more edge of the cell that was taken keeps the invariant.
pub proof fn lemma_relax(maze: &Maze, book: Book, informed: bool, cur: int, i: int)
    requires
        maze.wf(),
        inv(maze, book, informed, cur, i),
        0 <= cur,
        i < maze.edges(cur).len(),
    ensures
        0 <= maze.target(cur, i) < maze.width * maze.height,
        book.depth[cur] + 1 <= book.decisions,
        inv(maze, relax(maze, book, cur, i), informed, cur, i + 1),
{
    let n = maze.width * maze.height;
    let goal = maze.index_of(maze.exit);
    let start = maze.index_of(maze.start);
    let k = maze.target(cur, i);
    let cost = book.depth[cur] + 1;
    let after = relax(maze, book, cur, i);
    assert(settled_ok(maze, book, informed, cur, cur, i));
    assert(known_ok(maze, book, cur));
    maze.lemma_key_of_spot(cur as usize);
    maze.lemma_index_in_range(maze.exit);
    maze.lemma_index_in_range(maze.start);
    let to = maze.edges(cur)[i].1;
    assert(maze.contains(to));
    assert(maze.spot(k) == to);
    // The walk that reaches `cur` at its cost, followed over this edge.
    let via = choose|w: Seq<Point>| #[trigger]
        maze.joins(w, maze.start, maze.spot(cur)) && w.len() == book.depth[cur] + 1;
    maze.lemma_walk_extends(via, maze.start, to);
    let walk = via.push(to);
    assert(maze.joins(walk, maze.start, to) && walk.len() == cost + 1);
    if book.rank[k] > 0 {
        assert(settled_ok(maze, book, informed, k, cur, i));
        assert(book.seen[k] && book.depth[k] <= cost);
    }
    if !book.seen[k] || cost < book.depth[k] {
        assert(book.rank[k] == 0);
        assert(k != cur);
        assert(k != start) by {
            if k == start && book.seen[k] {
                assert(known_ok(maze, book, k));
            }
        }
        assert forall|j: int| 0 <= j < after.frontier.len() implies #[trigger] waiting_ok(
            maze,
            after,
            j,
        ) by {
            if j < book.frontier.len() {
                assert(after.frontier[j] == book.frontier[j]);
                assert(waiting_ok(maze, book, j));
            }
        }
        assert forall|j: int| 0 <= j < n && after.seen[j] implies #[trigger] known_ok(
            maze,
            after,
            j,
        ) by {
            if j == k {
                if book.seen[k] {
                    assert(known_ok(maze, book, k));
                    let x = choose|x: int|
                        0 <= x < book.frontier.len() && book.frontier[x] == k as usize;
                    assert(after.frontier[x] == k as usize);
                } else {
                    assert(after.frontier[after.frontier.len() - 1] == k as usize);
                }
                assert(after.traced(maze, k));
                assert(maze.reached_in(maze.spot(k), after.depth[k] + 1));
            } else {
                assert(book.seen[j]);
                assert(known_ok(maze, book, j));
                if j != start {
                    let p = book.trace[j]->0 as int;
                    assert(book.rank[p] > 0);
                    assert(settled_ok(maze, book, informed, p, cur, i));
                }
                if book.rank[j] == 0 {
                    let x = choose|x: int|
                        0 <= x < book.frontier.len() && book.frontier[x] == j as usize;
                    assert(after.frontier[x] == j as usize);
                }
                assert(after.traced(maze, j));
            }
        }
        assert forall|j: int| 0 <= j < n && after.rank[j] > 0 implies #[trigger] settled_ok(
            maze,
            after,
            informed,
            j,
            cur,
            i + 1,
        ) by {
            assert(settled_ok(maze, book, informed, j, cur, i));
            assert(known_ok(maze, book, j));
            maze.lemma_key_of_spot(j as usize);
            if j != goal {
                let m = if j == cur {
                    i + 1
                } else {
                    maze.edges(j).len() as int
                };
                assert forall|e: int| 0 <= e < m implies #[trigger] edge_relaxed(
                    maze,
                    after,
                    j,
                    e,
                ) by {
                    if j == cur && e == i {
                    } else {
                        assert(edge_relaxed(maze, book, j, e));
                    }
                }
            }
        }
        assert(after.frontier.no_duplicates()) by {
            assert forall|x: int, y: int|
                0 <= x < after.frontier.len() && 0 <= y < after.frontier.len() && x
                    != y implies after.frontier[x] != after.frontier[y] by {
                if x < book.frontier.len() {
                    assert(waiting_ok(maze, book, x));
                }
                if y < book.frontier.len() {
                    assert(waiting_ok(maze, book, y));
                }
            }
        }
        assert(after.popped() =~= book.popped());
    } else {
        assert(edge_relaxed(maze, book, cur, i));
        assert forall|j: int| 0 <= j < n && book.rank[j] > 0 implies #[trigger] settled_ok(
            maze,
            book,
            informed,
            j,
            cur,
            i + 1,
        ) by {
            assert(settled_ok(maze, book, informed, j, cur, i));
        }
    }
}

/// Once all edges of the cell that was taken have been relaxed, the
/// invariant holds with no cell in progress.
pub proof fn lemma_done(maze: &Maze, book: Book, informed: bool, cur: int)
    requires
        inv(maze, book, informed, cur, maze.edges(cur).len() as int),
        0 <= cur,
    ensures
        inv(maze, book, informed, -1, 0),
{
    let n = maze.width * maze.height;
    assert forall|k: int| 0 <= k < n && book.rank[k] > 0 implies #[trigger] settled_ok(
        maze,
        book,
        informed,
        k,
        -1,
        0,
    ) by {
        assert(settled_ok(maze, book, informed, k, cur, maze.edges(cur).len() as int));
    }
}

/// A search that runs out of cells without taking the exit shows that no
/// walk leads from the entrance to the exit.
pub proof fn lemma_exhausted(maze: &Maze, book: Book, informed: bool)
    requires
        maze.wf(),
        inv(maze, book, informed, -1, 0),
        !book.found,
        book.frontier.len() == 0,
    ensures
        !maze.solvable(),
{
    if maze.solvable() {
        let w = choose|w: Seq<Point>| maze.joins(w, maze.start, maze.exit);
        let j = lemma_walk_front(maze, book, informed, w, w.len() - 1);
        let k = maze.index_of(w[j]);
        assert(known_ok(maze, book, k));
        let x = choose|x: int| 0 <= x < book.frontier.len() && book.frontier[x] == k as usize;
    }
}

/// An informed search that has taken the exit took, besides the exit, only
/// cells that a walk shorter than the route reaches.
pub proof fn lemma_frugal(maze: &Maze, book: Book)
    requires
        maze.wf(),
        inv(maze, book, true, -1, 0),
        book.found,
    ensures
        book.decisions <= maze.within(book.depth[maze.index_of(maze.exit)]).len() + 1,
{
    maze.lemma_spot_of_index(maze.exit);
    let goal = maze.index_of(maze.exit);
    let near = maze.within(book.depth[goal]);
    let others = book.popped().remove(goal as usize);
    assert(settled_ok(maze, book, true, goal, -1, 0));
    assert(known_ok(maze, book, goal));
    let route = choose|w: Seq<Point>| #[trigger]
        maze.joins(w, maze.start, maze.exit) && w.len() == book.depth[goal] + 1;
    assert(near.subset_of(maze.data@.dom()));
    lemma_len_subset(near, maze.data@.dom());
    assert forall|k: usize| others.contains(k) implies near.contains(k) by {
        assert(settled_ok(maze, book, true, k as int, -1, 0));
        assert(known_ok(maze, book, k as int));
        maze.lemma_key_of_spot(k);
        assert(maze.spot(k as int) != maze.exit);
        let w = choose|w: Seq<Point>| #[trigger]
            maze.joins(w, maze.start, maze.spot(k as int)) && w.len() == book.depth[k as int] + 1;
        assert(maze.joins(w, maze.start, maze.spot(k as int)) && w.len() <= book.depth[goal]);
    }
    lemma_len_subset(others, near);
}

/// An uninformed search that has taken the exit took, besides the exit,
/// every cell that a walk shorter than the route reaches.
pub proof fn lemma_thorough(maze: &Maze, book: Book)
    requires
        maze.wf(),
        inv(maze, book, false, -1, 0),
        book.found,
    ensures
        maze.within(book.depth[maze.index_of(maze.exit)]).len() + 1 <= book.decisions,
{
    maze.lemma_spot_of_index(maze.exit);
    let goal = maze.index_of(maze.exit);
    let near = maze.within(book.depth[goal]);
    let others = book.popped().remove(goal as usize);
    assert(settled_ok(maze, book, false, goal, -1, 0));
    assert forall|k: usize| near.contains(k) implies others.contains(k) by {
        let w = choose|w: Seq<Point>| #[trigger]
            maze.joins(w, maze.start, maze.spot(k as int)) && w.len() <= book.depth[goal];
        maze.lemma_key_of_spot(k);
        maze.lemma_spot_of_index(maze.spot(k as int));
        let j = lemma_walk_front(maze, book, false, w, w.len() - 1);
        let kj = maze.index_of(w[j]);
        assert(maze.index_of(w[w.len() - 1]) == k);
        if k == goal {
            assert(maze.joins(w, maze.start, maze.exit));
            assert(false);
        }
        if book.rank[k as int] == 0 {
            assert(idle(maze, book, kj));
            assert(known_ok(maze, book, kj));
            if book.rank[kj] == 0 {
                let x = choose|x: int|
                    0 <= x < book.frontier.len() && book.frontier[x] == kj as usize;
                assert(behind(maze, book, false, x));
            }
            assert(false);
        }
        assert(book.taken(k as int));
    }
    lemma_len_subset(near, others);
}

/// What the tables of the search hold in memory agrees with the record:
/// `cost` is the depth of every cell, and `estimate` is the estimate of every
/// cell that has been seen and zero for the others.
pub open spec fn tables_agree(
    maze: &Maze,
    book: Book,
    informed: bool,
    cost: Seq<usize>,
    estimate: Seq<usize>,
) -> bool {
    &&& cost.len() == book.depth.len()
    &&& estimate.len() == book.depth.len()
    &&& forall|k: int| 0 <= k < cost.len() ==> (#[trigger] cost[k]) == book.depth[k]
    &&& forall|k: int|
        0 <= k < estimate.len() ==> (#[trigger] estimate[k]) == (if book.seen[k] {
            estimate_of(maze, informed, k)
        } else {
            0
        })
}

/// Finds the position of the first cell of least priority on the frontier.
fn least(
    frontier: &Vec<usize>,
    cost: &Vec<usize>,
    estimate: &Vec<usize>,
    Ghost(maze): Ghost<&Maze>,
    Ghost(book): Ghost<Book>,
    Ghost(informed): Ghost<bool>,
) -> (at: usize)
    requires
        frontier@ == book.frontier,
        frontier@.len() > 0,
        tables_agree(maze, book, informed, cost@, estimate@),
        forall|i: int| 0 <= i < book.frontier.len() ==> #[trigger] waiting_ok(maze, book, i),
        book.sized(maze.width * maze.height),
    ensures
        at == first_least(maze, book, informed, book.frontier.len()),
        at < frontier@.len(),
{
    let mut best: usize = 0;
    let mut i: usize = 1;
    proof {
        assert(waiting_ok(maze, book, 0));
    }
    while i < frontier.len()
        invariant
            frontier@ == book.frontier,
            tables_agree(maze, book, informed, cost@, estimate@),
            forall|i: int| 0 <= i < book.frontier.len() ==> #[trigger] waiting_ok(maze, book, i),
            book.sized(maze.width * maze.height),
            1 <= i <= frontier@.len(),
            best < i,
            best == first_least(maze, book, informed, i as nat),
        decreases frontier@.len() - i,
    {
        proof {
            assert(waiting_ok(maze, book, i as int));
            assert(waiting_ok(maze, book, best as int));
        }
        let k = frontier[i];
        let b = frontier[best];
        let here: u128 = cost[k] as u128 + estimate[k] as u128;
        let least: u128 = cost[b] as u128 + estimate[b] as u128;
        if here < least {
            best = i;
        }
        i += 1;
    }
    best
}

/// Searches `maze` from the entrance, taking the cell of least priority
/// from the frontier until the exit is taken or no cell is left. The informed
/// search adds the Manhattan distance to the exit to the priority of a cell.
pub(crate) fn search<'a>(maze: &'a Maze, informed: bool) -> (r: Option<Solution<'a>>)
    requires
        maze.wf(),
    ensures
        r is Some <==> maze.solvable(),
        r matches Some(s) ==> s.wf(maze) && s.shortest(maze),
        r matches Some(s) ==> if informed {
            s.frugal(maze)
        } else {
            s.thorough(maze)
        },
        summary(r) == finished(maze, informed).answer(maze),
{
    let total = maze.width * maze.height;
    let cells = maze.data.len();
    let start = maze.index(&maze.start);
    let goal = maze.index(&maze.exit);
    let mut seen: Vec<bool> = vec![false; total];
    let mut trace: Vec<Option<usize>> = vec![None; total];
    let mut cost: Vec<usize> = vec![0; total];
    let mut estimate: Vec<usize> = vec![0; total];
    let mut frontier: Vec<usize> = Vec::new();
    seen.set(start, true);
    if informed {
        proof {
            maze.lemma_manhattan_fits(maze.start, maze.exit);
        }
        estimate.set(start, maze.start.distance(&maze.exit));
    }
    frontier.push(start);
    let mut decisions: usize = 0;
    let mut found = false;
    let ghost mut book = opening(maze);
    proof {
        lemma_opening(maze, informed);
        maze.lemma_spot_of_index(maze.start);
        assert(seen@ =~= book.seen);
        assert(trace@ =~= book.trace);
        assert(frontier@ =~= book.frontier);
    }
    while !found && frontier.len() > 0
        invariant
            maze.wf(),
            total == maze.width * maze.height,
            cells == maze.cell_count(),
            goal == maze.index_of(maze.exit),
            inv(maze, book, informed, -1, 0),
            book.seen == seen@,
            book.trace == trace@,
            book.frontier == frontier@,
            book.decisions == decisions,
            book.found == found,
            tables_agree(maze, book, informed, cost@, estimate@),
            run(maze, book, informed, (cells - decisions) as nat) == finished(maze, informed),
        decreases cells - decisions,
    {
        let at = least(&frontier, &cost, &estimate, Ghost(maze), Ghost(book), Ghost(informed));
        let cur = frontier.swap_remove(at);
        let ghost origin = book;
        proof {
            lemma_take(maze, book, informed);
            book = take(maze, book, informed);
        }
        let ghost base = book;
        decisions += 1;
        if cur == goal {
            found = true;
        } else {
            match maze.data.get(&cur) {
                Some(node) => {
                    let reach: usize = cost[cur] + 1;
                    let mut i: usize = 0;
                    while i < node.children.len()
                        invariant
                            maze.wf(),
                            total == maze.width * maze.height,
                            cells == maze.cell_count(),
                            goal == maze.index_of(maze.exit),
                            cur != goal,
                            maze.data@.contains_key(cur),
                            *node == maze.data@[cur],
                            0 <= i <= node.children@.len(),
                            inv(maze, book, informed, cur as int, i as int),
                            book.seen == seen@,
                            book.trace == trace@,
                            book.frontier == frontier@,
                            book.decisions == decisions,
                            book.found == found,
                            tables_agree(maze, book, informed, cost@, estimate@),
                            reach == book.depth[cur as int] + 1,
                            book == expand(maze, base, cur as int, i as nat),
                        decreases node.children@.len() - i,
                    {
                        let next = node.children[i].1;
                        proof {
                            lemma_relax(maze, book, informed, cur as int, i as int);
                            maze.lemma_key_of_spot(cur);
                            assert(maze.contains(maze.edges(cur as int)[i as int].1));
                            assert(settled_ok(maze, book, informed, cur as int, cur as int, i as int));
                            maze.lemma_manhattan_fits(next, maze.exit);
                        }
                        let ghost before = book;
                        let ghost estimated = estimate@;
                        proof {
                            book = relax(maze, book, cur as int, i as int);
                        }
                        let k = maze.index(&next);
                        if !seen[k] {
                            seen.set(k, true);
                            cost.set(k, reach);
                            trace.set(k, Some(cur));
                            if informed {
                                estimate.set(k, next.distance(&maze.exit));
                            }
                            frontier.push(k);
                        } else if reach < cost[k] {
                            cost.set(k, reach);
                            trace.set(k, Some(cur));
                        }
                        proof {
                            assert(maze.spot(k as int) == next);
                            assert(book.depth[cur as int] == before.depth[cur as int]);
                            assert forall|j: int| 0 <= j < estimate@.len() implies (
                            #[trigger] estimate@[j]) == (if book.seen[j] {
                                estimate_of(maze, informed, j)
                            } else {
                                0
                            }) by {
                                if j != k {
                                    assert(estimate@[j] == estimated[j]);
                                    assert(book.seen[j] == before.seen[j]);
                                }
                            }
                        }
                        i += 1;
                    }
                    proof {
                        lemma_done(maze, book, informed, cur as int);
                    }
                },
                None => {
                    assert(false);
                },
            }
        }
        proof {
            assert(book == round(maze, origin, informed));
        }
    }
    if !found {
        proof {
            lemma_exhausted(maze, book, informed);
        }
        return None;
    }
    proof {
        assert forall|k: int|
            0 <= k < book.rank.len() && book.rank[k] > 0 implies #[trigger] book.traced(
            maze,
            k,
        ) by {
            assert(settled_ok(maze, book, informed, k, -1, 0));
            assert(known_ok(maze, book, k));
        }
        maze.lemma_spot_of_index(maze.exit);
        assert(settled_ok(maze, book, informed, goal as int, -1, 0));
    }
    let path = retrace(maze, &trace, Ghost(book));
    let solution = Solution::new(decisions, path);
    proof {
        lemma_route(maze, book, solution.path@);
        solution.lemma_route_is_walk(maze);
        if informed {
            lemma_frugal(maze, book);
        } else {
            lemma_thorough(maze, book);
        }
    }
    Some(solution)
}

} // verus!

