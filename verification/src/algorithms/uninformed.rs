//! The search that depth-first and breadth-first share. Both discover the
//! neighbours of the cell they take from the frontier; they differ in which
//! end of the frontier they take from.
//!
//! The tables of seen cells and predecessors cover every index of the grid,
//! walls included, so a lookup takes constant time and the memory in use
//! grows with `width * height`, however few cells are traversable.

use std::collections::VecDeque;
use vstd::prelude::*;
use vstd::set_lib::lemma_len_subset;
use crate::algorithms::book::{lemma_route, opening, retrace, Book};
use crate::algorithms::{summary, Solution};
use crate::maze::Maze;
use crate::node::Point;

verus! {

/// The cell that is taken next: the newest of the frontier when `lifo`, the
/// oldest otherwise.
pub open spec fn next(book: Book, lifo: bool) -> usize {
    if lifo {
        book.frontier.last()
    } else {
        book.frontier.first()
    }
}

/// The record after the next cell has been taken from the frontier.
pub open spec fn take(maze: &Maze, book: Book, lifo: bool) -> Book {
    let cur = next(book, lifo);
    Book {
        frontier: if lifo {
            book.frontier.drop_last()
        } else {
            book.frontier.drop_first()
        },
        decisions: book.decisions + 1,
        found: cur == maze.index_of(maze.exit),
        rank: book.rank.update(cur as int, book.decisions + 1),
        level: book.depth[cur as int],
        ..book
    }
}

/// The record after edge `i` of cell `cur` has been followed: a cell that
/// had not been seen is marked, traced back to `cur` and put on the frontier.
pub open spec fn visit(maze: &Maze, book: Book, cur: int, i: int) -> Book {
    let k = maze.target(cur, i);
    if book.seen[k] {
        book
    } else {
        Book {
            seen: book.seen.update(k, true),
            trace: book.trace.update(k, Some(cur as usize)),
            frontier: book.frontier.push(k as usize),
            depth: book.depth.update(k, book.depth[cur] + 1),
            ..book
        }
    }
}

/// The record after the first `n` edges of cell `cur` have been followed.
pub open spec fn expand(maze: &Maze, book: Book, cur: int, n: nat) -> Book
    decreases n,
{
    if n == 0 {
        book
    } else {
        visit(maze, expand(maze, book, cur, (n - 1) as nat), cur, n - 1)
    }
}

/// The record after one round: the next cell is taken and, unless it is the
/// exit, all its edges are followed.
pub open spec fn round(maze: &Maze, book: Book, lifo: bool) -> Book {
    let cur = next(book, lifo);
    let taken = take(maze, book, lifo);
    if cur == maze.index_of(maze.exit) {
        taken
    } else {
        expand(maze, taken, cur as int, maze.edges(cur as int).len())
    }
}

/// The record after at most `rounds` rounds, stopping when the exit has been
/// taken or the frontier is empty.
pub open spec fn run(maze: &Maze, book: Book, lifo: bool, rounds: nat) -> Book
    decreases rounds,
{
    if rounds == 0 || book.found || book.frontier.len() == 0 {
        book
    } else {
        run(maze, round(maze, book, lifo), lifo, (rounds - 1) as nat)
    }
}

/// The record of the finished search. No search takes more rounds than the
/// maze has cells.
pub open spec fn finished(maze: &Maze, lifo: bool) -> Book {
    run(maze, opening(maze), lifo, maze.cell_count())
}

/// Edge `i` of cell `k` leads to a cell that has been seen; in a
/// breadth-first search that cell lies at most one step deeper than `k`.
pub open spec fn edge_seen(maze: &Maze, book: Book, lifo: bool, k: int, i: int) -> bool {
    let t = maze.target(k, i);
    book.seen[t] && (!lifo ==> book.depth[t] <= book.depth[k] + 1)
}

/// What holds of a cell that has been seen.
pub open spec fn seen_ok(maze: &Maze, book: Book, lifo: bool, k: int) -> bool {
    &&& book.traced(maze, k)
    &&& book.rank[k] > 0 || book.frontier.contains(k as usize)
    &&& !lifo ==> book.depth[k] <= book.level + 1
}

/// What holds of a cell that has been taken from the frontier. All its edges
/// have been followed, unless it is the exit or the cell `cur` whose edges are
/// being followed, of which the first `upto` are done.
pub open spec fn taken_ok(
    maze: &Maze,
    book: Book,
    lifo: bool,
    k: int,
    cur: int,
    upto: int,
) -> bool {
    &&& book.seen[k]
    &&& book.rank[k] <= book.decisions
    &&& !lifo ==> book.depth[k] <= book.level
    &&& k != maze.index_of(maze.exit) ==> forall|i: int|
        0 <= i < (if k == cur {
            upto
        } else {
            maze.edges(k).len() as int
        }) ==> #[trigger] edge_seen(maze, book, lifo, k, i)
}

/// What holds of the cell at position `i` of the frontier.
pub open spec fn queued_ok(maze: &Maze, book: Book, lifo: bool, i: int) -> bool {
    let k = book.frontier[i] as int;
    &&& k < maze.width * maze.height
    &&& book.seen[k]
    &&& book.rank[k] == 0
    &&& !lifo ==> book.level <= book.depth[k]
}

/// The cells of a breadth-first frontier stand in the order of their depth.
pub open spec fn layered(book: Book) -> bool {
    forall|i: int, j: int|
        0 <= i <= j < book.frontier.len() ==> book.depth[(#[trigger] book.frontier[i]) as int]
            <= book.depth[(#[trigger] book.frontier[j]) as int]
}

/// The invariant of the search. `cur` is the cell whose edges are being
/// followed, of which the first `upto` are done; between two takes `cur` is
/// negative.
pub open spec fn inv(maze: &Maze, book: Book, lifo: bool, cur: int, upto: int) -> bool {
    let n = maze.width * maze.height;
    let goal = maze.index_of(maze.exit);
    &&& book.sized(n)
    &&& book.seen[maze.index_of(maze.start)]
    &&& forall|k: int| 0 <= k < n && book.seen[k] ==> #[trigger] seen_ok(maze, book, lifo, k)
    &&& forall|k: int|
        0 <= k < n && book.rank[k] > 0 ==> #[trigger] taken_ok(maze, book, lifo, k, cur, upto)
    &&& forall|i: int| 0 <= i < book.frontier.len() ==> #[trigger] queued_ok(maze, book, lifo, i)
    &&& book.frontier.no_duplicates()
    &&& !lifo ==> layered(book)
    &&& book.found <==> book.rank[goal] > 0
    &&& book.found ==> book.rank[goal] == book.decisions
    &&& book.popped().finite()
    &&& book.popped().len() == book.decisions
    &&& book.decisions <= maze.cell_count()
    &&& 0 <= cur ==> {
        &&& cur < n
        &&& book.rank[cur] > 0
        &&& cur != goal
        &&& 0 <= upto <= maze.edges(cur).len()
        &&& !lifo ==> book.depth[cur] == book.level
    }
}

/// The search begins in a state that meets the invariant.
pub proof fn lemma_opening(maze: &Maze, lifo: bool)
    requires
        maze.wf(),
    ensures
        inv(maze, opening(maze), lifo, -1, 0),
{
    let book = opening(maze);
    let s = maze.index_of(maze.start);
    maze.lemma_index_in_range(maze.start);
    maze.lemma_index_in_range(maze.exit);
    assert(book.frontier[0] == s);
    assert(book.frontier.contains(s as usize));
    assert(queued_ok(maze, book, lifo, 0));
    assert(book.popped() =~= Set::<usize>::empty());
}

/// Taking the next cell from the frontier keeps the invariant.
pub proof fn lemma_take(maze: &Maze, book: Book, lifo: bool)
    requires
        maze.wf(),
        inv(maze, book, lifo, -1, 0),
        !book.found,
        book.frontier.len() > 0,
    ensures
        next(book, lifo) < maze.width * maze.height,
        maze.data@.contains_key(next(book, lifo)),
        book.decisions < maze.cell_count(),
        inv(
            maze,
            take(maze, book, lifo),
            lifo,
            if next(book, lifo) == maze.index_of(maze.exit) {
                -1
            } else {
                next(book, lifo) as int
            },
            0,
        ),
{
    let n = maze.width * maze.height;
    let goal = maze.index_of(maze.exit);
    let cur = next(book, lifo);
    let after = take(maze, book, lifo);
    let at = if lifo {
        book.frontier.len() - 1
    } else {
        0
    };
    let c = if cur == goal {
        -1
    } else {
        cur as int
    };
    maze.lemma_index_in_range(maze.exit);
    assert(book.frontier[at] == cur);
    assert(queued_ok(maze, book, lifo, at));
    assert(seen_ok(maze, book, lifo, cur as int));
    assert forall|i: int| 0 <= i < after.frontier.len() implies #[trigger] queued_ok(
        maze,
        after,
        lifo,
        i,
    ) by {
        let j = if lifo {
            i
        } else {
            i + 1
        };
        assert(after.frontier[i] == book.frontier[j]);
        assert(queued_ok(maze, book, lifo, j));
        assert(book.frontier[j] != book.frontier[at]);
    }
    assert forall|k: int| 0 <= k < n && after.seen[k] implies #[trigger] seen_ok(
        maze,
        after,
        lifo,
        k,
    ) by {
        assert(seen_ok(maze, book, lifo, k));
        if k != maze.index_of(maze.start) {
            let p = book.trace[k]->0 as int;
            assert(book.rank[p] > 0);
            assert(taken_ok(maze, book, lifo, p, -1, 0));
        }
        if k != cur && book.rank[k] == 0 {
            let j = choose|j: int| 0 <= j < book.frontier.len() && book.frontier[j] == k as usize;
            let i = if lifo {
                j
            } else {
                j - 1
            };
            assert(after.frontier[i] == k as usize);
        }
    }
    assert forall|k: int| 0 <= k < n && after.rank[k] > 0 implies #[trigger] taken_ok(
        maze,
        after,
        lifo,
        k,
        c,
        0,
    ) by {
        if k != cur {
            assert(book.rank[k] > 0);
            assert(taken_ok(maze, book, lifo, k, -1, 0));
            if k != goal {
                assert forall|i: int| 0 <= i < maze.edges(k).len() implies #[trigger] edge_seen(
                    maze,
                    after,
                    lifo,
                    k,
                    i,
                ) by {
                    assert(edge_seen(maze, book, lifo, k, i));
                }
            }
        }
    }
    assert(after.frontier.no_duplicates());
    if !lifo {
        assert forall|i: int, j: int| 0 <= i <= j < after.frontier.len() implies after.depth[(
        #[trigger] after.frontier[i]) as int] <= after.depth[(
        #[trigger] after.frontier[j]) as int] by {
            assert(after.frontier[i] == book.frontier[i + 1]);
            assert(after.frontier[j] == book.frontier[j + 1]);
        }
    }
    assert(after.popped() =~= book.popped().insert(cur));
    assert(!book.popped().contains(cur));
    assert(after.popped().subset_of(maze.data@.dom())) by {
        assert forall|k: usize| after.popped().contains(k) implies maze.data@.dom().contains(k) by {
            assert(after.rank[k as int] > 0);
            assert(taken_ok(maze, after, lifo, k as int, c, 0));
            assert(seen_ok(maze, after, lifo, k as int));
        }
    }
    lemma_len_subset(after.popped(), maze.data@.dom());
}

/// Following one more edge of the cell that was taken keeps the invariant.
pub proof fn lemma_visit(maze: &Maze, book: Book, lifo: bool, cur: int, i: int)
    requires
        maze.wf(),
        inv(maze, book, lifo, cur, i),
        0 <= cur,
        i < maze.edges(cur).len(),
    ensures
        0 <= maze.target(cur, i) < maze.width * maze.height,
        inv(maze, visit(maze, book, cur, i), lifo, cur, i + 1),
{
    let n = maze.width * maze.height;
    let goal = maze.index_of(maze.exit);
    let start = maze.index_of(maze.start);
    let k = maze.target(cur, i);
    let after = visit(maze, book, cur, i);
    assert(taken_ok(maze, book, lifo, cur, cur, i));
    assert(seen_ok(maze, book, lifo, cur));
    maze.lemma_key_of_spot(cur as usize);
    maze.lemma_index_in_range(maze.exit);
    maze.lemma_index_in_range(maze.start);
    assert(maze.contains(maze.edges(cur)[i].1));
    if book.seen[k] {
        assert(seen_ok(maze, book, lifo, k));
        assert(edge_seen(maze, book, lifo, cur, i));
        assert forall|j: int| 0 <= j < n && book.rank[j] > 0 implies #[trigger] taken_ok(
            maze,
            book,
            lifo,
            j,
            cur,
            i + 1,
        ) by {
            assert(taken_ok(maze, book, lifo, j, cur, i));
        }
    } else {
        if book.rank[k] > 0 {
            assert(taken_ok(maze, book, lifo, k, cur, i));
        }
        assert(book.rank[k] == 0);
        assert(after.frontier.last() == k as usize);
        assert forall|j: int| 0 <= j < after.frontier.len() implies #[trigger] queued_ok(
            maze,
            after,
            lifo,
            j,
        ) by {
            if j < book.frontier.len() {
                assert(after.frontier[j] == book.frontier[j]);
                assert(queued_ok(maze, book, lifo, j));
            }
        }
        assert forall|j: int| 0 <= j < n && after.seen[j] implies #[trigger] seen_ok(
            maze,
            after,
            lifo,
            j,
        ) by {
            if j == k {
                assert(after.frontier[after.frontier.len() - 1] == k as usize);
                assert(after.traced(maze, k));
            } else {
                assert(book.seen[j]);
                assert(seen_ok(maze, book, lifo, j));
                if j != start {
                    let p = book.trace[j]->0 as int;
                    assert(book.rank[p] > 0);
                    assert(taken_ok(maze, book, lifo, p, cur, i));
                }
                if book.rank[j] == 0 {
                    let x = choose|x: int|
                        0 <= x < book.frontier.len() && book.frontier[x] == j as usize;
                    assert(after.frontier[x] == j as usize);
                }
                assert(after.traced(maze, j));
            }
        }
        assert forall|j: int| 0 <= j < n && after.rank[j] > 0 implies #[trigger] taken_ok(
            maze,
            after,
            lifo,
            j,
            cur,
            i + 1,
        ) by {
            assert(taken_ok(maze, book, lifo, j, cur, i));
            assert(seen_ok(maze, book, lifo, j));
            maze.lemma_key_of_spot(j as usize);
            if j != goal {
                let m = if j == cur {
                    i + 1
                } else {
                    maze.edges(j).len() as int
                };
                assert forall|e: int| 0 <= e < m implies #[trigger] edge_seen(
                    maze,
                    after,
                    lifo,
                    j,
                    e,
                ) by {
                    if j == cur && e == i {
                    } else {
                        assert(edge_seen(maze, book, lifo, j, e));
                    }
                }
            }
        }
        assert(after.frontier.no_duplicates()) by {
            assert forall|x: int, y: int|
                0 <= x < after.frontier.len() && 0 <= y < after.frontier.len() && x
                    != y implies after.frontier[x] != after.frontier[y] by {
                if x < book.frontier.len() {
                    assert(queued_ok(maze, book, lifo, x));
                }
                if y < book.frontier.len() {
                    assert(queued_ok(maze, book, lifo, y));
                }
            }
        }
        if !lifo {
            assert forall|x: int, y: int| 0 <= x <= y < after.frontier.len() implies after.depth[(
            #[trigger] after.frontier[x]) as int] <= after.depth[(
            #[trigger] after.frontier[y]) as int] by {
                if x < book.frontier.len() {
                    assert(queued_ok(maze, book, lifo, x));
                    assert(seen_ok(maze, book, lifo, book.frontier[x] as int));
                }
                if y < book.frontier.len() {
                    assert(queued_ok(maze, book, lifo, y));
                }
            }
        }
        assert(after.popped() =~= book.popped());
    }
}

/// Once all edges of the cell that was taken have been followed, the
/// invariant holds with no cell in progress.
pub proof fn lemma_done(maze: &Maze, book: Book, lifo: bool, cur: int)
    requires
        inv(maze, book, lifo, cur, maze.edges(cur).len() as int),
        0 <= cur,
    ensures
        inv(maze, book, lifo, -1, 0),
{
    let n = maze.width * maze.height;
    assert forall|k: int| 0 <= k < n && book.rank[k] > 0 implies #[trigger] taken_ok(
        maze,
        book,
        lifo,
        k,
        -1,
        0,
    ) by {
        assert(taken_ok(maze, book, lifo, k, cur, maze.edges(cur).len() as int));
    }
}

/// When the frontier is empty and the exit was not taken, every cell of a
/// walk that starts at the entrance has been taken.
proof fn lemma_walk_is_taken(maze: &Maze, book: Book, lifo: bool, w: Seq<Point>, i: int)
    requires
        maze.wf(),
        inv(maze, book, lifo, -1, 0),
        !book.found,
        book.frontier.len() == 0,
        maze.is_walk(w),
        w[0] == maze.start,
        0 <= i < w.len(),
    ensures
        book.taken(maze.index_of(w[i])),
    decreases i,
{
    let k = maze.index_of(w[i]);
    maze.lemma_index_in_range(w[i]);
    assert(maze.contains(w[i]));
    if i > 0 {
        lemma_walk_is_taken(maze, book, lifo, w, i - 1);
        let p = maze.index_of(w[i - 1]);
        maze.lemma_index_in_range(w[i - 1]);
        assert(maze.contains(w[i - 1]));
        assert(book.rank[p] > 0);
        assert(taken_ok(maze, book, lifo, p, -1, 0));
        assert(maze.hop(w, i - 1));
        let e = choose|e: int|
            0 <= e < maze.node_at(w[i - 1]).children@.len() && (
            #[trigger] maze.node_at(w[i - 1]).children@[e]).1 == w[i];
        assert(edge_seen(maze, book, lifo, p, e));
        assert(maze.target(p, e) == k);
    }
    assert(book.seen[k]);
    assert(seen_ok(maze, book, lifo, k));
    if book.rank[k] == 0 {
        let x = choose|x: int| 0 <= x < book.frontier.len() && book.frontier[x] == k as usize;
        assert(false);
    }
}

/// A search that runs out of cells without taking the exit shows that no
/// walk leads from the entrance to the exit.
pub proof fn lemma_exhausted(maze: &Maze, book: Book, lifo: bool)
    requires
        maze.wf(),
        inv(maze, book, lifo, -1, 0),
        !book.found,
        book.frontier.len() == 0,
    ensures
        !maze.solvable(),
{
    if maze.solvable() {
        let w = choose|w: Seq<Point>| maze.joins(w, maze.start, maze.exit);
        lemma_walk_is_taken(maze, book, lifo, w, w.len() - 1);
    }
}

/// In a breadth-first search that has taken the exit, a walk from the
/// entrance holds, among its first `i + 1` cells, one at some position `j`
/// that has been seen and is no deeper than `j`. Unless `j` is `i` and all
/// edges of that cell have been followed, the cell is at least as deep as
/// the level of the search.
proof fn lemma_walk_depth(maze: &Maze, book: Book, w: Seq<Point>, i: int) -> (j: int)
    requires
        maze.wf(),
        inv(maze, book, false, -1, 0),
        book.found,
        book.depth[maze.index_of(maze.exit)] == book.level,
        maze.is_walk(w),
        w[0] == maze.start,
        0 <= i < w.len(),
    ensures
        0 <= j <= i,
        book.seen[maze.index_of(w[j])],
        book.depth[maze.index_of(w[j])] <= j,
        j < i || !book.taken(maze.index_of(w[i])) || maze.index_of(w[i]) == maze.index_of(
            maze.exit,
        ) ==> book.level <= book.depth[maze.index_of(w[j])],
    decreases i,
{
    let goal = maze.index_of(maze.exit);
    let k = maze.index_of(w[i]);
    maze.lemma_index_in_range(w[i]);
    maze.lemma_index_in_range(maze.start);
    assert(maze.contains(w[i]));
    if i == 0 {
        assert(seen_ok(maze, book, false, k));
        if book.rank[k] == 0 {
            lemma_waiting_is_deep(maze, book, k);
        }
        0
    } else {
        let j = lemma_walk_depth(maze, book, w, i - 1);
        let p = maze.index_of(w[i - 1]);
        maze.lemma_index_in_range(w[i - 1]);
        assert(maze.contains(w[i - 1]));
        if j < i - 1 || !book.taken(p) || p == goal {
            j
        } else {
            assert(book.rank[p] > 0);
            assert(taken_ok(maze, book, false, p, -1, 0));
            assert(maze.hop(w, i - 1));
            let e = choose|e: int|
                0 <= e < maze.node_at(w[i - 1]).children@.len() && (
                #[trigger] maze.node_at(w[i - 1]).children@[e]).1 == w[i];
            assert(edge_seen(maze, book, false, p, e));
            assert(maze.target(p, e) == k);
            assert(seen_ok(maze, book, false, k));
            if book.rank[k] == 0 {
                lemma_waiting_is_deep(maze, book, k);
            }
            i
        }
    }
}

/// A cell that was seen and not taken waits on the frontier, so it is at
/// least as deep as the level of the search.
proof fn lemma_waiting_is_deep(maze: &Maze, book: Book, k: int)
    requires
        maze.wf(),
        inv(maze, book, false, -1, 0),
        0 <= k < maze.width * maze.height,
        book.seen[k],
        book.rank[k] == 0,
    ensures
        book.level <= book.depth[k],
{
    assert(seen_ok(maze, book, false, k));
    let x = choose|x: int| 0 <= x < book.frontier.len() && book.frontier[x] == k as usize;
    assert(queued_ok(maze, book, false, x));
}

/// A breadth-first search that has just taken the exit has traced a route to
/// it that is as short as any walk from the entrance to the exit.
pub proof fn lemma_shortest(maze: &Maze, book: Book, w: Seq<Point>)
    requires
        maze.wf(),
        inv(maze, book, false, -1, 0),
        book.found,
        book.depth[maze.index_of(maze.exit)] == book.level,
        maze.joins(w, maze.start, maze.exit),
    ensures
        book.depth[maze.index_of(maze.exit)] + 1 <= w.len(),
{
    let goal = maze.index_of(maze.exit);
    let j = lemma_walk_depth(maze, book, w, w.len() - 1);
    if j == w.len() - 1 {
        assert(w[j] == maze.exit);
    }
}

/// Searches `maze` from the entrance, taking cells from the newest end of
/// the frontier when `lifo` and from the oldest end otherwise, until the exit
/// is taken or no cell is left.
pub(crate) fn explore<'a>(maze: &'a Maze, lifo: bool) -> (r: Option<Solution<'a>>)
    requires
        maze.wf(),
    ensures
        r is Some <==> maze.solvable(),
        r matches Some(s) ==> s.wf(maze) && (!lifo ==> s.shortest(maze)),
        summary(r) == finished(maze, lifo).answer(maze),
{
    let total = maze.width * maze.height;
    let cells = maze.data.len();
    let start = maze.index(&maze.start);
    let goal = maze.index(&maze.exit);
    let mut seen: Vec<bool> = vec![false; total];
    let mut trace: Vec<Option<usize>> = vec![None; total];
    let mut frontier: VecDeque<usize> = VecDeque::new();
    seen.set(start, true);
    frontier.push_back(start);
    let mut decisions: usize = 0;
    let mut found = false;
    let ghost mut book = opening(maze);
    proof {
        lemma_opening(maze, lifo);
        assert(seen@ =~= book.seen);
        assert(trace@ =~= book.trace);
        assert(frontier@ =~= book.frontier);
    }
    while !found && frontier.len() > 0
        invariant
            maze.wf(),
            total == maze.width * maze.height,
            cells == maze.cell_count(),
            goal == maze.index_of(maze.exit),
            inv(maze, book, lifo, -1, 0),
            book.seen == seen@,
            book.trace == trace@,
            book.frontier == frontier@,
            book.decisions == decisions,
            book.found == found,
            found ==> book.depth[goal as int] == book.level,
            run(maze, book, lifo, (cells - decisions) as nat) == finished(maze, lifo),
        decreases cells - decisions,
    {
        let taken = if lifo {
            frontier.pop_back()
        } else {
            frontier.pop_front()
        };
        let ghost before = book;
        proof {
            lemma_take(maze, book, lifo);
            book = take(maze, book, lifo);
        }
        let ghost base = book;
        decisions += 1;
        match taken {
            Some(cur) => {
                if cur == goal {
                    found = true;
                } else {
                    match maze.data.get(&cur) {
                        Some(node) => {
                            let mut i: usize = 0;
                            while i < node.children.len()
                                invariant
                                    maze.wf(),
                                    total == maze.width * maze.height,
                                    goal == maze.index_of(maze.exit),
                                    cur != goal,
                                    maze.data@.contains_key(cur),
                                    *node == maze.data@[cur],
                                    0 <= i <= node.children@.len(),
                                    inv(maze, book, lifo, cur as int, i as int),
                                    book.seen == seen@,
                                    book.trace == trace@,
                                    book.frontier == frontier@,
                                    book.decisions == decisions,
                                    book.found == found,
                                    book == expand(maze, base, cur as int, i as nat),
                                decreases node.children@.len() - i,
                            {
                                let next = node.children[i].1;
                                proof {
                                    lemma_visit(maze, book, lifo, cur as int, i as int);
                                    maze.lemma_key_of_spot(cur);
                                    assert(maze.contains(maze.edges(cur as int)[i as int].1));
                                    book = visit(maze, book, cur as int, i as int);
                                }
                                let k = maze.index(&next);
                                if !seen[k] {
                                    seen.set(k, true);
                                    trace.set(k, Some(cur));
                                    frontier.push_back(k);
                                }
                                i += 1;
                            }
                            proof {
                                lemma_done(maze, book, lifo, cur as int);
                            }
                        },
                        None => {
                            assert(false);
                        },
                    }
                }
            },
            None => {
                assert(false);
            },
        }
        proof {
            assert(book == round(maze, before, lifo));
        }
    }
    if !found {
        proof {
            lemma_exhausted(maze, book, lifo);
        }
        return None;
    }
    proof {
        assert forall|k: int|
            0 <= k < book.rank.len() && book.rank[k] > 0 implies #[trigger] book.traced(
            maze,
            k,
        ) by {
            assert(taken_ok(maze, book, lifo, k, -1, 0));
            assert(seen_ok(maze, book, lifo, k));
        }
        maze.lemma_index_in_range(maze.exit);
    }
    let path = retrace(maze, &trace, Ghost(book));
    let solution = Solution::new(decisions, path);
    proof {
        lemma_route(maze, book, solution.path@);
        solution.lemma_route_is_walk(maze);
        if !lifo {
            assert forall|w: Seq<Point>| #[trigger]
                maze.joins(w, maze.start, maze.exit) implies solution.path@.len() <= w.len() by {
                lemma_shortest(maze, book, w);
            }
        }
    }
    Some(solution)
}

} // verus!
