//! Building the maze graph from a bitmap of traversable cells.

use std::collections::HashMap;
use vstd::prelude::*;
use crate::maze::Maze;
use crate::node::{Direction, Node, NodeType, Point};

verus! {

/// Why a bitmap is not a maze.
#[derive(Clone, Copy, Debug, PartialEq, Eq, Structural)]
pub enum MazeError {
    /// The bitmap does not hold `width * height` cells, or that many cells
    /// cannot be indexed.
    Shape,
    /// The top row does not hold exactly one traversable cell.
    Entrance,
    /// The bitmap has a single row, or the bottom row does not hold exactly
    /// one traversable cell.
    Exit,
}

/// The cell in column `x` of row `y` is traversable. The bitmap holds its
/// rows one after the other, each `width` cells long.
pub open spec fn lit(width: usize, open: Seq<bool>, x: int, y: int) -> bool {
    open[y * width + x]
}

/// Column `x` holds the only traversable cell of row `y`.
pub open spec fn sole_in_row(width: usize, height: usize, open: Seq<bool>, y: int, x: int) -> bool {
    &&& 0 <= x < width
    &&& 0 <= y < height
    &&& lit(width, open, x, y)
    &&& forall|other: int|
        0 <= other < width && #[trigger] lit(width, open, other, y) ==> other == x
}

/// Row `y` holds exactly one traversable cell.
pub open spec fn has_sole(width: usize, height: usize, open: Seq<bool>, y: int) -> bool {
    exists|x: int| #[trigger] sole_in_row(width, height, open, y, x)
}

/// The edges of the cell at `p`: one to each traversable neighbour, in the
/// order up, right, down, left.
pub open spec fn neighbours(width: usize, height: usize, open: Seq<bool>, p: Point) -> Seq<
    (Direction, Point),
> {
    let up = if p.y > 0 && lit(width, open, p.x as int, p.y - 1) {
        seq![(Direction::Up, Point { x: p.x, y: (p.y - 1) as usize })]
    } else {
        seq![]
    };
    let right = if p.x + 1 < width && lit(width, open, p.x + 1, p.y as int) {
        seq![(Direction::Right, Point { x: (p.x + 1) as usize, y: p.y })]
    } else {
        seq![]
    };
    let down = if p.y + 1 < height && lit(width, open, p.x as int, p.y + 1) {
        seq![(Direction::Down, Point { x: p.x, y: (p.y + 1) as usize })]
    } else {
        seq![]
    };
    let left = if p.x > 0 && lit(width, open, p.x - 1, p.y as int) {
        seq![(Direction::Left, Point { x: (p.x - 1) as usize, y: p.y })]
    } else {
        seq![]
    };
    up + right + down + left
}

/// What is wrong with a bitmap, if anything. The shape is judged first, then
/// the entrance, then the exit.
pub open spec fn grid_error(width: usize, height: usize, open: Seq<bool>) -> Option<MazeError> {
    if width * height > usize::MAX || open.len() != width * height {
        Some(MazeError::Shape)
    } else if !has_sole(width, height, open, 0) {
        Some(MazeError::Entrance)
    } else if height < 2 || !has_sole(width, height, open, height - 1) {
        Some(MazeError::Exit)
    } else {
        None
    }
}

/// `maze` is the graph of the bitmap: its cells are the traversable cells,
/// its entrance is the one in the top row and its exit the one in the bottom
/// row, and the edges of each cell are its `neighbours`.
pub open spec fn depicts(maze: &Maze, width: usize, height: usize, open: Seq<bool>) -> bool {
    &&& maze.width == width
    &&& maze.height == height
    &&& maze.start.y == 0
    &&& sole_in_row(width, height, open, 0, maze.start.x as int)
    &&& maze.exit.y == height - 1
    &&& sole_in_row(width, height, open, height - 1, maze.exit.x as int)
    &&& forall|p: Point|
        p.x < width && p.y < height ==> (#[trigger] maze.contains(p) <==> lit(
            width,
            open,
            p.x as int,
            p.y as int,
        ))
    &&& forall|p: Point| #[trigger]
        maze.contains(p) ==> maze.node_at(p).point == p && maze.node_at(p).children@ == neighbours(
            width,
            height,
            open,
            p,
        )
}

/// The node stored under `key` is the node of a traversable cell with an
/// index below `upto`.
pub open spec fn placed(
    data: Map<usize, Node>,
    width: usize,
    height: usize,
    open: Seq<bool>,
    start: Point,
    exit: Point,
    upto: int,
    key: usize,
) -> bool {
    let n = data[key];
    &&& n.point.x < width
    &&& n.point.y < height
    &&& n.point.y * width + n.point.x == key
    &&& key < upto
    &&& lit(width, open, n.point.x as int, n.point.y as int)
    &&& (n.role is Start <==> n.point == start)
    &&& (n.role is Exit <==> n.point == exit)
    &&& n.children@ == neighbours(width, height, open, n.point)
}

/// `data` holds the nodes of exactly the traversable cells with an index
/// below `upto`.
pub open spec fn built(
    data: Map<usize, Node>,
    width: usize,
    height: usize,
    open: Seq<bool>,
    start: Point,
    exit: Point,
    upto: int,
) -> bool {
    &&& forall|key: usize|
        data.contains_key(key) ==> #[trigger] placed(
            data,
            width,
            height,
            open,
            start,
            exit,
            upto,
            key,
        )
    &&& forall|x: int, y: int|
        0 <= x < width && 0 <= y < height && y * width + x < upto && #[trigger] lit(
            width,
            open,
            x,
            y,
        ) ==> data.contains_key((y * width + x) as usize)
}

/// Facts on the index of a cell of the grid: it lies below the number of
/// cells, and the cells above and below lie one row's width away.
pub proof fn lemma_cell_index(width: usize, height: usize, x: int, y: int)
    requires
        0 <= x < width,
        0 <= y < height,
    ensures
        0 <= y * width <= y * width + x < width * height,
        (y + 1) * width == y * width + width,
        (y - 1) * width == y * width - width,
        y + 1 < height ==> (y + 1) * width + x < width * height,
        y > 0 ==> 0 <= (y - 1) * width,
{
    let w = width as int;
    let h = height as int;
    assert((y + 1) * w == y * w + w) by (nonlinear_arith);
    assert((y - 1) * w == y * w - w) by (nonlinear_arith);
    assert(0 <= y * w) by (nonlinear_arith)
        requires
            0 <= y,
            0 <= w,
    ;
    assert((y + 1) * w <= h * w) by (nonlinear_arith)
        requires
            y + 1 <= h,
            0 <= w,
    ;
    assert(h * w == w * h) by (nonlinear_arith);
    if y > 0 {
        assert(0 <= (y - 1) * w) by (nonlinear_arith)
            requires
                0 <= y - 1,
                0 <= w,
        ;
    }
    if y + 1 < h {
        assert((y + 2) * w <= h * w) by (nonlinear_arith)
            requires
                y + 2 <= h,
                0 <= w,
        ;
        assert((y + 2) * w == (y + 1) * w + w) by (nonlinear_arith);
    }
}

/// Every edge among the `neighbours` of a cell leads to the traversable
/// cell next to it in the direction of the edge.
pub proof fn lemma_neighbours(width: usize, height: usize, open: Seq<bool>, p: Point, i: int)
    requires
        p.x < width,
        p.y < height,
        0 <= i < neighbours(width, height, open, p).len(),
    ensures
        p.faces(neighbours(width, height, open, p)[i].0, neighbours(width, height, open, p)[i].1),
        neighbours(width, height, open, p)[i].1.x < width,
        neighbours(width, height, open, p)[i].1.y < height,
        lit(
            width,
            open,
            neighbours(width, height, open, p)[i].1.x as int,
            neighbours(width, height, open, p)[i].1.y as int,
        ),
{
    let up: Seq<(Direction, Point)> = if p.y > 0 && lit(width, open, p.x as int, p.y - 1) {
        seq![(Direction::Up, Point { x: p.x, y: (p.y - 1) as usize })]
    } else {
        seq![]
    };
    let right: Seq<(Direction, Point)> = if p.x + 1 < width && lit(
        width,
        open,
        p.x + 1,
        p.y as int,
    ) {
        seq![(Direction::Right, Point { x: (p.x + 1) as usize, y: p.y })]
    } else {
        seq![]
    };
    let down: Seq<(Direction, Point)> = if p.y + 1 < height && lit(
        width,
        open,
        p.x as int,
        p.y + 1,
    ) {
        seq![(Direction::Down, Point { x: p.x, y: (p.y + 1) as usize })]
    } else {
        seq![]
    };
    let left: Seq<(Direction, Point)> = if p.x > 0 && lit(width, open, p.x - 1, p.y as int) {
        seq![(Direction::Left, Point { x: (p.x - 1) as usize, y: p.y })]
    } else {
        seq![]
    };
    let all = neighbours(width, height, open, p);
    assert(all == up + right + down + left);
    let a = up.len() as int;
    let b = a + right.len();
    let c = b + down.len();
    if i < a {
        assert(all[i] == up[i]);
    } else if i < b {
        assert(all[i] == right[i - a]);
    } else if i < c {
        assert(all[i] == down[i - b]);
    } else {
        assert(all[i] == left[i - c]);
    }
}

/// Finds the column of the only traversable cell of the row that begins at
/// index `base`.
fn find_sole(
    width: usize,
    open: &Vec<bool>,
    base: usize,
    Ghost(height): Ghost<usize>,
    Ghost(y): Ghost<int>,
) -> (r: Option<usize>)
    requires
        0 <= y < height,
        base == y * width,
        open@.len() == width * height,
        width * height <= usize::MAX,
    ensures
        r matches Some(x) ==> sole_in_row(width, height, open@, y, x as int),
        r is None ==> forall|x: int| !sole_in_row(width, height, open@, y, x),
{
    let mut found: Option<usize> = None;
    let mut x: usize = 0;
    while x < width
        invariant
            0 <= y < height,
            base == y * width,
            open@.len() == width * height,
            width * height <= usize::MAX,
            0 <= x <= width,
            found matches Some(f) ==> f < x && lit(width, open@, f as int, y),
            found matches Some(f) ==> forall|other: int|
                0 <= other < x && #[trigger] lit(width, open@, other, y) ==> other == f,
            found is None ==> forall|other: int|
                0 <= other < x ==> !#[trigger] lit(width, open@, other, y),
        decreases width - x,
    {
        proof {
            lemma_cell_index(width, height, x as int, y);
        }
        if open[base + x] {
            match found {
                Some(f) => {
                    proof {
                        assert(lit(width, open@, x as int, y));
                        assert forall|c: int| !sole_in_row(width, height, open@, y, c) by {
                            if sole_in_row(width, height, open@, y, c) {
                                assert(lit(width, open@, f as int, y));
                                assert(lit(width, open@, x as int, y));
                            }
                        }
                    }
                    return None;
                },
                None => {
                    found = Some(x);
                },
            }
        }
        x += 1;
    }
    proof {
        if found is None {
            assert forall|c: int| !sole_in_row(width, height, open@, y, c) by {
                if sole_in_row(width, height, open@, y, c) {
                    assert(lit(width, open@, c, y));
                }
            }
        }
    }
    found
}

impl Maze {
    /// Builds the maze of a bitmap. `open` holds the rows of the bitmap one
    /// after the other, `true` for a traversable cell. The only traversable
    /// cell of the top row becomes the entrance, that of the bottom row the
    /// exit, and every traversable cell gets an edge to each traversable
    /// neighbour.
    pub fn from_grid(width: usize, height: usize, open: &Vec<bool>) -> (r: Result<Maze, MazeError>)
        ensures
            match r {
                Ok(maze) => grid_error(width, height, open@) is None && maze.wf() && depicts(
                    &maze,
                    width,
                    height,
                    open@,
                ),
                Err(e) => grid_error(width, height, open@) == Some(e),
            },
    {
        let total = match width.checked_mul(height) {
            Some(total) => total,
            None => {
                return Err(MazeError::Shape);
            },
        };
        if open.len() != total {
            return Err(MazeError::Shape);
        }
        if height == 0 {
            assert forall|x: int| !sole_in_row(width, height, open@, 0, x) by {}
            return Err(MazeError::Entrance);
        }
        let start_x = match find_sole(width, open, 0, Ghost(height), Ghost(0)) {
            Some(x) => x,
            None => {
                return Err(MazeError::Entrance);
            },
        };
        if height < 2 {
            return Err(MazeError::Exit);
        }
        proof {
            lemma_cell_index(width, height, 0, height - 1);
            assert(height * width == width * height) by (nonlinear_arith);
        }
        let last_row = total - width;
        let exit_x = match find_sole(width, open, last_row, Ghost(height), Ghost(height - 1)) {
            Some(x) => x,
            None => {
                return Err(MazeError::Exit);
            },
        };
        let start = Point { x: start_x, y: 0 };
        let exit = Point { x: exit_x, y: height - 1 };
        let mut data: HashMap<usize, Node> = HashMap::new();
        let mut k: usize = 0;
        let mut y: usize = 0;
        while y < height
            invariant
                total == width * height,
                open@.len() == total,
                0 <= y <= height,
                k == y * width,
                start == (Point { x: start_x, y: 0 }),
                exit == (Point { x: exit_x, y: (height - 1) as usize }),
                height >= 2,
                built(data@, width, height, open@, start, exit, k as int),
            decreases height - y,
        {
            let mut x: usize = 0;
            while x < width
                invariant
                    total == width * height,
                    open@.len() == total,
                    0 <= y < height,
                    0 <= x <= width,
                    k == y * width + x,
                    start == (Point { x: start_x, y: 0 }),
                    exit == (Point { x: exit_x, y: (height - 1) as usize }),
                    height >= 2,
                    built(data@, width, height, open@, start, exit, k as int),
                decreases width - x,
            {
                proof {
                    lemma_cell_index(width, height, x as int, y as int);
                    if x + 1 < width {
                        lemma_cell_index(width, height, x + 1, y as int);
                    }
                }
                let ghost before = data@;
                if open[k] {
                    let here = Point { x, y };
                    let mut children: Vec<(Direction, Point)> = Vec::new();
                    if y > 0 && open[k - width] {
                        children.push((Direction::Up, Point { x, y: y - 1 }));
                    }
                    if x + 1 < width && open[k + 1] {
                        children.push((Direction::Right, Point { x: x + 1, y }));
                    }
                    if y + 1 < height && open[k + width] {
                        children.push((Direction::Down, Point { x, y: y + 1 }));
                    }
                    if x > 0 && open[k - 1] {
                        children.push((Direction::Left, Point { x: x - 1, y }));
                    }
                    let role = if y == 0 && x == start_x {
                        NodeType::Start
                    } else if y == height - 1 && x == exit_x {
                        NodeType::Exit
                    } else {
                        NodeType::Path
                    };
                    proof {
                        assert(children@ =~= neighbours(width, height, open@, here));
                    }
                    data.insert(k, Node { point: here, role, children });
                }
                proof {
                    assert forall|key: usize| data@.contains_key(key) implies #[trigger] placed(
                        data@,
                        width,
                        height,
                        open@,
                        start,
                        exit,
                        k + 1,
                        key,
                    ) by {
                        if key != k {
                            assert(placed(
                                before,
                                width,
                                height,
                                open@,
                                start,
                                exit,
                                k as int,
                                key,
                            ));
                        }
                    }
                    assert forall|cx: int, cy: int|
                        0 <= cx < width && 0 <= cy < height && cy * width + cx < k + 1
                            && #[trigger] lit(width, open@, cx, cy) implies data@.contains_key(
                        (cy * width + cx) as usize,
                    ) by {
                        if cy * width + cx < k {
                            assert(before.contains_key((cy * width + cx) as usize));
                        }
                    }
                }
                k += 1;
                x += 1;
            }
            proof {
                assert((y + 1) * width == y * width + width) by (nonlinear_arith);
            }
            y += 1;
        }
        let maze = Maze { width, height, start, exit, data };
        proof {
            lemma_built_is_maze(&maze, open@);
        }
        Ok(maze)
    }
}

/// A maze whose nodes were built from all cells of a bitmap is well formed
/// and is the graph of the bitmap.
proof fn lemma_built_is_maze(maze: &Maze, open: Seq<bool>)
    requires
        maze.width * maze.height <= usize::MAX,
        open.len() == maze.width * maze.height,
        maze.height >= 2,
        maze.start.y == 0,
        sole_in_row(maze.width, maze.height, open, 0, maze.start.x as int),
        maze.exit.y == maze.height - 1,
        sole_in_row(maze.width, maze.height, open, maze.height - 1, maze.exit.x as int),
        built(
            maze.data@,
            maze.width,
            maze.height,
            open,
            maze.start,
            maze.exit,
            maze.width * maze.height,
        ),
    ensures
        maze.wf(),
        depicts(maze, maze.width, maze.height, open),
{
    let (width, height) = (maze.width, maze.height);
    let total = width * height;
    assert forall|p: Point| p.x < width && p.y < height implies (#[trigger] maze.contains(p)
        <==> lit(width, open, p.x as int, p.y as int)) by {
        lemma_cell_index(width, height, p.x as int, p.y as int);
        let key = maze.index_of(p) as usize;
        if maze.contains(p) {
            assert(placed(maze.data@, width, height, open, maze.start, maze.exit, total, key));
            maze.lemma_index_injective(maze.data@[key].point, p);
        }
        if lit(width, open, p.x as int, p.y as int) {
            assert(maze.data@.contains_key((p.y * width + p.x) as usize));
        }
    }
    assert forall|p: Point| #[trigger] maze.contains(p) implies maze.node_at(p).point == p
        && maze.node_at(p).children@ == neighbours(width, height, open, p) by {
        lemma_cell_index(width, height, p.x as int, p.y as int);
        let key = maze.index_of(p) as usize;
        assert(placed(maze.data@, width, height, open, maze.start, maze.exit, total, key));
        maze.lemma_index_injective(maze.data@[key].point, p);
    }
    assert(maze.contains(maze.start));
    assert(maze.contains(maze.exit));
    assert forall|k: usize| maze.data@.contains_key(k) implies #[trigger] maze.node_ok(k) by {
        assert(placed(maze.data@, width, height, open, maze.start, maze.exit, total, k));
        let n = maze.data@[k];
        assert forall|i: int| 0 <= i < n.children@.len() implies #[trigger] maze.edge_ok(
            n.point,
            n.children@[i],
        ) by {
            lemma_neighbours(width, height, open, n.point, i);
            let to = n.children@[i].1;
            assert(maze.contains(to));
        }
    }
}

} // verus!
