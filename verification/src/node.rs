//! Cells of the maze graph: coordinates, directions and nodes.

use vstd::prelude::*;

verus! {

/// A grid coordinate: column `x` and row `y`, counted from the top-left corner.
#[derive(Clone, Copy, Debug, PartialEq, Eq, Hash, Structural)]
pub struct Point {
    pub x: usize,
    pub y: usize,
}

/// One of the four axis-aligned directions of movement on the grid.
/// `Up` leads to the row with the smaller `y`.
#[derive(Clone, Copy, Debug, PartialEq, Eq, Hash, Structural)]
pub enum Direction {
    Up,
    Right,
    Down,
    Left,
}

/// The role of a node: the entrance, the exit, or an ordinary cell.
#[derive(Clone, Copy, Debug, PartialEq, Eq, Hash, Structural)]
pub enum NodeType {
    Start,
    Exit,
    Path,
}

/// A traversable cell with the edges that leave it. Each edge names the
/// direction of movement and the coordinate of the cell it reaches.
#[derive(Clone, Debug, PartialEq, Eq)]
pub struct Node {
    pub point: Point,
    pub role: NodeType,
    pub children: Vec<(Direction, Point)>,
}

/// The absolute difference of two numbers.
pub open spec fn gap(a: int, b: int) -> nat {
    if a <= b {
        (b - a) as nat
    } else {
        (a - b) as nat
    }
}

impl Point {
    /// `to` is the cell next to `self` in direction `d`.
    pub open spec fn faces(self, d: Direction, to: Point) -> bool {
        match d {
            Direction::Up => to.x == self.x && to.y + 1 == self.y,
            Direction::Right => to.x == self.x + 1 && to.y == self.y,
            Direction::Down => to.x == self.x && to.y == self.y + 1,
            Direction::Left => to.x + 1 == self.x && to.y == self.y,
        }
    }

    /// Tells whether `to` is the cell next to `self` in direction `d`.
    pub fn is_next(&self, d: Direction, to: &Point) -> (r: bool)
        ensures
            r == self.faces(d, *to),
    {
        match d {
            Direction::Up => to.x == self.x && to.y < self.y && self.y - to.y == 1,
            Direction::Right => to.y == self.y && self.x < to.x && to.x - self.x == 1,
            Direction::Down => to.x == self.x && self.y < to.y && to.y - self.y == 1,
            Direction::Left => to.y == self.y && to.x < self.x && self.x - to.x == 1,
        }
    }

    /// The Manhattan distance between two points.
    pub open spec fn manhattan(self, other: Point) -> nat {
        gap(self.x as int, other.x as int) + gap(self.y as int, other.y as int)
    }

    /// Cells that face each other are one step apart, so their distances to
    /// any third point differ by at most one.
    pub proof fn lemma_step_changes_manhattan_by_one(self, d: Direction, to: Point, goal: Point)
        requires
            self.faces(d, to),
        ensures
            self.manhattan(goal) <= to.manhattan(goal) + 1,
            to.manhattan(goal) <= self.manhattan(goal) + 1,
    {
    }

    /// Computes the Manhattan distance to `other`.
    pub fn distance(&self, other: &Point) -> (d: usize)
        requires
            self.manhattan(*other) <= usize::MAX,
        ensures
            d == self.manhattan(*other),
    {
        let dx: usize = if self.x <= other.x {
            other.x - self.x
        } else {
            self.x - other.x
        };
        let dy: usize = if self.y <= other.y {
            other.y - self.y
        } else {
            self.y - other.y
        };
        dx + dy
    }
}

impl Direction {
    /// The direction a quarter turn to the left of `self`.
    pub open spec fn spec_left(self) -> Direction {
        match self {
            Direction::Up => Direction::Left,
            Direction::Left => Direction::Down,
            Direction::Down => Direction::Right,
            Direction::Right => Direction::Up,
        }
    }

    /// The direction opposite to `self`.
    pub open spec fn spec_reverse(self) -> Direction {
        self.spec_left().spec_left()
    }

    /// The direction a quarter turn to the right of `self`.
    pub open spec fn spec_right(self) -> Direction {
        self.spec_reverse().spec_left()
    }

    /// Turns a quarter to the left.
    #[verifier::when_used_as_spec(spec_left)]
    pub fn left(self) -> (d: Direction)
        ensures
            d == self.spec_left(),
    {
        match self {
            Direction::Up => Direction::Left,
            Direction::Left => Direction::Down,
            Direction::Down => Direction::Right,
            Direction::Right => Direction::Up,
        }
    }

    /// Turns a quarter to the right.
    #[verifier::when_used_as_spec(spec_right)]
    pub fn right(self) -> (d: Direction)
        ensures
            d == self.spec_right(),
    {
        match self {
            Direction::Up => Direction::Right,
            Direction::Right => Direction::Down,
            Direction::Down => Direction::Left,
            Direction::Left => Direction::Up,
        }
    }

    /// Turns around.
    #[verifier::when_used_as_spec(spec_reverse)]
    pub fn reverse(self) -> (d: Direction)
        ensures
            d == self.spec_reverse(),
    {
        match self {
            Direction::Up => Direction::Down,
            Direction::Right => Direction::Left,
            Direction::Down => Direction::Up,
            Direction::Left => Direction::Right,
        }
    }
}

} // verus!
