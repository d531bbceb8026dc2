//! The maze graph and what it means for it to be well formed.

use std::collections::HashMap;
use vstd::prelude::*;
use vstd::set_lib::lemma_subset_equality;
use crate::node::{Direction, Node, NodeType, Point};

verus! {

/// The graph of a maze: the extents of the grid and its traversable cells,
/// keyed by their linear index `y * width + x`. The role of a cell is an
/// attribute of its node; the entrance and the exit are also named by their
/// coordinates, so each is found without a search.
#[derive(Clone, Debug)]
pub struct Maze {
    pub width: usize,
    pub height: usize,
    pub start: Point,
    pub exit: Point,
    pub data: HashMap<usize, Node>,
}

impl Maze {
    /// The linear index of a coordinate.
    pub open spec fn index_of(&self, p: Point) -> int {
        p.y * self.width + p.x
    }

    /// `p` lies on the grid.
    pub open spec fn in_bounds(&self, p: Point) -> bool {
        p.x < self.width && p.y < self.height
    }

    /// `p` is a traversable cell of this maze.
    pub open spec fn contains(&self, p: Point) -> bool {
        self.in_bounds(p) && self.data@.contains_key(self.index_of(p) as usize)
    }

    /// The node of the traversable cell `p`.
    pub open spec fn node_at(&self, p: Point) -> Node
        recommends
            self.contains(p),
    {
        self.data@[self.index_of(p) as usize]
    }

    /// An edge leaving `from` is sound: it reaches the neighbouring cell in
    /// its direction, and that cell is traversable.
    pub open spec fn edge_ok(&self, from: Point, edge: (Direction, Point)) -> bool {
        from.faces(edge.0, edge.1) && self.contains(edge.1)
    }

    /// The node stored under key `k` is sound: it lies on the grid at the
    /// place its key says, its role agrees with the maze's entrance and exit,
    /// and all its edges are sound.
    pub open spec fn node_ok(&self, k: usize) -> bool {
        let n = self.data@[k];
        &&& self.in_bounds(n.point)
        &&& self.index_of(n.point) == k
        &&& (n.role is Start <==> n.point == self.start)
        &&& (n.role is Exit <==> n.point == self.exit)
        &&& forall|i: int|
            0 <= i < n.children@.len() ==> #[trigger] self.edge_ok(n.point, n.children@[i])
    }

    /// The maze invariant: the grid can be indexed, the entrance and the exit
    /// are cells of the maze, and every node is sound. Since a node has one
    /// role, exactly one node is the entrance and exactly one other is the exit.
    pub open spec fn wf(&self) -> bool {
        &&& self.width * self.height <= usize::MAX
        &&& self.contains(self.start)
        &&& self.contains(self.exit)
        &&& forall|k: usize| self.data@.contains_key(k) ==> #[trigger] self.node_ok(k)
    }

    /// In a well-formed maze one node is the entrance and another is the
    /// exit: the entrance is the only node with that role, and so is the exit.
    pub proof fn lemma_one_entrance_one_exit(&self)
        requires
            self.wf(),
        ensures
            self.start != self.exit,
            self.node_at(self.start).role is Start,
            self.node_at(self.exit).role is Exit,
            forall|k: usize|
                self.data@.contains_key(k) && (#[trigger] self.data@[k]).role is Start ==> k
                    == self.index_of(self.start),
            forall|k: usize|
                self.data@.contains_key(k) && (#[trigger] self.data@[k]).role is Exit ==> k
                    == self.index_of(self.exit),
    {
        self.lemma_index_in_range(self.start);
        self.lemma_index_in_range(self.exit);
        let s = self.index_of(self.start) as usize;
        let e = self.index_of(self.exit) as usize;
        assert(self.node_ok(s));
        assert(self.node_ok(e));
        self.lemma_index_injective(self.data@[s].point, self.start);
        self.lemma_index_injective(self.data@[e].point, self.exit);
        assert forall|k: usize|
            self.data@.contains_key(k) && (#[trigger] self.data@[k]).role is Start implies k
            == self.index_of(self.start) by {
            assert(self.node_ok(k));
        }
        assert forall|k: usize|
            self.data@.contains_key(k) && (#[trigger] self.data@[k]).role is Exit implies k
            == self.index_of(self.exit) by {
            assert(self.node_ok(k));
        }
    }

    /// The coordinate of the node stored under key `k`.
    pub open spec fn spot(&self, k: int) -> Point {
        self.data@[k as usize].point
    }

    /// The edges of the node stored under key `k`.
    pub open spec fn edges(&self, k: int) -> Seq<(Direction, Point)> {
        self.data@[k as usize].children@
    }

    /// The key of the cell that edge `i` of the node under key `k` reaches.
    pub open spec fn target(&self, k: int, i: int) -> int {
        self.index_of(self.edges(k)[i].1)
    }

    /// An edge leads from cell `a` to cell `b`.
    pub open spec fn linked(&self, a: Point, b: Point) -> bool {
        &&& self.contains(a)
        &&& exists|i: int|
            0 <= i < self.node_at(a).children@.len() && (#[trigger] self.node_at(a).children@[i]).1
                == b
    }

    /// An edge leads from the cell at position `i` of `w` to the next one.
    pub open spec fn hop(&self, w: Seq<Point>, i: int) -> bool {
        self.linked(w[i], w[i + 1])
    }

    /// `w` is a walk through the maze: a sequence of at least one cell in
    /// which an edge leads from each cell to the next.
    pub open spec fn is_walk(&self, w: Seq<Point>) -> bool {
        &&& w.len() > 0
        &&& forall|i: int| 0 <= i < w.len() ==> self.contains(#[trigger] w[i])
        &&& forall|i: int| 0 <= i < w.len() - 1 ==> #[trigger] self.hop(w, i)
    }

    /// `w` is a walk that begins at `from` and ends at `to`.
    pub open spec fn joins(&self, w: Seq<Point>, from: Point, to: Point) -> bool {
        self.is_walk(w) && w[0] == from && w.last() == to
    }

    /// Some walk of `len` cells leads from the entrance to `to`.
    pub open spec fn reached_in(&self, to: Point, len: nat) -> bool {
        exists|w: Seq<Point>| #[trigger] self.joins(w, self.start, to) && w.len() == len
    }

    /// No walk from the entrance to `to` has fewer than `len` cells.
    pub open spec fn no_shorter(&self, to: Point, len: nat) -> bool {
        forall|w: Seq<Point>| #[trigger] self.joins(w, self.start, to) ==> len <= w.len()
    }

    /// The keys of the cells that some walk of at most `len` cells reaches
    /// from the entrance.
    pub open spec fn within(&self, len: nat) -> Set<usize> {
        Set::new(
            |k: usize|
                self.data@.contains_key(k) && exists|w: Seq<Point>| #[trigger]
                    self.joins(w, self.start, self.spot(k as int)) && w.len() <= len,
        )
    }

    /// The keys of the maze below `k`.
    pub open spec fn keys_below(&self, k: usize) -> Set<usize> {
        Set::new(|j: usize| j < k && self.data@.contains_key(j))
    }

    /// Some walk leads from the entrance to the exit.
    pub open spec fn solvable(&self) -> bool {
        exists|w: Seq<Point>| self.joins(w, self.start, self.exit)
    }

    /// The number of traversable cells.
    pub open spec fn cell_count(&self) -> nat {
        self.data@.dom().len()
    }

    /// On the grid, the linear index stays below `width * height`.
    pub proof fn lemma_index_in_range(&self, p: Point)
        requires
            self.in_bounds(p),
        ensures
            0 <= self.index_of(p) < self.width * self.height,
    {
        assert((p.y + 1) * self.width <= self.height * self.width) by (nonlinear_arith)
            requires
                p.y + 1 <= self.height,
                0 <= self.width,
        ;
        assert((p.y + 1) * self.width == p.y * self.width + self.width) by (nonlinear_arith);
        assert(self.height * self.width == self.width * self.height) by (nonlinear_arith);
        assert(0 <= p.y * self.width) by (nonlinear_arith)
            requires
                0 <= p.y,
                0 <= self.width,
        ;
    }

    /// Two coordinates on the grid with the same linear index are the same.
    pub proof fn lemma_index_injective(&self, p: Point, q: Point)
        requires
            self.in_bounds(p),
            self.in_bounds(q),
            self.index_of(p) == self.index_of(q),
        ensures
            p == q,
    {
        let w = self.width as int;
        let (py, qy) = (p.y as int, q.y as int);
        if py < qy {
            assert((py + 1) * w <= qy * w) by (nonlinear_arith)
                requires
                    py + 1 <= qy,
                    0 <= w,
            ;
            assert((py + 1) * w == py * w + w) by (nonlinear_arith);
        } else if qy < py {
            assert((qy + 1) * w <= py * w) by (nonlinear_arith)
                requires
                    qy + 1 <= py,
                    0 <= w,
            ;
            assert((qy + 1) * w == qy * w + w) by (nonlinear_arith);
        }
    }

    /// In a well-formed maze, the node under a key is the node of its own
    /// coordinate, and each of its edges is a link of the graph.
    pub proof fn lemma_key_of_spot(&self, k: usize)
        requires
            self.wf(),
            self.data@.contains_key(k),
        ensures
            self.contains(self.spot(k as int)),
            self.index_of(self.spot(k as int)) == k,
            self.node_at(self.spot(k as int)) == self.data@[k],
            forall|i: int|
                0 <= i < self.edges(k as int).len() ==> {
                    &&& self.contains((#[trigger] self.edges(k as int)[i]).1)
                    &&& self.linked(self.spot(k as int), self.edges(k as int)[i].1)
                    &&& self.spot(self.target(k as int, i)) == self.edges(k as int)[i].1
                    &&& 0 <= self.target(k as int, i) < self.width * self.height
                    &&& self.data@.contains_key(self.target(k as int, i) as usize)
                },
    {
        assert(self.node_ok(k));
        let p = self.spot(k as int);
        assert forall|i: int| 0 <= i < self.edges(k as int).len() implies {
            &&& self.contains((#[trigger] self.edges(k as int)[i]).1)
            &&& self.linked(self.spot(k as int), self.edges(k as int)[i].1)
            &&& self.spot(self.target(k as int, i)) == self.edges(k as int)[i].1
            &&& 0 <= self.target(k as int, i) < self.width * self.height
            &&& self.data@.contains_key(self.target(k as int, i) as usize)
        } by {
            let e = self.edges(k as int)[i];
            assert(self.edge_ok(p, self.data@[k].children@[i]));
            self.lemma_index_in_range(e.1);
            let t = self.target(k as int, i) as usize;
            assert(self.node_ok(t));
            self.lemma_index_injective(self.spot(t as int), e.1);
            assert(self.node_at(p).children@[i].1 == e.1);
        }
    }

    /// In a well-formed maze, a traversable cell is the coordinate of the
    /// node stored under its linear index.
    pub proof fn lemma_spot_of_index(&self, p: Point)
        requires
            self.wf(),
            self.contains(p),
        ensures
            0 <= self.index_of(p) < self.width * self.height,
            self.data@.contains_key(self.index_of(p) as usize),
            self.spot(self.index_of(p)) == p,
    {
        self.lemma_index_in_range(p);
        let k = self.index_of(p) as usize;
        assert(self.node_ok(k));
        self.lemma_index_injective(self.spot(k as int), p);
    }

    /// An edge joins neighbouring cells, so the Manhattan distances of its
    /// two ends to any point differ by at most one.
    pub proof fn lemma_link_is_step(&self, a: Point, b: Point, goal: Point)
        requires
            self.wf(),
            self.linked(a, b),
        ensures
            a.manhattan(goal) <= b.manhattan(goal) + 1,
    {
        self.lemma_spot_of_index(a);
        let k = self.index_of(a) as usize;
        let e = choose|e: int|
            0 <= e < self.node_at(a).children@.len() && (#[trigger] self.node_at(a).children@[e]).1
                == b;
        assert(self.node_ok(k));
        assert(self.edge_ok(a, self.data@[k].children@[e]));
        a.lemma_step_changes_manhattan_by_one(self.data@[k].children@[e].0, b, goal);
    }

    /// Along a walk the Manhattan distance to any point falls by at most one
    /// per step.
    pub proof fn lemma_walk_bounds_manhattan(&self, w: Seq<Point>, j: int, goal: Point)
        requires
            self.wf(),
            self.is_walk(w),
            0 <= j < w.len(),
        ensures
            w[j].manhattan(goal) <= (w.len() - 1 - j) + w.last().manhattan(goal),
        decreases w.len() - j,
    {
        if j < w.len() - 1 {
            self.lemma_walk_bounds_manhattan(w, j + 1, goal);
            assert(self.hop(w, j));
            self.lemma_link_is_step(w[j], w[j + 1], goal);
        }
    }

    /// The Manhattan distance between two coordinates on the grid fits the
    /// machine word that indexes the grid.
    pub proof fn lemma_manhattan_fits(&self, a: Point, b: Point)
        requires
            self.width * self.height <= usize::MAX,
            self.in_bounds(a),
            self.in_bounds(b),
        ensures
            a.manhattan(b) <= usize::MAX,
    {
        let (w, h) = (self.width as int, self.height as int);
        assert((w - 1) * (h - 1) >= 0) by (nonlinear_arith)
            requires
                w >= 1,
                h >= 1,
        ;
        assert((w - 1) * (h - 1) == w * h - w - h + 1) by (nonlinear_arith);
    }

    /// A walk that is followed by one more edge is a walk.
    pub proof fn lemma_walk_extends(&self, w: Seq<Point>, from: Point, b: Point)
        requires
            self.joins(w, from, w.last()),
            self.linked(w.last(), b),
            self.contains(b),
        ensures
            self.joins(w.push(b), from, b),
    {
        let v = w.push(b);
        assert forall|i: int| 0 <= i < v.len() - 1 implies #[trigger] self.hop(v, i) by {
            if i < w.len() - 1 {
                assert(self.hop(w, i));
            }
        }
    }

    /// Looks up the node of a coordinate: the node if the coordinate is a
    /// traversable cell of the maze, nothing otherwise.
    pub fn get(&self, p: &Point) -> (r: Option<&Node>)
        requires
            self.width * self.height <= usize::MAX,
        ensures
            r is Some <==> self.contains(*p),
            r matches Some(node) ==> *node == self.node_at(*p),
    {
        if p.x < self.width && p.y < self.height {
            let k = self.index(p);
            self.data.get(&k)
        } else {
            None
        }
    }

    /// Tells whether the node stored under key `k` is sound.
    fn check_node(&self, k: usize, node: &Node) -> (ok: bool)
        requires
            self.width * self.height <= usize::MAX,
            self.data@.contains_key(k),
            *node == self.data@[k],
        ensures
            ok == self.node_ok(k),
    {
        if !(node.point.x < self.width && node.point.y < self.height) {
            return false;
        }
        if self.index(&node.point) != k {
            return false;
        }
        let at_start = node.point == self.start;
        let at_exit = node.point == self.exit;
        let roles = match node.role {
            NodeType::Start => at_start && !at_exit,
            NodeType::Exit => at_exit && !at_start,
            NodeType::Path => !at_start && !at_exit,
        };
        if !roles {
            return false;
        }
        let mut i: usize = 0;
        while i < node.children.len()
            invariant
                self.width * self.height <= usize::MAX,
                *node == self.data@[k],
                0 <= i <= node.children@.len(),
                forall|j: int|
                    0 <= j < i ==> #[trigger] self.edge_ok(node.point, node.children@[j]),
            decreases node.children@.len() - i,
        {
            let (heading, to) = node.children[i];
            if !node.point.is_next(heading, &to) || self.get(&to).is_none() {
                assert(!self.edge_ok(node.point, node.children@[i as int]));
                return false;
            }
            i += 1;
        }
        true
    }

    /// Tells whether the maze is well formed. The check looks at every
    /// index of the grid once and at every edge once.
    pub fn validate(&self) -> (ok: bool)
        ensures
            ok == self.wf(),
    {
        let total = match self.width.checked_mul(self.height) {
            Some(total) => total,
            None => {
                return false;
            },
        };
        if self.get(&self.start).is_none() || self.get(&self.exit).is_none() {
            return false;
        }
        let mut found: usize = 0;
        let mut k: usize = 0;
        proof {
            assert(self.keys_below(0) =~= Set::<usize>::empty());
        }
        while k < total
            invariant
                total == self.width * self.height,
                0 <= k <= total,
                found == self.keys_below(k).len(),
                found <= k,
                self.keys_below(k).finite(),
                forall|j: usize| j < k && self.data@.contains_key(j) ==> #[trigger] self.node_ok(j),
            decreases total - k,
        {
            proof {
                if self.data@.contains_key(k) {
                    assert(self.keys_below((k + 1) as usize) =~= self.keys_below(k).insert(k));
                } else {
                    assert(self.keys_below((k + 1) as usize) =~= self.keys_below(k));
                }
            }
            match self.data.get(&k) {
                Some(node) => {
                    if !self.check_node(k, node) {
                        return false;
                    }
                    found += 1;
                },
                None => {},
            }
            k += 1;
        }
        proof {
            let below = self.keys_below(total);
            assert(below.subset_of(self.data@.dom()));
            if found == self.data@.dom().len() {
                lemma_subset_equality(below, self.data@.dom());
                assert forall|j: usize| self.data@.contains_key(j) implies #[trigger] self.node_ok(
                    j,
                ) by {
                    assert(below.contains(j));
                }
            } else {
                if forall|j: usize| self.data@.contains_key(j) ==> below.contains(j) {
                    assert(below =~= self.data@.dom());
                }
                let stray = choose|j: usize| self.data@.contains_key(j) && !below.contains(j);
                if self.node_ok(stray) {
                    self.lemma_index_in_range(self.data@[stray].point);
                }
            }
        }
        found == self.data.len()
    }

    /// The number of traversable cells.
    pub fn len(&self) -> (n: usize)
        ensures
            n == self.cell_count(),
    {
        self.data.len()
    }

    /// Computes the linear index of a coordinate on the grid.
    pub fn index(&self, p: &Point) -> (k: usize)
        requires
            self.width * self.height <= usize::MAX,
            self.in_bounds(*p),
        ensures
            k == self.index_of(*p),
            k < self.width * self.height,
    {
        proof {
            self.lemma_index_in_range(*p);
            assert(0 <= p.y * self.width <= self.index_of(*p));
        }
        p.y * self.width + p.x
    }
}

} // verus!
