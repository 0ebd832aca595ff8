//! A linear, pointer-free, threaded quadtree.
//!
//! Nodes live in one vector with the root at index 0. An internal node's four
//! children occupy `children..children + 4` in the order SW, SE, NW, NE. Every node
//! carries an escape index `next`: the node to visit once its subtree has been
//! skipped or consumed, `0` meaning that the walk is over. The walk that steps to
//! `children` or to `next` is therefore a flat loop.
//!
//! The ghost sequence `order` lists the nodes in the order of that walk (a
//! pre-order), `at` gives each node's place in it, and `end` the place just after
//! its subtree.
use vstd::prelude::*;
use crate::bound::{
    Bound, GridPoint, GRID, MAX_DEPTH, overlaps, holds, within, on_grid,
};

verus! {

/// One slot of the tree.
#[derive(Clone, Copy, Debug, PartialEq, Eq, Structural)]
pub struct QNode {
    pub bound: Bound,
    pub depth: u32,
    /// First of the four children, or 0 for a leaf.
    pub children: usize,
    /// Escape index of the threaded walk; 0 ends the walk.
    pub next: usize,
    pub is_leaf: bool,
    /// The particle held by a leaf, or -1.
    pub particle_contained: i32,
}

/// Width in grid units of a node at depth `d`.
pub open spec fn cell_width(d: int) -> int
    decreases 18 - d,
{
    if d >= 18 {
        1
    } else {
        2 * cell_width(d + 1)
    }
}

/// Bottom-left corner of quadrant `k` (SW, SE, NW, NE) of `b`.
pub open spec fn child_corner(b: Bound, k: int) -> GridPoint {
    let h = (b.top_right.x - b.bot_left.x) / 2;
    GridPoint {
        x: (b.bot_left.x + (if k == 1 || k == 3 { h } else { 0 })) as i64,
        y: (b.bot_left.y + (if k >= 2 { h } else { 0 })) as i64,
    }
}

/// The node `ch` is quadrant `k` of `parent`, one level deeper.
pub open spec fn child_ok(parent: QNode, ch: QNode, k: int) -> bool {
    ch.depth == parent.depth + 1 && ch.bound.bot_left == child_corner(parent.bound, k)
}

/// `b` is the square of side `cell_width(depth)`.
pub open spec fn is_square(b: Bound, depth: int) -> bool {
    let w = cell_width(depth);
    &&& b.top_right.x == b.bot_left.x + w
    &&& b.top_right.y == b.bot_left.y + w
    &&& b.size_squared == w * w
}

/// `nd` is the empty leaf that quadrant `k` of `parent` becomes, with escape index `next`.
pub open spec fn is_child_node(nd: QNode, parent: QNode, k: int, next: int) -> bool {
    &&& nd.is_leaf
    &&& nd.particle_contained == -1
    &&& nd.children == 0
    &&& nd.next == next
    &&& nd.depth == parent.depth + 1
    &&& nd.bound.bot_left == child_corner(parent.bound, k)
    &&& is_square(nd.bound, nd.depth as int)
}

/// `parent` turned into an internal node whose children start at `first_child`.
pub open spec fn split_node(parent: QNode, first_child: int) -> QNode {
    QNode { is_leaf: false, particle_contained: -1i32, children: first_child as usize, ..parent }
}

/// The empty leaf that quadrant `k` of `parent` becomes, with escape index `next`.
pub open spec fn child_of(parent: QNode, k: int, next: int) -> QNode {
    let h = cell_width(parent.depth + 1);
    let bl = child_corner(parent.bound, k);
    QNode {
        bound: Bound {
            bot_left: bl,
            top_right: GridPoint { x: (bl.x + h) as i64, y: (bl.y + h) as i64 },
            size_squared: (h * h) as i64,
        },
        depth: (parent.depth + 1) as u32,
        children: 0,
        next: next as usize,
        is_leaf: true,
        particle_contained: -1i32,
    }
}

/// The node array after splitting leaf `i`.
pub open spec fn split_at(s: Seq<QNode>, i: int) -> Seq<QNode> {
    let n = s.len() as int;
    let p = s[i];
    s.update(i, split_node(p, n)) + seq![
        child_of(p, 0, n + 1),
        child_of(p, 1, n + 2),
        child_of(p, 2, n + 3),
        child_of(p, 3, p.next as int),
    ]
}

/// The node array with particle `pt` stored in node `i`.
pub open spec fn put_at(s: Seq<QNode>, i: int, pt: i32) -> Seq<QNode> {
    s.update(i, QNode { particle_contained: pt, ..s[i] })
}

/// The first child of node `i` whose square holds `pos`, or 0.
pub open spec fn child_holding(s: Seq<QNode>, i: int, pos: GridPoint) -> int {
    let c = s[i].children as int;
    if holds(s[c].bound, pos) {
        c
    } else if holds(s[c + 1].bound, pos) {
        c + 1
    } else if holds(s[c + 2].bound, pos) {
        c + 2
    } else if holds(s[c + 3].bound, pos) {
        c + 3
    } else {
        0
    }
}

/// The node reached from `i` by descending at most `fuel` levels towards `pos`.
pub open spec fn descend(s: Seq<QNode>, i: int, pos: GridPoint, fuel: nat) -> int
    decreases fuel,
{
    if fuel == 0 || s[i].is_leaf {
        i
    } else {
        descend(s, child_holding(s, i, pos), pos, (fuel - 1) as nat)
    }
}

/// Settling particle `idx` (cell `pos`) into leaf `cur`: split while the leaf is
/// occupied and above the depth cap, moving its occupant into the child that holds
/// the occupant's cell.
pub open spec fn settle(s: Seq<QNode>, cur: int, pos: GridPoint, cells: Seq<GridPoint>, idx: int, fuel: nat) -> Seq<QNode>
    decreases fuel,
{
    let other = s[cur].particle_contained;
    if fuel == 0 || other == -1 || s[cur].depth >= MAX_DEPTH {
        put_at(s, cur, idx as i32)
    } else {
        let s1 = split_at(s, cur);
        let s2 = put_at(s1, child_holding(s1, cur, cells[other as int]), other);
        settle(s2, child_holding(s2, cur, pos), pos, cells, idx, (fuel - 1) as nat)
    }
}

/// The node array after inserting particle `idx`.
pub open spec fn inserted(s: Seq<QNode>, cells: Seq<GridPoint>, idx: int) -> Seq<QNode> {
    let pos = cells[idx];
    let leaf = descend(s, 0, pos, MAX_DEPTH as nat);
    settle(s, leaf, pos, cells, idx, (MAX_DEPTH - s[leaf].depth) as nat)
}

/// The node array after inserting particles `0..k` into the empty root.
pub open spec fn built(cells: Seq<GridPoint>, k: int) -> Seq<QNode>
    decreases k,
{
    if k <= 0 {
        seq![root_node()]
    } else {
        inserted(built(cells, k - 1), cells, k - 1)
    }
}

/// The root: an empty leaf covering the whole grid.
pub open spec fn root_node() -> QNode {
    QNode {
        bound: Bound {
            bot_left: GridPoint { x: 0, y: 0 },
            top_right: GridPoint { x: GRID, y: GRID },
            size_squared: 68719476736i64,
        },
        depth: 0,
        children: 0,
        next: 0,
        is_leaf: true,
        particle_contained: -1i32,
    }
}

/// Widths halve from the root (the whole grid) down to one unit at `MAX_DEPTH`.
pub proof fn lemma_cell_width(d: int)
    requires
        0 <= d <= 18,
    ensures
        1 <= cell_width(d) <= GRID,
        d < 18 ==> cell_width(d) == 2 * cell_width(d + 1),
        d == 0 ==> cell_width(d) == GRID,
    decreases 18 - d,
{
    reveal_with_fuel(cell_width, 19);
    if d < 18 {
        lemma_cell_width(d + 1);
    }
}

impl QNode {
    /// An empty leaf with corner `bot_left`, sides `bound_size`, depth `d` and escape index `next`.
    pub fn new(bot_left: GridPoint, bound_size: GridPoint, d: u32, next: usize) -> (r: QNode)
        requires
            0 <= bot_left.x <= GRID,
            0 <= bot_left.y <= GRID,
            0 <= bound_size.x <= GRID,
            0 <= bound_size.y <= GRID,
        ensures
            r.bound.bot_left == bot_left,
            r.bound.top_right.x == bot_left.x + bound_size.x,
            r.bound.top_right.y == bot_left.y + bound_size.y,
            r.bound.size_squared == bound_size.x * bound_size.x,
            r.depth == d,
            r.children == 0,
            r.next == next,
            r.is_leaf,
            r.particle_contained == -1,
    {
        let tr = GridPoint { x: bot_left.x + bound_size.x, y: bot_left.y + bound_size.y };
        QNode {
            bound: Bound::new(bot_left, tr),
            depth: d,
            children: 0,
            next: next,
            is_leaf: true,
            particle_contained: -1,
        }
    }

    /// Stores particle `pt_idx` in this leaf.
    pub fn set_particle(&mut self, pt_idx: i32)
        ensures
            *final(self) == (QNode { particle_contained: pt_idx, ..*old(self) }),
    {
        self.particle_contained = pt_idx;
    }
}

/// A leaf that holds a particle and overlaps `b`.
pub open spec fn leaf_hit(nd: QNode, b: Bound) -> bool {
    nd.is_leaf && nd.particle_contained != -1 && overlaps(nd.bound, b)
}

/// Where place `p` of the walk moves when four places are inserted after place `k`.
pub open spec fn shift(p: int, k: int) -> int {
    if p > k { p + 4 } else { p }
}

/// The tree: its node array and the ghost walk order that the proofs read.
pub struct QuadTree {
    pub stack: Vec<QNode>,
    pub order: Ghost<Seq<int>>,
    pub at: Ghost<Seq<int>>,
    pub end: Ghost<Seq<int>>,
}

impl QuadTree {
    /// Number of nodes.
    pub open spec fn n_nodes(&self) -> int {
        self.stack@.len() as int
    }

    /// Node `i`.
    pub open spec fn node(&self, i: int) -> QNode {
        self.stack@[i]
    }

    /// The walk order is a permutation of the nodes that starts at the root.
    pub open spec fn wf_order(&self) -> bool {
        let n = self.n_nodes();
        &&& 1 <= n
        &&& self.order@.len() == n
        &&& self.at@.len() == n
        &&& self.end@.len() == n
        &&& forall|k: int| 0 <= k < n ==> 0 <= #[trigger] self.order@[k] < n && self.at@[self.order@[k]] == k
        &&& forall|i: int| 0 <= i < n ==> 0 <= #[trigger] self.at@[i] < n && self.order@[self.at@[i]] == i
        &&& self.at@[0] == 0
        &&& self.end@[0] == n
        &&& self.node(0).depth == 0
        &&& self.node(0).bound.bot_left == GridPoint { x: 0, y: 0 }
        &&& !self.node(0).is_leaf ==> self.node(0).children == 1
    }

    /// Node `i` is well placed: its square, its escape index, and, when internal,
    /// its four children.
    pub open spec fn wf_node(&self, i: int) -> bool {
        let n = self.n_nodes();
        let nd = self.node(i);
        let c = nd.children as int;
        &&& nd.depth <= MAX_DEPTH
        &&& is_square(nd.bound, nd.depth as int)
        &&& 0 <= nd.bound.bot_left.x && nd.bound.top_right.x <= GRID
        &&& 0 <= nd.bound.bot_left.y && nd.bound.top_right.y <= GRID
        &&& self.at@[i] < self.end@[i] <= n
        &&& nd.next as int == (if self.end@[i] < n { self.order@[self.end@[i]] } else { 0 })
        &&& nd.particle_contained >= -1
        &&& nd.is_leaf ==> self.end@[i] == self.at@[i] + 1 && nd.children == 0
        &&& !nd.is_leaf ==> {
            &&& 1 <= c && c + 4 <= n
            &&& nd.depth < MAX_DEPTH
            &&& nd.particle_contained == -1
            &&& self.at@[c] == self.at@[i] + 1
            &&& child_ok(nd, self.node(c), 0)
            &&& child_ok(nd, self.node(c + 1), 1)
            &&& child_ok(nd, self.node(c + 2), 2)
            &&& child_ok(nd, self.node(c + 3), 3)
        }
    }

    /// Node `b` lies in the subtree of node `a`.
    pub open spec fn in_subtree(&self, a: int, b: int) -> bool {
        &&& 0 <= a < self.n_nodes()
        &&& 0 <= b < self.n_nodes()
        &&& self.at@[a] <= self.at@[b] < self.end@[a]
    }

    /// The tree is well formed.
    pub open spec fn wf(&self) -> bool {
        &&& self.wf_order()
        &&& forall|i: int| 0 <= i < self.n_nodes() ==> #[trigger] self.wf_node(i)
        &&& forall|a: int, b: int| #[trigger] self.in_subtree(a, b) ==> within(self.node(b).bound, self.node(a).bound)
    }

    /// The four children of an internal node split its square: a cell of the node lies
    /// in exactly one of them.
    pub proof fn lemma_quadrants(&self, i: int, pos: GridPoint)
        requires
            self.wf(),
            0 <= i < self.n_nodes(),
            !self.node(i).is_leaf,
        ensures
            ({
                let c = self.node(i).children as int;
                &&& holds(self.node(i).bound, pos) <==> (holds(self.node(c).bound, pos) || holds(self.node(c + 1).bound, pos)
                    || holds(self.node(c + 2).bound, pos) || holds(self.node(c + 3).bound, pos))
                &&& forall|k: int, l: int| 0 <= k < l < 4 && #[trigger] holds(self.node(c + k).bound, pos) ==> !#[trigger] holds(self.node(c + l).bound, pos)
            }),
    {
        let nd = self.node(i);
        let c = nd.children as int;
        assert(self.wf_node(i));
        assert(self.wf_node(c));
        assert(self.wf_node(c + 1));
        assert(self.wf_node(c + 2));
        assert(self.wf_node(c + 3));
        lemma_cell_width(nd.depth as int);
        let h = cell_width(nd.depth + 1);
        let b = nd.bound;
        assert(nd.depth < 18);
        assert(cell_width(nd.depth as int) == 2 * h);
        assert(b.top_right.x == b.bot_left.x + 2 * h);
        assert(self.node(c).bound.bot_left == b.bot_left);
        assert(self.node(c).bound.top_right.x == b.bot_left.x + h);
        assert(self.node(c + 3).bound.bot_left.x == b.bot_left.x + h);
        assert(self.node(c + 3).bound.top_right.x == b.bot_left.x + 2 * h);
    }

    /// The child of internal node `node_i` that holds the cell `pos`, or 0 when none does.
    pub fn idx_pos_single(&self, node_i: usize, pos: GridPoint) -> (r: usize)
        requires
            self.wf(),
            node_i < self.n_nodes(),
            !self.node(node_i as int).is_leaf,
        ensures
            r == 0 <==> !holds(self.node(node_i as int).bound, pos),
            r != 0 ==> {
                let c = self.node(node_i as int).children;
                &&& c <= r < c + 4
                &&& holds(self.node(r as int).bound, pos)
            },
            r == child_holding(self.stack@, node_i as int, pos),
    {
        proof {
            assert(self.wf_node(node_i as int));
            self.lemma_quadrants(node_i as int, pos);
        }
        let c = self.stack[node_i].children;
        let n = self.stack.len();
        assert(c + 4 <= n);
        let mut child_i = c;
        while child_i < c + 4
            invariant
                n == self.n_nodes(),
                self.wf(),
                node_i < self.n_nodes(),
                !self.node(node_i as int).is_leaf,
                c == self.node(node_i as int).children,
                1 <= c,
                c + 4 <= self.n_nodes(),
                c <= child_i <= c + 4,
                forall|j: int| c <= j < child_i ==> !holds(#[trigger] self.node(j).bound, pos),
            decreases c + 4 - child_i,
        {
            if self.stack[child_i].bound.in_bounds(pos) {
                proof {
                    self.lemma_quadrants(node_i as int, pos);
                    assert(child_i == c || child_i == c + 1 || child_i == c + 2 || child_i == c + 3);
                    if child_i > c {
                        assert(!holds(self.node(c as int).bound, pos));
                    }
                    if child_i > c + 1 {
                        assert(!holds(self.node(c + 1).bound, pos));
                    }
                    if child_i > c + 2 {
                        assert(!holds(self.node(c + 2).bound, pos));
                    }
                }
                return child_i;
            }
            child_i += 1;
        }
        proof {
            assert(!holds(self.node(c as int).bound, pos));
            assert(!holds(self.node(c + 1).bound, pos));
            assert(!holds(self.node(c + 2).bound, pos));
            assert(!holds(self.node(c + 3).bound, pos));
        }
        0
    }

    /// The leaf that holds the cell `pos`, found by descending from the root.
    pub fn idx_pos(&self, pos: GridPoint) -> (r: usize)
        requires
            self.wf(),
            on_grid(pos),
        ensures
            r < self.n_nodes(),
            self.node(r as int).is_leaf,
            holds(self.node(r as int).bound, pos),
            r == descend(self.stack@, 0, pos, MAX_DEPTH as nat),
    {
        proof {
            assert(self.wf_node(0));
            lemma_cell_width(0);
        }
        let mut curr_node_i: usize = 0;
        while !self.stack[curr_node_i].is_leaf
            invariant
                self.wf(),
                curr_node_i < self.n_nodes(),
                holds(self.node(curr_node_i as int).bound, pos),
                descend(self.stack@, curr_node_i as int, pos, (MAX_DEPTH - self.node(curr_node_i as int).depth) as nat)
                    == descend(self.stack@, 0, pos, MAX_DEPTH as nat),
            decreases MAX_DEPTH - self.node(curr_node_i as int).depth,
        {
            proof {
                assert(self.wf_node(curr_node_i as int));
                let c = self.node(curr_node_i as int).children as int;
                assert(self.wf_node(c));
                assert(self.wf_node(c + 1));
                assert(self.wf_node(c + 2));
                assert(self.wf_node(c + 3));
            }
            curr_node_i = self.idx_pos_single(curr_node_i, pos);
        }
        curr_node_i
    }

    /// Splitting leaf `i` (at place `k` of the walk) into four children appended at
    /// the end keeps the tree well formed, with the children inserted into the walk
    /// right after `i`.
    proof fn lemma_subdivide(t0: QuadTree, t1: QuadTree, i: int)
        requires
            t0.wf(),
            0 <= i < t0.n_nodes(),
            t0.node(i).is_leaf,
            t0.node(i).depth < MAX_DEPTH,
            t1.n_nodes() == t0.n_nodes() + 4,
            forall|j: int| 0 <= j < t0.n_nodes() && j != i ==> t1.node(j) == #[trigger] t0.node(j),
            t1.node(i) == split_node(t0.node(i), t0.n_nodes()),
            is_child_node(t1.node(t0.n_nodes()), t0.node(i), 0, t0.n_nodes() + 1),
            is_child_node(t1.node(t0.n_nodes() + 1), t0.node(i), 1, t0.n_nodes() + 2),
            is_child_node(t1.node(t0.n_nodes() + 2), t0.node(i), 2, t0.n_nodes() + 3),
            is_child_node(t1.node(t0.n_nodes() + 3), t0.node(i), 3, t0.node(i).next as int),
            t1.order@ == t0.order@.subrange(0, t0.at@[i] + 1) + seq![t0.n_nodes(), t0.n_nodes() + 1, t0.n_nodes() + 2, t0.n_nodes() + 3]
                + t0.order@.subrange(t0.at@[i] + 1, t0.n_nodes()),
            t1.at@ == Seq::new((t0.n_nodes() + 4) as nat, |j: int|
                if j < t0.n_nodes() { shift(t0.at@[j], t0.at@[i]) } else { t0.at@[i] + 1 + (j - t0.n_nodes()) }),
            t1.end@ == Seq::new((t0.n_nodes() + 4) as nat, |j: int|
                if j < t0.n_nodes() { shift(t0.end@[j], t0.at@[i]) } else { t0.at@[i] + 2 + (j - t0.n_nodes()) }),
        ensures
            t1.wf(),
    {
        let n = t0.n_nodes();
        let k = t0.at@[i];
        let p = t0.node(i);
        assert(t0.wf_node(i));
        assert(t0.order@[k] == i);
        lemma_cell_width(p.depth as int);
        // the walk order
        assert forall|kk: int| 0 <= kk < n + 4 implies 0 <= #[trigger] t1.order@[kk] < n + 4 && t1.at@[t1.order@[kk]] == kk by {
            if kk <= k {
                assert(t1.order@[kk] == t0.order@[kk]);
            } else if kk <= k + 4 {
                assert(t1.order@[kk] == n + (kk - k - 1));
            } else {
                assert(t1.order@[kk] == t0.order@[kk - 4]);
            }
        }
        assert forall|j: int| 0 <= j < n + 4 implies 0 <= #[trigger] t1.at@[j] < n + 4 && t1.order@[t1.at@[j]] == j by {
            if j < n {
                if t0.at@[j] > k {
                    assert(t1.order@[t0.at@[j] + 4] == t0.order@[t0.at@[j]]);
                } else {
                    assert(t1.order@[t0.at@[j]] == t0.order@[t0.at@[j]]);
                }
            }
        }
        assert(t1.wf_order());
        // every node
        assert forall|j: int| 0 <= j < n + 4 implies #[trigger] t1.wf_node(j) by {
            if j < n {
                assert(t0.wf_node(j));
                let e = t0.end@[j];
                if e < n {
                    if e > k {
                        assert(t1.order@[e + 4] == t0.order@[e]);
                    } else {
                        assert(t1.order@[e] == t0.order@[e]);
                    }
                }
                if j != i {
                    assert(t0.at@[j] != k);
                    let nd = t0.node(j);
                    if !nd.is_leaf {
                        let c = nd.children as int;
                        assert(t1.node(c).depth == t0.node(c).depth && t1.node(c).bound == t0.node(c).bound);
                        assert(t1.node(c + 1).depth == t0.node(c + 1).depth && t1.node(c + 1).bound == t0.node(c + 1).bound);
                        assert(t1.node(c + 2).depth == t0.node(c + 2).depth && t1.node(c + 2).bound == t0.node(c + 2).bound);
                        assert(t1.node(c + 3).depth == t0.node(c + 3).depth && t1.node(c + 3).bound == t0.node(c + 3).bound);
                    }
                } else {
                    if k + 1 < n {
                        assert(t1.order@[k + 5] == t0.order@[k + 1]);
                    }
                }
            } else {
                let m = j - n;
                assert(t1.order@[k + 1 + m] == j);
                if m < 3 {
                    assert(t1.order@[k + 2 + m] == j + 1);
                } else if k + 1 < n {
                    assert(t1.order@[k + 5] == t0.order@[k + 1]);
                }
            }
        }
        // nesting
        assert forall|a: int, b: int| #[trigger] t1.in_subtree(a, b) implies within(t1.node(b).bound, t1.node(a).bound) by {
            if a < n && b < n {
                assert(t0.in_subtree(a, b));
            } else if a < n {
                assert(t0.in_subtree(a, i));
            } else {
                assert(t1.order@[t1.at@[b]] == b);
                assert(t1.order@[t1.at@[a]] == a);
            }
        }
    }

    /// Turns leaf `node_i` into an internal node and appends its four empty children
    /// (SW, SE, NW, NE), threaded so that each escapes to the next sibling and the
    /// last to the escape index of `node_i`.
    pub fn subdivide_node(&mut self, node_i: usize)
        requires
            old(self).wf(),
            node_i < old(self).n_nodes(),
            old(self).node(node_i as int).is_leaf,
            old(self).node(node_i as int).depth < MAX_DEPTH,
            old(self).n_nodes() + 4 <= usize::MAX,
        ensures
            final(self).wf(),
            final(self).n_nodes() == old(self).n_nodes() + 4,
            forall|j: int| 0 <= j < old(self).n_nodes() && j != node_i ==> final(self).node(j) == #[trigger] old(self).node(j),
            final(self).node(node_i as int) == split_node(old(self).node(node_i as int), old(self).n_nodes()),
            is_child_node(final(self).node(old(self).n_nodes()), old(self).node(node_i as int), 0, old(self).n_nodes() + 1),
            is_child_node(final(self).node(old(self).n_nodes() + 1), old(self).node(node_i as int), 1, old(self).n_nodes() + 2),
            is_child_node(final(self).node(old(self).n_nodes() + 2), old(self).node(node_i as int), 2, old(self).n_nodes() + 3),
            is_child_node(final(self).node(old(self).n_nodes() + 3), old(self).node(node_i as int), 3, old(self).node(node_i as int).next as int),
            final(self).stack@ == split_at(old(self).stack@, node_i as int),
    {
        let ghost t0 = *self;
        let ghost n = self.n_nodes();
        let ghost k = self.at@[node_i as int];
        proof {
            assert(self.wf_node(node_i as int));
            lemma_cell_width(self.node(node_i as int).depth as int);
        }
        let parent = self.stack[node_i];
        let dim = parent.bound.get_dim();
        let half = dim.x / 2;
        let new_dim = GridPoint { x: half, y: half };
        let last_idx = self.stack.len();
        let bl = parent.bound.bot_left;
        let next_depth = parent.depth + 1;
        self.stack.push(QNode::new(bl, new_dim, next_depth, last_idx + 1));
        self.stack.push(QNode::new(GridPoint { x: bl.x + half, y: bl.y }, new_dim, next_depth, last_idx + 2));
        self.stack.push(QNode::new(GridPoint { x: bl.x, y: bl.y + half }, new_dim, next_depth, last_idx + 3));
        self.stack.push(QNode::new(GridPoint { x: bl.x + half, y: bl.y + half }, new_dim, next_depth, parent.next));
        let mut split = parent;
        split.is_leaf = false;
        split.particle_contained = -1;
        split.children = last_idx;
        self.stack.set(node_i, split);
        let ghost order0 = self.order@;
        let ghost at0 = self.at@;
        let ghost end0 = self.end@;
        self.order = Ghost(order0.subrange(0, k + 1) + seq![n, n + 1, n + 2, n + 3] + order0.subrange(k + 1, n));
        self.at = Ghost(Seq::new((n + 4) as nat, |j: int| if j < n { shift(at0[j], k) } else { k + 1 + (j - n) }));
        self.end = Ghost(Seq::new((n + 4) as nat, |j: int| if j < n { shift(end0[j], k) } else { k + 2 + (j - n) }));
        proof {
            assert(self.node(n) == self.stack@[n]);
            Self::lemma_subdivide(t0, *self, node_i as int);
            let p = t0.node(node_i as int);
            assert(self.node(n) == child_of(p, 0, n + 1));
            assert(self.node(n + 1) == child_of(p, 1, n + 2));
            assert(self.node(n + 2) == child_of(p, 2, n + 3));
            assert(self.node(n + 3) == child_of(p, 3, p.next as int));
            assert(self.stack@ =~= split_at(t0.stack@, node_i as int));
        }
    }

    /// Every particle held by a node is held by a leaf whose square holds its cell.
    pub open spec fn holds_cells(&self, cells: Seq<GridPoint>) -> bool {
        forall|i: int| 0 <= i < self.n_nodes() && #[trigger] self.node(i).particle_contained >= 0 ==> {
            &&& self.node(i).is_leaf
            &&& self.node(i).particle_contained < cells.len()
            &&& holds(self.node(i).bound, cells[self.node(i).particle_contained as int])
        }
    }

    /// Some node holds particle `q`.
    pub open spec fn holds_particle(&self, q: int) -> bool {
        exists|i: int| 0 <= i < self.n_nodes() && #[trigger] self.node(i).particle_contained == q
    }

    /// The particles of the leaves at the first `hi` places of the walk that overlap `b`,
    /// in walk order.
    pub open spec fn hits(&self, b: Bound, hi: int) -> Seq<usize>
        decreases hi,
    {
        if hi <= 0 {
            seq![]
        } else {
            let nd = self.node(self.order@[hi - 1]);
            self.hits(b, hi - 1) + (if leaf_hit(nd, b) { seq![nd.particle_contained as usize] } else { seq![] })
        }
    }

    /// A particle is among the hits exactly when some overlapping leaf in those places holds it.
    proof fn lemma_hits_contains(&self, b: Bound, hi: int, p: usize)
        requires
            self.wf(),
            0 <= hi <= self.n_nodes(),
        ensures
            self.hits(b, hi).contains(p) <==> exists|k: int| 0 <= k < hi && #[trigger] leaf_hit(self.node(self.order@[k]), b)
                && self.node(self.order@[k]).particle_contained as usize == p,
        decreases hi,
    {
        if hi > 0 {
            self.lemma_hits_contains(b, hi - 1, p);
            let nd = self.node(self.order@[hi - 1]);
            let tail: Seq<usize> = if leaf_hit(nd, b) { seq![nd.particle_contained as usize] } else { seq![] };
            assert(self.hits(b, hi) == self.hits(b, hi - 1) + tail);
            if self.hits(b, hi).contains(p) {
                let x = choose|x: int| 0 <= x < self.hits(b, hi).len() && #[trigger] self.hits(b, hi)[x] == p;
                if x >= self.hits(b, hi - 1).len() {
                    assert(tail[x - self.hits(b, hi - 1).len()] == p);
                } else {
                    assert(self.hits(b, hi - 1)[x] == p);
                }
            }
            if exists|k: int| 0 <= k < hi && #[trigger] leaf_hit(self.node(self.order@[k]), b)
                && self.node(self.order@[k]).particle_contained as usize == p {
                let k = choose|k: int| 0 <= k < hi && #[trigger] leaf_hit(self.node(self.order@[k]), b)
                    && self.node(self.order@[k]).particle_contained as usize == p;
                if k == hi - 1 {
                    assert(self.hits(b, hi)[self.hits(b, hi - 1).len() as int] == p);
                } else {
                    let x = choose|x: int| 0 <= x < self.hits(b, hi - 1).len() && #[trigger] self.hits(b, hi - 1)[x] == p;
                    assert(self.hits(b, hi)[x] == p);
                }
            }
        }
    }

    /// Nothing in the subtree of a node that misses `b` overlaps `b`.
    proof fn lemma_skip(&self, b: Bound, i: int, hi: int)
        requires
            self.wf(),
            0 <= i < self.n_nodes(),
            !overlaps(self.node(i).bound, b),
            self.at@[i] <= hi <= self.end@[i],
        ensures
            self.hits(b, hi) == self.hits(b, self.at@[i]),
        decreases hi,
    {
        assert(self.wf_node(i));
        if hi > self.at@[i] {
            self.lemma_skip(b, i, hi - 1);
            let j = self.order@[hi - 1];
            assert(self.in_subtree(i, j));
        }
    }

    /// The step of the threaded walk that opens every internal node.
    pub open spec fn full_step(&self, i: int) -> int {
        if self.node(i).is_leaf { self.node(i).next as int } else { self.node(i).children as int }
    }

    /// The first `len` nodes visited by the walk that opens every node, from `start`.
    pub open spec fn walk_seq(&self, start: int, len: nat) -> Seq<int>
        decreases len,
    {
        if len == 0 {
            seq![]
        } else {
            seq![start] + self.walk_seq(self.full_step(start), (len - 1) as nat)
        }
    }

    /// From place `k` on, the walk that opens every node follows the walk order.
    proof fn lemma_walk_suffix(&self, k: int)
        requires
            self.wf(),
            0 <= k < self.n_nodes(),
        ensures
            self.walk_seq(self.order@[k], (self.n_nodes() - k) as nat) == self.order@.subrange(k, self.n_nodes()),
        decreases self.n_nodes() - k,
    {
        let n = self.n_nodes();
        let i = self.order@[k];
        assert(self.wf_node(i));
        if k + 1 < n {
            self.lemma_walk_suffix(k + 1);
            assert(self.full_step(i) == self.order@[k + 1]);
            assert(self.walk_seq(i, (n - k) as nat) == seq![i] + self.walk_seq(self.order@[k + 1], (n - k - 1) as nat));
            assert(self.order@.subrange(k, n) =~= seq![i] + self.order@.subrange(k + 1, n));
        } else {
            assert(self.walk_seq(i, 1) == seq![i] + self.walk_seq(self.full_step(i), 0));
            assert(self.order@.subrange(k, n) =~= seq![i]);
        }
    }

    /// The threaded walk that opens every internal node, started at index 1 below a
    /// split root, visits every other node exactly once and then reaches the end
    /// marker 0.
    pub proof fn lemma_full_walk(&self)
        requires
            self.wf(),
            !self.node(0).is_leaf,
        ensures
            ({
                let w = self.walk_seq(1, (self.n_nodes() - 1) as nat);
                &&& w.no_duplicates()
                &&& forall|i: int| 1 <= i < self.n_nodes() <==> w.contains(i)
                &&& self.full_step(w.last()) == 0
            }),
    {
        let n = self.n_nodes();
        assert(self.wf_node(0));
        assert(self.order@[1] == 1);
        self.lemma_walk_suffix(1);
        let w = self.walk_seq(1, (n - 1) as nat);
        assert(w == self.order@.subrange(1, n));
        assert forall|a: int, b: int| 0 <= a < b < w.len() implies w[a] != w[b] by {
            assert(self.at@[self.order@[a + 1]] == a + 1);
            assert(self.at@[self.order@[b + 1]] == b + 1);
        }
        assert forall|i: int| 1 <= i < n <==> w.contains(i) by {
            if 1 <= i < n {
                assert(self.at@[i] != 0);
                assert(w[self.at@[i] - 1] == i);
            }
            if w.contains(i) {
                let a = choose|a: int| 0 <= a < w.len() && w[a] == i;
                assert(self.order@[a + 1] == i);
                assert(self.at@[0] == 0);
            }
        }
        let last = self.order@[n - 1];
        assert(w.last() == last);
        assert(self.wf_node(last));
        if !self.node(last).is_leaf {
            let c = self.node(last).children as int;
            assert(self.at@[c] == n);
        }
    }

    /// No node lies below `MAX_DEPTH`, so neither does any ancestor that two leaves
    /// share, whatever the particles they hold (equal positions included); a leaf at
    /// that depth is a single grid cell.
    pub proof fn lemma_depth_cap(&self)
        requires
            self.wf(),
        ensures
            forall|i: int| 0 <= i < self.n_nodes() ==> (#[trigger] self.node(i)).depth <= MAX_DEPTH,
            forall|i: int| 0 <= i < self.n_nodes() && (#[trigger] self.node(i)).depth == MAX_DEPTH ==>
                self.node(i).bound.top_right.x == self.node(i).bound.bot_left.x + 1
                && self.node(i).bound.top_right.y == self.node(i).bound.bot_left.y + 1,
    {
        assert forall|i: int| 0 <= i < self.n_nodes() implies (#[trigger] self.node(i)).depth <= MAX_DEPTH by {
            assert(self.wf_node(i));
        }
        assert forall|i: int| 0 <= i < self.n_nodes() && (#[trigger] self.node(i)).depth == MAX_DEPTH implies
            self.node(i).bound.top_right.x == self.node(i).bound.bot_left.x + 1
                && self.node(i).bound.top_right.y == self.node(i).bound.bot_left.y + 1 by {
            assert(self.wf_node(i));
            lemma_cell_width(18);
        }
    }

    /// Where the walk starts: index 1 below a split root, else the root itself.
    pub fn first_visit(&self) -> (r: usize)
        requires
            self.wf(),
        ensures
            r == (if self.node(0).is_leaf { 0int } else { 1int }),
            r < self.n_nodes(),
            self.at@[r as int] == r,
    {
        proof {
            assert(self.wf_node(0));
        }
        if self.stack[0].is_leaf {
            0
        } else {
            1
        }
    }

    /// One step of the threaded walk from `node_i`: into its children when `open` is
    /// set and it is internal, else to its escape index. 0 means the walk is over.
    pub fn advance(&self, node_i: usize, open: bool) -> (r: usize)
        requires
            self.wf(),
            node_i < self.n_nodes(),
        ensures
            r == (if open && !self.node(node_i as int).is_leaf {
                self.node(node_i as int).children
            } else {
                self.node(node_i as int).next
            }),
            r < self.n_nodes(),
    {
        proof {
            assert(self.wf_node(node_i as int));
        }
        let nd = &self.stack[node_i];
        if open && !nd.is_leaf {
            nd.children
        } else {
            nd.next
        }
    }

    /// The particles of every leaf that holds one and overlaps `other_bound`, in walk order.
    pub fn idx_bound(&self, other_bound: &Bound) -> (r: Vec<usize>)
        requires
            self.wf(),
        ensures
            r@ == self.hits(*other_bound, self.n_nodes()),
            forall|p: usize| r@.contains(p) <==> exists|i: int| 0 <= i < self.n_nodes()
                && #[trigger] leaf_hit(self.node(i), *other_bound) && self.node(i).particle_contained as usize == p,
    {
        let mut close_children: Vec<usize> = Vec::new();
        let mut node_i = self.first_visit();
        let ghost n = self.n_nodes();
        let ghost mut pos: int = node_i as int;
        proof {
            assert(self.wf_node(0));
            if !self.node(0).is_leaf {
                assert(self.order@[0] == 0);
                assert(self.hits(*other_bound, 1) == self.hits(*other_bound, 0));
            }
        }
        loop
            invariant_except_break
                node_i < n,
                0 <= pos < n,
                self.at@[node_i as int] == pos,
            invariant
                self.wf(),
                n == self.n_nodes(),
                close_children@ == self.hits(*other_bound, pos),
            ensures
                close_children@ == self.hits(*other_bound, n),
            decreases n - pos,
        {
            let curr_node = &self.stack[node_i];
            proof {
                assert(self.wf_node(node_i as int));
                assert(self.order@[pos] == node_i);
            }
            let target;
            if !curr_node.bound.is_overlap(other_bound) {
                proof {
                    self.lemma_skip(*other_bound, node_i as int, self.end@[node_i as int]);
                    pos = self.end@[node_i as int];
                }
                target = curr_node.next;
            } else if curr_node.is_leaf {
                if curr_node.particle_contained != -1 {
                    close_children.push(curr_node.particle_contained as usize);
                }
                proof {
                    pos = pos + 1;
                }
                target = curr_node.next;
            } else {
                proof {
                    pos = pos + 1;
                }
                target = curr_node.children;
            }
            if target == 0 {
                proof {
                    if pos < n {
                        assert(self.at@[self.order@[pos]] == pos);
                    }
                }
                break;
            }
            node_i = target;
        }
        proof {
            let n = self.n_nodes();
            assert forall|p: usize| close_children@.contains(p) <==> exists|i: int| 0 <= i < n
                && #[trigger] leaf_hit(self.node(i), *other_bound) && self.node(i).particle_contained as usize == p by {
                self.lemma_hits_contains(*other_bound, n, p);
                if exists|i: int| 0 <= i < n && #[trigger] leaf_hit(self.node(i), *other_bound)
                    && self.node(i).particle_contained as usize == p {
                    let i = choose|i: int| 0 <= i < n && #[trigger] leaf_hit(self.node(i), *other_bound)
                        && self.node(i).particle_contained as usize == p;
                    assert(self.order@[self.at@[i]] == i);
                    assert(leaf_hit(self.node(self.order@[self.at@[i]]), *other_bound));
                }
            }
        }
        close_children
    }

    /// Stores particle `pt` (or -1) in leaf `i`.
    fn put_particle(&mut self, i: usize, pt: i32)
        requires
            old(self).wf(),
            i < old(self).n_nodes(),
            old(self).node(i as int).is_leaf,
            pt >= -1,
        ensures
            final(self).wf(),
            final(self).n_nodes() == old(self).n_nodes(),
            final(self).node(i as int) == (QNode { particle_contained: pt, ..old(self).node(i as int) }),
            forall|j: int| 0 <= j < old(self).n_nodes() && j != i ==> final(self).node(j) == #[trigger] old(self).node(j),
            final(self).stack@ == put_at(old(self).stack@, i as int, pt),
    {
        let ghost t0 = *self;
        let mut nd = self.stack[i];
        nd.set_particle(pt);
        self.stack.set(i, nd);
        proof {
            assert forall|j: int| 0 <= j < self.n_nodes() implies #[trigger] self.wf_node(j) by {
                assert(t0.wf_node(j));
                let c = t0.node(j).children as int;
                if !t0.node(j).is_leaf {
                    assert(self.node(c).depth == t0.node(c).depth && self.node(c).bound == t0.node(c).bound);
                    assert(self.node(c + 1).depth == t0.node(c + 1).depth && self.node(c + 1).bound == t0.node(c + 1).bound);
                    assert(self.node(c + 2).depth == t0.node(c + 2).depth && self.node(c + 2).bound == t0.node(c + 2).bound);
                    assert(self.node(c + 3).depth == t0.node(c + 3).depth && self.node(c + 3).bound == t0.node(c + 3).bound);
                }
            }
            assert forall|a: int, b: int| #[trigger] self.in_subtree(a, b) implies within(self.node(b).bound, self.node(a).bound) by {
                assert(t0.in_subtree(a, b));
            }
        }
    }

    /// Inserts particle `particle_idx`, whose cell is `cells[particle_idx]`.
    ///
    /// It descends to the leaf that holds the cell. While that leaf is occupied and
    /// above `MAX_DEPTH`, the leaf is split, its occupant moves into the child that
    /// holds its cell, and the descent goes on into the child that holds the new cell.
    /// A leaf at `MAX_DEPTH` (one grid unit wide) takes the new particle in place of
    /// its occupant, which then has the same cell.
    pub fn add_particle(&mut self, cells: &Vec<GridPoint>, particle_idx: usize)
        requires
            old(self).wf(),
            old(self).holds_cells(cells@),
            particle_idx < cells.len(),
            particle_idx <= i32::MAX,
            on_grid(cells@[particle_idx as int]),
            old(self).n_nodes() + 4 * MAX_DEPTH <= usize::MAX,
        ensures
            final(self).wf(),
            final(self).holds_cells(cells@),
            final(self).holds_particle(particle_idx as int),
            final(self).n_nodes() <= old(self).n_nodes() + 4 * MAX_DEPTH,
            forall|q: int| q >= 0 && #[trigger] final(self).holds_particle(q) ==> q == particle_idx || old(self).holds_particle(q),
            forall|q: int| q >= 0 && #[trigger] old(self).holds_particle(q) ==>
                final(self).holds_particle(q) || cells@[q] == cells@[particle_idx as int],
            final(self).stack@ == inserted(old(self).stack@, cells@, particle_idx as int),
    {
        let ghost t_start = *self;
        let pos = cells[particle_idx];
        let mut curr_node_i = self.idx_pos(pos);
        while self.stack[curr_node_i].particle_contained != -1 && self.stack[curr_node_i].depth < MAX_DEPTH
            invariant
                self.wf(),
                self.holds_cells(cells@),
                pos == cells@[particle_idx as int],
                curr_node_i < self.n_nodes(),
                self.node(curr_node_i as int).is_leaf,
                holds(self.node(curr_node_i as int).bound, pos),
                self.n_nodes() <= t_start.n_nodes() + 4 * self.node(curr_node_i as int).depth,
                t_start.n_nodes() + 4 * MAX_DEPTH <= usize::MAX,
                forall|q: int| q >= 0 ==> (#[trigger] self.holds_particle(q) <==> t_start.holds_particle(q)),
                settle(self.stack@, curr_node_i as int, pos, cells@, particle_idx as int,
                    (MAX_DEPTH - self.node(curr_node_i as int).depth) as nat)
                    == inserted(t_start.stack@, cells@, particle_idx as int),
            decreases MAX_DEPTH - self.node(curr_node_i as int).depth,
        {
            let ghost t0 = *self;
            let ghost cur0 = curr_node_i as int;
            let other = self.stack[curr_node_i].particle_contained;
            proof {
                assert(t0.wf_node(cur0));
                assert(t0.node(cur0).particle_contained >= 0);
            }
            let other_pos = cells[other as usize];
            self.subdivide_node(curr_node_i);
            let ghost t1 = *self;
            let roommate_node_i = self.idx_pos_single(curr_node_i, other_pos);
            self.put_particle(roommate_node_i, other);
            curr_node_i = self.idx_pos_single(curr_node_i, pos);
            proof {
                let n0 = t0.n_nodes();
                let room = roommate_node_i as int;
                let f = (MAX_DEPTH - t0.node(cur0).depth) as nat;
                assert(self.node(curr_node_i as int).depth == t0.node(cur0).depth + 1);
                assert(settle(t0.stack@, cur0, pos, cells@, particle_idx as int, f)
                    == settle(self.stack@, curr_node_i as int, pos, cells@, particle_idx as int, (f - 1) as nat));
                assert(n0 <= room < n0 + 4);
                assert(self.node(cur0).particle_contained == -1);
                assert forall|j: int| n0 <= j < n0 + 4 && j != room implies #[trigger] self.node(j).particle_contained == -1 by {
                    assert(self.node(j) == t1.node(j));
                }
                assert forall|i: int| 0 <= i < self.n_nodes() && #[trigger] self.node(i).particle_contained >= 0 implies {
                    &&& self.node(i).is_leaf
                    &&& self.node(i).particle_contained < cells.len()
                    &&& holds(self.node(i).bound, cells@[self.node(i).particle_contained as int])
                } by {
                    if i < n0 && i != cur0 {
                        assert(self.node(i) == t0.node(i));
                    }
                }
                assert forall|q: int| q >= 0 && #[trigger] self.holds_particle(q) implies t0.holds_particle(q) by {
                    let j = choose|j: int| 0 <= j < self.n_nodes() && #[trigger] self.node(j).particle_contained == q;
                    if j == room {
                        assert(t0.node(cur0).particle_contained == q);
                    } else if j < n0 {
                        assert(self.node(j) == t0.node(j));
                        assert(t0.node(j).particle_contained == q);
                    }
                }
                assert forall|q: int| q >= 0 && #[trigger] t0.holds_particle(q) implies self.holds_particle(q) by {
                    let j = choose|j: int| 0 <= j < t0.n_nodes() && #[trigger] t0.node(j).particle_contained == q;
                    if j == cur0 {
                        assert(self.node(room).particle_contained == q);
                    } else {
                        assert(self.node(j) == t0.node(j));
                        assert(self.node(j).particle_contained == q);
                    }
                }
                assert forall|q: int| q >= 0 implies (#[trigger] self.holds_particle(q) <==> t_start.holds_particle(q)) by {
                    assert(t0.holds_particle(q) <==> t_start.holds_particle(q));
                }
            }
        }
        let ghost t_last = *self;
        let ghost cur = curr_node_i as int;
        proof {
            assert(t_last.wf_node(cur));
        }
        self.put_particle(curr_node_i, particle_idx as i32);
        proof {
            assert(self.node(cur).particle_contained == particle_idx);
            assert forall|i: int| 0 <= i < self.n_nodes() && #[trigger] self.node(i).particle_contained >= 0 implies {
                &&& self.node(i).is_leaf
                &&& self.node(i).particle_contained < cells.len()
                &&& holds(self.node(i).bound, cells@[self.node(i).particle_contained as int])
            } by {
                if i != cur {
                    assert(self.node(i) == t_last.node(i));
                }
            }
            assert forall|q: int| q >= 0 && #[trigger] self.holds_particle(q) implies q == particle_idx || t_start.holds_particle(q) by {
                let j = choose|j: int| 0 <= j < self.n_nodes() && #[trigger] self.node(j).particle_contained == q;
                if j != cur {
                    assert(self.node(j) == t_last.node(j));
                    assert(t_last.node(j).particle_contained == q);
                    assert(t_last.holds_particle(q));
                }
            }
            assert forall|q: int| q >= 0 && #[trigger] t_start.holds_particle(q) implies
                self.holds_particle(q) || cells@[q] == cells@[particle_idx as int] by {
                assert(t_last.holds_particle(q));
                let j = choose|j: int| 0 <= j < t_last.n_nodes() && #[trigger] t_last.node(j).particle_contained == q;
                if j != cur {
                    assert(self.node(j) == t_last.node(j));
                    assert(self.node(j).particle_contained == q);
                } else {
                    assert(t_last.wf_node(cur));
                    lemma_cell_width(18);
                    assert(t_last.node(cur).depth == 18);
                }
            }
        }
    }

    /// Rebuilds the tree over the particles whose cells are `cells`, inserting them in
    /// index order. Every particle ends up in the tree unless a later one has the same
    /// cell.
    pub fn build(&mut self, cells: &Vec<GridPoint>)
        requires
            forall|q: int| 0 <= q < cells.len() ==> on_grid(#[trigger] cells@[q]),
            cells.len() <= i32::MAX + 1,
            1 + 4 * MAX_DEPTH * cells.len() <= usize::MAX,
        ensures
            final(self).wf(),
            final(self).holds_cells(cells@),
            final(self).n_nodes() <= 1 + 4 * MAX_DEPTH * cells.len(),
            final(self).stack@ == built(cells@, cells.len() as int),
            forall|q: int| q >= 0 && #[trigger] final(self).holds_particle(q) ==> q < cells.len(),
            forall|q: int| 0 <= q < cells.len() ==> #[trigger] final(self).holds_particle(q)
                || exists|q2: int| q < q2 < cells.len() && cells@[q2] == cells@[q],
    {
        self.reset();
        proof {
            assert(self.wf_node(0));
            assert forall|q: int| q >= 0 && #[trigger] self.holds_particle(q) implies false by {
                let j = choose|j: int| 0 <= j < self.n_nodes() && #[trigger] self.node(j).particle_contained == q;
            }
        }
        let mut particle_i: usize = 0;
        while particle_i < cells.len()
            invariant
                self.wf(),
                self.holds_cells(cells@),
                forall|q: int| 0 <= q < cells.len() ==> on_grid(#[trigger] cells@[q]),
                cells.len() <= i32::MAX + 1,
                1 + 4 * MAX_DEPTH * cells.len() <= usize::MAX,
                particle_i <= cells.len(),
                self.stack@ == built(cells@, particle_i as int),
                self.n_nodes() <= 1 + 4 * MAX_DEPTH * particle_i,
                forall|q: int| q >= 0 && #[trigger] self.holds_particle(q) ==> q < particle_i,
                forall|q: int| 0 <= q < particle_i ==> #[trigger] self.holds_particle(q)
                    || exists|q2: int| q < q2 < particle_i && cells@[q2] == cells@[q],
            decreases cells.len() - particle_i,
        {
            let ghost t0 = *self;
            assert(4 * MAX_DEPTH * particle_i + 4 * MAX_DEPTH <= 4 * MAX_DEPTH * cells.len()) by (nonlinear_arith)
                requires
                    particle_i < cells.len(),
            ;
            self.add_particle(cells, particle_i);
            proof {
                let i = particle_i as int;
                assert(4 * MAX_DEPTH * (i + 1) == 4 * MAX_DEPTH * i + 4 * MAX_DEPTH) by (nonlinear_arith);
                assert forall|q: int| 0 <= q <= i implies #[trigger] self.holds_particle(q)
                    || exists|q2: int| q < q2 < i + 1 && cells@[q2] == cells@[q] by {
                    if q < i && !self.holds_particle(q) {
                        if t0.holds_particle(q) {
                            assert(cells@[i] == cells@[q]);
                        } else {
                            let q2 = choose|q2: int| q < q2 < i && cells@[q2] == cells@[q];
                        }
                    }
                }
            }
            particle_i += 1;
        }
    }

    /// Building twice over the same cells gives the same node array: what `build`
    /// leaves is a function of the cells alone.
    pub proof fn lemma_rebuild_identical(t1: QuadTree, t2: QuadTree, cells: Seq<GridPoint>)
        requires
            t1.stack@ == built(cells, cells.len() as int),
            t2.stack@ == built(cells, cells.len() as int),
        ensures
            t1.stack@ == t2.stack@,
    {
    }

    /// A tree holding the empty root alone.
    pub fn new() -> (r: QuadTree)
        ensures
            r.wf(),
            r.stack@ == seq![root_node()],
    {
        let mut stack: Vec<QNode> = Vec::new();
        stack.push(Self::root());
        let ghost first: Seq<int> = seq![0int];
        let ghost after: Seq<int> = seq![1int];
        let r = QuadTree { stack, order: Ghost(first), at: Ghost(first), end: Ghost(after) };
        proof {
            lemma_cell_width(0);
            assert(r.wf_node(0));
        }
        r
    }

    /// The empty root.
    fn root() -> (r: QNode)
        ensures
            r == root_node(),
    {
        proof {
            lemma_cell_width(0);
        }
        QNode {
            bound: Bound {
                bot_left: GridPoint { x: 0, y: 0 },
                top_right: GridPoint { x: GRID, y: GRID },
                size_squared: GRID * GRID,
            },
            depth: 0,
            children: 0,
            next: 0,
            is_leaf: true,
            particle_contained: -1,
        }
    }

    /// Discards every node and puts back the empty root.
    pub fn reset(&mut self)
        ensures
            final(self).wf(),
            final(self).stack@ == seq![root_node()],
    {
        self.stack.clear();
        self.stack.push(Self::root());
        let ghost first: Seq<int> = seq![0int];
        let ghost after: Seq<int> = seq![1int];
        self.order = Ghost(first);
        self.at = Ghost(first);
        self.end = Ghost(after);
        proof {
            lemma_cell_width(0);
            assert(self.wf_node(0));
        }
    }
}

} // verus!
