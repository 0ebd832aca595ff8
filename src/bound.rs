//! Axis-aligned bounds on the simulation grid.
//!
//! The square `[-1, 1]²` is measured in grid units of `2⁻¹⁷`, so that it spans
//! `[0, GRID]²`. Every node of the quadtree (depth at most `MAX_DEPTH`) has
//! integer corners on this grid. A position is represented by the cell that holds
//! it: the cell `[x, x + 1)` holds the positions whose grid coordinate lies in
//! `(x, x + 1]` (`0` also holds the left edge), which is exactly where a descent
//! that tries the lower quadrant first puts a position on a shared edge.
use vstd::prelude::*;

verus! {

/// Number of grid units across the domain.
pub const GRID: i64 = 262144;

/// Largest depth of a quadtree node; its cells are one grid unit wide.
pub const MAX_DEPTH: u32 = 18;

/// Largest magnitude of a coordinate that a bound may hold.
pub const COORD_LIMIT: i64 = 1073741824;

/// A point (or cell) of the grid.
#[derive(Clone, Copy, Debug, PartialEq, Eq, Structural)]
pub struct GridPoint {
    pub x: i64,
    pub y: i64,
}

/// The cell `c` lies in the domain.
pub open spec fn on_grid(c: GridPoint) -> bool {
    0 <= c.x < GRID && 0 <= c.y < GRID
}

/// A coordinate that a bound may hold.
pub open spec fn coord_ok(v: i64) -> bool {
    -COORD_LIMIT <= v <= COORD_LIMIT
}

/// A rectangle with corners `bot_left` and `top_right`; `size_squared` caches the
/// square of its width.
#[derive(Clone, Copy, Debug, PartialEq, Eq, Structural)]
pub struct Bound {
    pub top_right: GridPoint,
    pub bot_left: GridPoint,
    pub size_squared: i64,
}

/// `a` and `b` share interior area.
pub open spec fn overlaps(a: Bound, b: Bound) -> bool {
    &&& a.bot_left.x < b.top_right.x
    &&& b.bot_left.x < a.top_right.x
    &&& a.bot_left.y < b.top_right.y
    &&& b.bot_left.y < a.top_right.y
}

/// The cell `c` lies in `b` (bounds are closed below and open above on the grid).
pub open spec fn holds(b: Bound, c: GridPoint) -> bool {
    b.bot_left.x <= c.x < b.top_right.x && b.bot_left.y <= c.y < b.top_right.y
}

/// `inner` lies within `outer`.
pub open spec fn within(inner: Bound, outer: Bound) -> bool {
    &&& outer.bot_left.x <= inner.bot_left.x
    &&& inner.top_right.x <= outer.top_right.x
    &&& outer.bot_left.y <= inner.bot_left.y
    &&& inner.top_right.y <= outer.top_right.y
}

impl Bound {
    /// The bound with corners `bl` and `tr`, assumed square.
    pub fn new(bl: GridPoint, tr: GridPoint) -> (r: Bound)
        requires
            coord_ok(bl.x),
            coord_ok(bl.y),
            coord_ok(tr.x),
            coord_ok(tr.y),
        ensures
            r.bot_left == bl,
            r.top_right == tr,
            r.size_squared == (tr.x - bl.x) * (tr.x - bl.x),
    {
        let sz = tr.x - bl.x;
        assert(-2147483648 <= sz <= 2147483648);
        assert(0 <= sz * sz <= 4611686018427387904) by (nonlinear_arith)
            requires
                -2147483648 <= sz <= 2147483648,
        ;
        Bound { top_right: tr, bot_left: bl, size_squared: sz * sz }
    }

    /// Width and height.
    pub fn get_dim(&self) -> (r: GridPoint)
        requires
            coord_ok(self.bot_left.x),
            coord_ok(self.bot_left.y),
            coord_ok(self.top_right.x),
            coord_ok(self.top_right.y),
        ensures
            r.x == self.top_right.x - self.bot_left.x,
            r.y == self.top_right.y - self.bot_left.y,
    {
        GridPoint { x: self.top_right.x - self.bot_left.x, y: self.top_right.y - self.bot_left.y }
    }

    /// Whether the two bounds share interior area.
    pub fn is_overlap(&self, other: &Bound) -> (r: bool)
        ensures
            r == overlaps(*self, *other),
    {
        if self.top_right.x <= other.bot_left.x || self.bot_left.x >= other.top_right.x {
            return false;
        }
        if self.top_right.y <= other.bot_left.y || self.bot_left.y >= other.top_right.y {
            return false;
        }
        true
    }

    /// Whether the cell `pos` lies in this bound.
    pub fn in_bounds(&self, pos: GridPoint) -> (r: bool)
        ensures
            r == holds(*self, pos),
    {
        pos.x >= self.bot_left.x && pos.x < self.top_right.x && pos.y >= self.bot_left.y
            && pos.y < self.top_right.y
    }
}

} // verus!
