use vstd::prelude::*;

verus! {

/// Width of the sea, in cells.
pub const WIDTH: usize = 20;

/// Height of the sea, in cells.
pub const HEIGHT: usize = 20;

/// A cell of the grid: 0-based column `x` and row `y`.
#[derive(Clone, Copy, Debug, PartialEq, Eq, Structural)]
pub struct Position {
    pub x: usize,
    pub y: usize,
}

/// One coordinate moved by `d`, when the result lies in `0..limit`.
pub open spec fn shifted(c: usize, d: i8, limit: usize) -> Option<usize> {
    if 0 <= c + d < limit {
        Some((c + d) as usize)
    } else {
        None
    }
}

/// The cell `(dx, dy)` away from `p`, when it lies on a `width` × `height` grid.
pub open spec fn cell_after(p: Position, dx: i8, dy: i8, width: usize, height: usize) -> Option<
    Position,
> {
    match (shifted(p.x, dx, width), shifted(p.y, dy, height)) {
        (Some(x), Some(y)) => Some(Position { x, y }),
        _ => None,
    }
}

/// The larger of the two coordinate gaps between `a` and `b` (the distance of a king on a chessboard).
pub open spec fn box_gap(a: Position, b: Position) -> nat {
    let dx = if a.x >= b.x {
        a.x - b.x
    } else {
        b.x - a.x
    };
    let dy = if a.y >= b.y {
        a.y - b.y
    } else {
        b.y - a.y
    };
    if dx >= dy {
        dx as nat
    } else {
        dy as nat
    }
}

fn gap(a: usize, b: usize) -> (r: usize)
    ensures
        r == (if a >= b {
            a - b
        } else {
            b - a
        }),
{
    if a >= b {
        a - b
    } else {
        b - a
    }
}

fn shift(c: usize, d: i8, limit: usize) -> (r: Option<usize>)
    ensures
        r == shifted(c, d, limit),
{
    if d < 0 {
        let m: usize = (0 - (d as i16)) as usize;
        if c < m {
            None
        } else if c - m < limit {
            Some(c - m)
        } else {
            None
        }
    } else {
        let m: usize = d as usize;
        if c < limit && m < limit - c {
            Some(c + m)
        } else {
            None
        }
    }
}

impl Position {
    /// The cell one move of `(dx, dy)` away, or `None` when that leaves the grid.
    pub fn step(&self, dx: i8, dy: i8, width: usize, height: usize) -> (r: Option<Position>)
        ensures
            r == cell_after(*self, dx, dy, width, height),
    {
        match (shift(self.x, dx, width), shift(self.y, dy, height)) {
            (Some(x), Some(y)) => Some(Position { x, y }),
            _ => None,
        }
    }

    /// Whether `other` lies within `range` cells of `self` along both axes.
    pub fn within_range(&self, other: &Position, range: usize) -> (r: bool)
        ensures
            r == (box_gap(*self, *other) <= range),
    {
        gap(self.x, other.x) <= range && gap(self.y, other.y) <= range
    }

    /// The square of the Euclidean distance to `other`, or `None` when it does not fit in a `u64`.
    pub fn distance_squared(&self, other: &Position) -> (r: Option<u64>)
        ensures
            match r {
                Some(d) => d == gap_sq(self.x, other.x) + gap_sq(self.y, other.y),
                None => gap_sq(self.x, other.x) + gap_sq(self.y, other.y) > u64::MAX,
            },
    {
        let dx = gap(self.x, other.x) as u128;
        let dy = gap(self.y, other.y) as u128;
        assert(dx * dx <= u64::MAX as u128 * u64::MAX as u128) by (nonlinear_arith)
            requires
                dx <= u64::MAX,
        ;
        assert(dy * dy <= u64::MAX as u128 * u64::MAX as u128) by (nonlinear_arith)
            requires
                dy <= u64::MAX,
        ;
        let sx = dx * dx;
        let sy = dy * dy;
        assert(sx == gap_sq(self.x, other.x)) by (nonlinear_arith)
            requires
                sx == dx * dx,
                dx == self.x - other.x || dx == other.x - self.x,
        ;
        assert(sy == gap_sq(self.y, other.y)) by (nonlinear_arith)
            requires
                sy == dy * dy,
                dy == self.y - other.y || dy == other.y - self.y,
        ;
        if sx > u64::MAX as u128 || sy > u64::MAX as u128 - sx {
            None
        } else {
            Some((sx + sy) as u64)
        }
    }
}

/// The square of the gap between two coordinates.
pub open spec fn gap_sq(a: usize, b: usize) -> int {
    (a - b) * (a - b)
}

} // verus!
