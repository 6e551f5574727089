//! Grid coordinates and the octile step-cost model.

use vstd::prelude::*;

verus! {

/// Cost of one orthogonal step.
pub const BASE_G_COST: i32 = 10;

/// Cost of one diagonal step: the base cost scaled by the diagonal factor
/// (seven fifths), truncated once to an integer and reused as a constant so
/// that no per-step rounding drift can occur.
pub const DIAG_G_COST: i32 = 14;

/// A cell coordinate on the board: `x` is the row, `y` is the column.
#[derive(Debug, Clone, Copy, Hash, PartialEq, Eq, Structural)]
pub struct Node {
    /// Row index.
    pub x: i32,
    /// Column index.
    pub y: i32,
}

/// Distance between two values on one axis.
pub open spec fn abs_delta(a: int, b: int) -> int {
    if a >= b {
        a - b
    } else {
        b - a
    }
}

/// The octile distance between two cells: every step may move to any of the
/// eight surrounding cells, a diagonal step covers one unit on both axes at
/// the discounted rate, and the remaining distance is covered orthogonally.
pub open spec fn octile_cost(a: Node, b: Node) -> int {
    let dx = abs_delta(a.x as int, b.x as int);
    let dy = abs_delta(a.y as int, b.y as int);
    let diag_steps = if dx <= dy {
        dx
    } else {
        dy
    };
    DIAG_G_COST * diag_steps + BASE_G_COST * (dx + dy - 2 * diag_steps)
}

/// The larger of the two axis distances: the number of eight-connected steps
/// that any walk from `a` to `b` needs at the very least.
pub open spec fn chebyshev(a: Node, b: Node) -> int {
    let dx = abs_delta(a.x as int, b.x as int);
    let dy = abs_delta(a.y as int, b.y as int);
    if dx >= dy {
        dx
    } else {
        dy
    }
}

/// The octile distance does not depend on the order of its arguments.
pub proof fn lemma_cost_symmetric(a: Node, b: Node)
    ensures
        octile_cost(a, b) == octile_cost(b, a),
{
}

/// The octile distance is never negative.
pub proof fn lemma_cost_nonnegative(a: Node, b: Node)
    ensures
        octile_cost(a, b) >= 0,
{
}

impl Node {
    /// The octile distance from `self` to `node` as an executable value.
    ///
    /// This single formula serves as the heuristic estimate towards the end
    /// cell; the solver accumulates the real path cost in unit steps instead
    /// of recomputing this geometric value.
    pub fn get_cost(self, node: Node) -> (r: i32)
        requires
            octile_cost(self, node) <= i32::MAX,
        ensures
            r == octile_cost(self, node),
    {
        let ud = if self.x >= node.x {
            self.x - node.x
        } else {
            node.x - self.x
        };
        let lr = if self.y >= node.y {
            self.y - node.y
        } else {
            node.y - self.y
        };
        let diag_steps = if ud <= lr {
            ud
        } else {
            lr
        };
        let straight_steps = ud + lr - 2 * diag_steps;
        DIAG_G_COST * diag_steps + BASE_G_COST * straight_steps
    }

    /// The f cost of `self` for a search from `start` to `end`: the geometric
    /// cost back to the start plus the heuristic estimate towards the end.
    pub fn get_f_cost(&self, start: Node, end: Node) -> (r: i32)
        requires
            octile_cost(*self, start) + octile_cost(*self, end) <= i32::MAX,
        ensures
            r == octile_cost(*self, start) + octile_cost(*self, end),
    {
        proof {
            lemma_cost_nonnegative(*self, start);
            lemma_cost_nonnegative(*self, end);
        }
        (*self).get_cost(start) + (*self).get_cost(end)
    }
}

} // verus!
