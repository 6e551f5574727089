//! Random board generation: dimensions, start and end placement, cell states.

use vstd::prelude::*;

use rand::Rng;

use crate::grid::{
    board_view, cell, grid_valid, BLOCKED_NODE, END_INDICATOR, FREE_NODE, START_INDICATOR,
};
use crate::node::Node;

verus! {

/// The exclusive upper bound on randomly drawn board dimensions.
pub const MAX_BOARD_SIZE: i32 = 23;

/// Relies on rand's `Rng::gen_range` on the thread-local generator: it
/// returns a value of the half-open range and panics only when the range is
/// empty.
#[verifier::external_body]
fn rand_in_range(lo: i32, hi: i32) -> (r: i32)
    requires
        lo < hi,
    ensures
        lo <= r < hi,
{
    rand::thread_rng().gen_range(lo..hi)
}

/// Relies on rand's `Rng::gen_ratio` on the thread-local generator: it
/// returns true with probability `numerator` in `denominator` and panics
/// only when the denominator is zero or smaller than the numerator. Nothing
/// is promised of the result, since it is random.
#[verifier::external_body]
fn rand_one_in(numerator: u32, denominator: u32) -> bool
    requires
        0 < denominator,
        numerator <= denominator,
{
    rand::thread_rng().gen_ratio(numerator, denominator)
}

/// Draw one random cell state for board generation: blocked about one time
/// in three, free otherwise.
pub fn gen_blockade() -> (r: i32)
    ensures
        r == FREE_NODE || r == BLOCKED_NODE,
{
    if rand_one_in(1, 3) {
        BLOCKED_NODE
    } else {
        FREE_NODE
    }
}

/// Draw a random board dimension between `x` and the board size bound.
pub fn gen_range(x: i32) -> (r: i32)
    requires
        x < MAX_BOARD_SIZE,
    ensures
        x <= r < MAX_BOARD_SIZE,
{
    rand_in_range(x, MAX_BOARD_SIZE)
}

/// Draw a random position on a board of the given dimensions; used to place
/// the start and end cells.
pub fn get_rand_pos(height: i32, width: i32) -> (r: (i32, i32))
    requires
        0 < height,
        0 < width,
    ensures
        0 <= r.0 < height,
        0 <= r.1 < width,
{
    (rand_in_range(0, height), rand_in_range(0, width))
}

/// What one generated cell must hold: the start marker at `start`, the end
/// marker at `end`, and a random free or blocked state everywhere else.
pub open spec fn gen_cell_ok(v: i32, i: int, j: int, start: (i32, i32), end: (i32, i32)) -> bool {
    if i == start.0 && j == start.1 {
        v == START_INDICATOR
    } else if i == end.0 && j == end.1 {
        v == END_INDICATOR
    } else {
        v == FREE_NODE || v == BLOCKED_NODE
    }
}

/// Generate a board of the given dimensions whose cells are randomly free or
/// blocked, with the start and end markers placed on the two given distinct
/// positions. The result always satisfies the board invariant.
#[verifier::loop_isolation(false)]
pub fn gen_board(height: i32, width: i32, start: (i32, i32), end: (i32, i32)) -> (r: Vec<Vec<i32>>)
    requires
        0 < height,
        0 < width,
        0 <= start.0 < height,
        0 <= start.1 < width,
        0 <= end.0 < height,
        0 <= end.1 < width,
        start != end,
    ensures
        board_view(r@).len() == height,
        forall|i: int| 0 <= i < height ==> #[trigger] board_view(r@)[i].len() == width,
        forall|i: int, j: int|
            0 <= i < height && 0 <= j < width ==> gen_cell_ok(
                #[trigger] board_view(r@)[i][j],
                i,
                j,
                start,
                end,
            ),
        grid_valid(board_view(r@), Node { x: start.0, y: start.1 }, Node { x: end.0, y: end.1 }),
{
    let mut result: Vec<Vec<i32>> = Vec::new();
    let mut i: i32 = 0;
    while i < height
        invariant
            0 <= i <= height,
            result@.len() == i,
            forall|ii: int| 0 <= ii < i ==> (#[trigger] result@[ii])@.len() == width,
            forall|ii: int, jj: int|
                0 <= ii < i && 0 <= jj < width ==> gen_cell_ok(
                    #[trigger] result@[ii]@[jj],
                    ii,
                    jj,
                    start,
                    end,
                ),
        decreases height - i,
    {
        let mut row: Vec<i32> = Vec::new();
        let mut j: i32 = 0;
        while j < width
            invariant
                0 <= j <= width,
                row@.len() == j,
                forall|jj: int|
                    0 <= jj < j ==> gen_cell_ok(#[trigger] row@[jj], i as int, jj, start, end),
            decreases width - j,
        {
            if i == start.0 && j == start.1 {
                row.push(START_INDICATOR);
            } else if i == end.0 && j == end.1 {
                row.push(END_INDICATOR);
            } else {
                row.push(gen_blockade());
            }
            j = j + 1;
        }
        result.push(row);
        i = i + 1;
    }
    proof {
        let s = Node { x: start.0, y: start.1 };
        let e = Node { x: end.0, y: end.1 };
        let bv = board_view(result@);
        assert forall|ii: int, jj: int| 0 <= ii < height && 0 <= jj < width implies gen_cell_ok(
            #[trigger] bv[ii][jj],
            ii,
            jj,
            start,
            end,
        ) by {
            assert(bv[ii][jj] == result@[ii]@[jj]);
        }
        assert(cell(bv, s) == START_INDICATOR);
        assert(cell(bv, e) == END_INDICATOR);
    }
    result
}

} // verus!
