//! The board: cell states, bounds, traversability, and the board invariant.

use vstd::prelude::*;
use vstd::relations::injective_on;
use vstd::set_lib::{lemma_int_range, lemma_len_subset, lemma_map_size, set_int_range};

use crate::node::{octile_cost, Node, BASE_G_COST, DIAG_G_COST};

verus! {

/// Cell state: traversable and unmarked.
pub const FREE_NODE: i32 = 0;

/// Cell state: impassable.
pub const BLOCKED_NODE: i32 = 1;

/// Cell state: the start cell of the search.
pub const START_INDICATOR: i32 = 8;

/// Cell state: the end cell of the search.
pub const END_INDICATOR: i32 = 9;

/// The mathematical board behind an executable one: the sequence of its
/// rows' contents.
pub open spec fn board_view(rows: Seq<Vec<i32>>) -> Seq<Seq<i32>> {
    Seq::new(rows.len(), |i: int| rows[i]@)
}

/// The board is non-empty and rectangular: every row has the width of the
/// first one.
pub open spec fn board_wf(b: Seq<Seq<i32>>) -> bool {
    &&& b.len() > 0
    &&& b[0].len() > 0
    &&& forall|i: int| 0 <= i < b.len() ==> #[trigger] b[i].len() == b[0].len()
}

/// `n` lies on the board.
pub open spec fn in_bounds(b: Seq<Seq<i32>>, n: Node) -> bool {
    0 <= n.x < b.len() && 0 <= n.y < b[0].len()
}

/// The state of the cell at `n`.
pub open spec fn cell(b: Seq<Seq<i32>>, n: Node) -> i32 {
    b[n.x as int][n.y as int]
}

/// A cell can be stepped on when it lies on the board and is not blocked;
/// free cells and the start and end markers are all traversable.
pub open spec fn traversable(b: Seq<Seq<i32>>, n: Node) -> bool {
    in_bounds(b, n) && cell(b, n) != BLOCKED_NODE
}

/// The board invariant: the board is rectangular, the start cell carries the
/// start marker, the end cell carries the end marker, the two differ, and
/// every other cell is either free or blocked — so no second start or end
/// marker exists anywhere.
pub open spec fn grid_valid(b: Seq<Seq<i32>>, s: Node, e: Node) -> bool {
    &&& board_wf(b)
    &&& in_bounds(b, s)
    &&& in_bounds(b, e)
    &&& s != e
    &&& cell(b, s) == START_INDICATOR
    &&& cell(b, e) == END_INDICATOR
    &&& forall|i: int, j: int|
        0 <= i < b.len() && 0 <= j < b[0].len() && !(i == s.x && j == s.y) && !(i == e.x && j
            == e.y) ==> #[trigger] b[i][j] == FREE_NODE || b[i][j] == BLOCKED_NODE
}

/// The number of cells on the board.
pub open spec fn area(b: Seq<Seq<i32>>) -> int {
    b.len() * (b[0].len() as int)
}

/// The board is small enough that no score of the search can overflow: the
/// accumulated unit-step cost is bounded by the cell count, the heuristic by
/// the diagonal rate times the two dimensions, and their sum must fit.
pub open spec fn size_ok(b: Seq<Seq<i32>>) -> bool {
    area(b) + DIAG_G_COST * (b.len() + b[0].len()) <= i32::MAX
}

/// The row-major position of `n` in a flattened table of the board's cells.
pub open spec fn node_idx(b: Seq<Seq<i32>>, n: Node) -> int {
    n.x * b[0].len() + n.y
}

/// Flattened positions of on-board cells lie inside the flattened table.
pub proof fn lemma_node_idx_in_range(b: Seq<Seq<i32>>, n: Node)
    requires
        board_wf(b),
        in_bounds(b, n),
    ensures
        0 <= node_idx(b, n) < area(b),
{
    let h = b.len() as int;
    let w = b[0].len() as int;
    assert(0 <= n.x * w + n.y < h * w) by (nonlinear_arith)
        requires
            0 <= n.x < h,
            0 <= n.y < w,
    ;
}

/// Distinct on-board cells flatten to distinct positions.
pub proof fn lemma_node_idx_injective(b: Seq<Seq<i32>>, n1: Node, n2: Node)
    requires
        board_wf(b),
        in_bounds(b, n1),
        in_bounds(b, n2),
        node_idx(b, n1) == node_idx(b, n2),
    ensures
        n1 == n2,
{
    let w = b[0].len() as int;
    assert(n1.x == n2.x && n1.y == n2.y) by (nonlinear_arith)
        requires
            0 <= n1.y < w,
            0 <= n2.y < w,
            n1.x * w + n1.y == n2.x * w + n2.y,
    ;
}

/// Distinct on-board cells have distinct flattened positions.
pub proof fn lemma_node_idx_distinct(b: Seq<Seq<i32>>, n1: Node, n2: Node)
    requires
        board_wf(b),
        in_bounds(b, n1),
        in_bounds(b, n2),
        n1 != n2,
    ensures
        node_idx(b, n1) != node_idx(b, n2),
{
    if node_idx(b, n1) == node_idx(b, n2) {
        lemma_node_idx_injective(b, n1, n2);
    }
}

/// The heuristic between two on-board cells is bounded by the diagonal rate
/// times the two board dimensions.
pub proof fn lemma_octile_bound(b: Seq<Seq<i32>>, n: Node, m: Node)
    requires
        board_wf(b),
        in_bounds(b, n),
        in_bounds(b, m),
    ensures
        0 <= octile_cost(n, m) <= DIAG_G_COST * (b.len() + b[0].len()),
{
    assert(BASE_G_COST < DIAG_G_COST);
}

impl Node {
    /// Whether this cell can be stepped on on the given board: free cells
    /// and the start and end markers can, blocked cells cannot, and a cell
    /// off the board never can — the answer there is `false`, not a panic.
    pub fn is_traversible(&self, board: &Vec<Vec<i32>>) -> (r: bool)
        requires
            board_wf(board_view(board@)),
        ensures
            r == traversable(board_view(board@), *self),
    {
        if self.x < 0 || self.y < 0 {
            return false;
        }
        if (self.x as usize) >= board.len() {
            return false;
        }
        if (self.y as usize) >= board[0].len() {
            return false;
        }
        proof {
            assert(board_view(board@)[self.x as int].len() == board_view(board@)[0].len());
        }
        board[self.x as usize][self.y as usize] != BLOCKED_NODE
    }
}

/// A list of distinct on-board cells cannot be longer than the cell count:
/// flattening the cells injects the list into the flattened table positions.
pub proof fn lemma_distinct_inbounds_len(b: Seq<Seq<i32>>, s: Seq<Node>)
    requires
        board_wf(b),
        s.no_duplicates(),
        forall|i: int| 0 <= i < s.len() ==> in_bounds(b, #[trigger] s[i]),
    ensures
        s.len() <= area(b),
{
    broadcast use vstd::seq_lib::seq_to_set_is_finite;

    let st = s.to_set();
    s.unique_seq_to_set();
    let f = |n: Node| node_idx(b, n);
    let img = st.map(f);
    assert forall|n: Node| #[trigger] st.contains(n) implies in_bounds(b, n) by {
        let i = choose|i: int| 0 <= i < s.len() && s[i] == n;
    }
    assert(injective_on(f, st)) by {
        assert forall|n1: Node, n2: Node|
            st.contains(n1) && st.contains(n2) && #[trigger] f(n1) == #[trigger] f(n2) implies n1
            == n2 by {
            lemma_node_idx_injective(b, n1, n2);
        }
    }
    lemma_map_size(st, img, f);
    let rng = set_int_range(0, area(b));
    lemma_int_range(0, area(b));
    assert(img.subset_of(rng)) by {
        assert forall|k: int| #[trigger] img.contains(k) implies 0 <= k < area(b) by {
            let n = choose|n: Node| st.contains(n) && f(n) == k;
            lemma_node_idx_in_range(b, n);
        }
    }
    lemma_len_subset(img, rng);
}

} // verus!
