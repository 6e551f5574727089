//! The search, stated mathematically: neighbourhood generation, frontier
//! extraction, score relaxation, the best-first loop, and path
//! reconstruction, together with the laws that hold of them.
//!
//! The executable solver is proved to return exactly what [`astar_spec`]
//! describes, so every property of the search can be read off these
//! definitions.

use vstd::prelude::*;

use crate::grid::{area, board_wf, in_bounds, node_idx, traversable};
use crate::node::{abs_delta, chebyshev, octile_cost, Node};

verus! {

/// The bookkeeping of one running search.
///
/// `open` is the frontier in insertion order; `closed` the expanded cells in
/// expansion order; `g`, `f` and `came` are tables over the flattened board,
/// holding the best known accumulated cost, its sum with the heuristic, and
/// the predecessor on the best known path. An unknown score is the largest
/// integer value.
pub struct SearchState {
    /// Frontier cells, oldest first.
    pub open: Seq<Node>,
    /// Expanded cells, oldest first.
    pub closed: Seq<Node>,
    /// Best known accumulated cost per cell.
    pub g: Seq<i32>,
    /// Best known accumulated cost plus heuristic per cell.
    pub f: Seq<i32>,
    /// Predecessor per cell on the best known path.
    pub came: Seq<Option<Node>>,
}

/// Two cells touch: they differ by at most one step on each axis and are not
/// the same cell.
pub open spec fn adjacent(a: Node, b: Node) -> bool {
    &&& abs_delta(a.x as int, b.x as int) <= 1
    &&& abs_delta(a.y as int, b.y as int) <= 1
    &&& !(a.x == b.x && a.y == b.y)
}

/// The eight neighbour offsets, in the row-major order in which candidates
/// around a cell are visited.
pub open spec fn offset(k: int) -> (int, int) {
    if k == 0 {
        (-1, -1)
    } else if k == 1 {
        (-1, 0)
    } else if k == 2 {
        (-1, 1)
    } else if k == 3 {
        (0, -1)
    } else if k == 4 {
        (0, 1)
    } else if k == 5 {
        (1, -1)
    } else if k == 6 {
        (1, 0)
    } else {
        (1, 1)
    }
}

/// The candidate cell reached from `n` by the `k`-th offset.
pub open spec fn nbr_at(n: Node, k: int) -> Node {
    Node { x: (n.x + offset(k).0) as i32, y: (n.y + offset(k).1) as i32 }
}

/// The traversable neighbours of `n` among the first `k` offsets, in offset
/// order.
pub open spec fn nbrs_upto(b: Seq<Seq<i32>>, n: Node, k: int) -> Seq<Node>
    decreases k,
{
    if k <= 0 {
        Seq::empty()
    } else {
        nbrs_upto(b, n, k - 1) + (if traversable(b, nbr_at(n, k - 1)) {
            seq![nbr_at(n, k - 1)]
        } else {
            Seq::empty()
        })
    }
}

/// The neighbours a search step expands from `n`: of the eight surrounding
/// candidates, those that lie on the board and are traversable; the cell
/// itself is never among them.
pub open spec fn neighbors_of(b: Seq<Seq<i32>>, n: Node) -> Seq<Node> {
    nbrs_upto(b, n, 8)
}

/// Neighbour generation excludes the cell itself and every candidate that
/// falls off the board or is blocked; what it yields touches the cell.
pub proof fn lemma_neighbors_sound(b: Seq<Seq<i32>>, n: Node)
    requires
        board_wf(b),
        in_bounds(b, n),
        b.len() <= i32::MAX,
        b[0].len() <= i32::MAX,
    ensures
        forall|j: int|
            0 <= j < neighbors_of(b, n).len() ==> {
                let m = #[trigger] neighbors_of(b, n)[j];
                m != n && in_bounds(b, m) && traversable(b, m) && adjacent(n, m)
            },
{
    lemma_nbrs_upto_sound(b, n, 8);
}

proof fn lemma_nbrs_upto_sound(b: Seq<Seq<i32>>, n: Node, k: int)
    requires
        board_wf(b),
        in_bounds(b, n),
        b.len() <= i32::MAX,
        b[0].len() <= i32::MAX,
        k <= 8,
    ensures
        forall|j: int|
            0 <= j < nbrs_upto(b, n, k).len() ==> {
                let m = #[trigger] nbrs_upto(b, n, k)[j];
                m != n && in_bounds(b, m) && traversable(b, m) && adjacent(n, m)
            },
    decreases k,
{
    if k > 0 {
        lemma_nbrs_upto_sound(b, n, k - 1);
        let prev = nbrs_upto(b, n, k - 1);
        let here = nbrs_upto(b, n, k);
        let m = nbr_at(n, k - 1);
        if traversable(b, m) {
            assert(m.x == n.x + offset(k - 1).0 && m.y == n.y + offset(k - 1).1);
            assert(adjacent(n, m) && m != n);
            assert forall|j: int| 0 <= j < here.len() implies {
                let mm = #[trigger] here[j];
                mm != n && in_bounds(b, mm) && traversable(b, mm) && adjacent(n, mm)
            } by {
                if j < prev.len() {
                    assert(here[j] == prev[j]);
                } else {
                    assert(here[j] == m);
                }
            }
        } else {
            assert(here =~= prev);
        }
    }
}

/// Every traversable cell touching `n` is among its generated neighbours.
pub proof fn lemma_neighbors_complete(b: Seq<Seq<i32>>, n: Node, m: Node)
    requires
        board_wf(b),
        in_bounds(b, n),
        b.len() <= i32::MAX,
        b[0].len() <= i32::MAX,
        adjacent(n, m),
        traversable(b, m),
    ensures
        neighbors_of(b, n).contains(m),
{
    let dx = m.x - n.x;
    let dy = m.y - n.y;
    let k: int = if dx == -1 && dy == -1 {
        0
    } else if dx == -1 && dy == 0 {
        1
    } else if dx == -1 && dy == 1 {
        2
    } else if dx == 0 && dy == -1 {
        3
    } else if dx == 0 && dy == 1 {
        4
    } else if dx == 1 && dy == -1 {
        5
    } else if dx == 1 && dy == 0 {
        6
    } else {
        7
    };
    assert(nbr_at(n, k) == m);
    lemma_nbrs_upto_contains_at(b, n, k + 1, k);
    lemma_nbrs_upto_prefix(b, n, k + 1, 8, m);
}

proof fn lemma_nbrs_upto_contains_at(b: Seq<Seq<i32>>, n: Node, k: int, j: int)
    requires
        0 <= j < k,
        k == j + 1,
        traversable(b, nbr_at(n, j)),
    ensures
        nbrs_upto(b, n, k).contains(nbr_at(n, j)),
{
    let tail = nbrs_upto(b, n, k);
    assert(tail[tail.len() - 1] == nbr_at(n, j));
}

proof fn lemma_nbrs_upto_prefix(b: Seq<Seq<i32>>, n: Node, k1: int, k2: int, m: Node)
    requires
        0 <= k1 <= k2,
        nbrs_upto(b, n, k1).contains(m),
    ensures
        nbrs_upto(b, n, k2).contains(m),
    decreases k2 - k1,
{
    if k1 < k2 {
        let prev = nbrs_upto(b, n, k2 - 1);
        lemma_nbrs_upto_prefix(b, n, k1, k2 - 1, m);
        let j = choose|j: int| 0 <= j < prev.len() && prev[j] == m;
        assert(nbrs_upto(b, n, k2)[j] == m);
    }
}

/// The index of the frontier cell that the search pops next, among the first
/// `k` frontier entries: the earliest entry whose `f` score is minimal, so
/// ties go to the cell that entered the frontier first.
pub open spec fn min_f_prefix(b: Seq<Seq<i32>>, open: Seq<Node>, f: Seq<i32>, k: int) -> int
    decreases k,
{
    if k <= 1 {
        0
    } else {
        let best = min_f_prefix(b, open, f, k - 1);
        if f[node_idx(b, open[k - 1])] < f[node_idx(b, open[best])] {
            k - 1
        } else {
            best
        }
    }
}

/// The index of the frontier cell that the search pops next.
pub open spec fn min_f_idx(b: Seq<Seq<i32>>, open: Seq<Node>, f: Seq<i32>) -> int {
    min_f_prefix(b, open, f, open.len() as int)
}

/// The path that the predecessor table encodes from `start` to `n`,
/// collected in start-to-`n` order. The fuel bounds the number of
/// predecessor steps that are followed; with a well-formed table, any fuel
/// at least the accumulated cost of `n` yields the whole path.
pub open spec fn pchain(
    b: Seq<Seq<i32>>,
    came: Seq<Option<Node>>,
    start: Node,
    n: Node,
    fuel: nat,
) -> Seq<Node>
    decreases fuel,
{
    if n == start || fuel == 0 {
        seq![n]
    } else {
        match came[node_idx(b, n)] {
            Some(m) => pchain(b, came, start, m, (fuel - 1) as nat).push(n),
            None => seq![n],
        }
    }
}

/// One relaxation step of the search: a neighbour `nbr` of the cell `cur`
/// being expanded is ignored when it was already expanded; otherwise, when
/// one unit step beyond `cur`'s accumulated cost improves on the
/// neighbour's, the neighbour's scores and predecessor are updated and it
/// enters the frontier unless it is already there.
pub open spec fn relax(
    b: Seq<Seq<i32>>,
    endn: Node,
    cur: Node,
    st: SearchState,
    nbr: Node,
) -> SearchState {
    let ci = node_idx(b, cur);
    let ni = node_idx(b, nbr);
    if st.closed.contains(nbr) {
        st
    } else {
        let tentative = st.g[ci] + 1;
        if tentative < st.g[ni] {
            SearchState {
                open: if st.open.contains(nbr) {
                    st.open
                } else {
                    st.open.push(nbr)
                },
                closed: st.closed,
                g: st.g.update(ni, tentative as i32),
                f: st.f.update(ni, (tentative + octile_cost(nbr, endn)) as i32),
                came: st.came.update(ni, Some(cur)),
            }
        } else {
            st
        }
    }
}

/// The state after relaxing the first `j` neighbours of `cur`, in order.
pub open spec fn expand_upto(
    b: Seq<Seq<i32>>,
    endn: Node,
    cur: Node,
    nbrs: Seq<Node>,
    j: int,
    st: SearchState,
) -> SearchState
    decreases j,
{
    if j <= 0 {
        st
    } else {
        relax(b, endn, cur, expand_upto(b, endn, cur, nbrs, j - 1, st), nbrs[j - 1])
    }
}

/// The search loop from an arbitrary state: while the frontier is
/// non-empty, pop the earliest cell with minimal `f` score; if it is the
/// end, the answer is the path that the predecessor table encodes;
/// otherwise move it to the expanded cells, relax its neighbours, and
/// continue. An empty frontier means no path exists. The fuel bounds the
/// number of iterations; each iteration expands a cell that was never
/// expanded before, so a fuel of one more than the cell count is never
/// exhausted.
pub open spec fn search_from(
    b: Seq<Seq<i32>>,
    start: Node,
    endn: Node,
    st: SearchState,
    fuel: nat,
) -> Option<Seq<Node>>
    decreases fuel,
{
    if st.open.len() == 0 {
        None
    } else if fuel == 0 {
        None
    } else {
        let i = min_f_idx(b, st.open, st.f);
        let cur = st.open[i];
        if cur == endn {
            Some(pchain(b, st.came, start, endn, area(b) as nat))
        } else {
            let st1 = SearchState {
                open: st.open.remove(i),
                closed: st.closed.push(cur),
                g: st.g,
                f: st.f,
                came: st.came,
            };
            let nbrs = neighbors_of(b, cur);
            let st2 = expand_upto(b, endn, cur, nbrs, nbrs.len() as int, st1);
            search_from(b, start, endn, st2, (fuel - 1) as nat)
        }
    }
}

/// The state in which a search for `start` to `endn` begins: the frontier
/// holds the start cell alone, nothing is expanded, every cell's scores are
/// unknown except the start's, whose accumulated cost is zero and whose `f`
/// score is the heuristic alone, and no cell has a predecessor.
pub open spec fn init_state(b: Seq<Seq<i32>>, start: Node, endn: Node) -> SearchState {
    SearchState {
        open: seq![start],
        closed: Seq::empty(),
        g: Seq::new(area(b) as nat, |i: int| i32::MAX).update(node_idx(b, start), 0),
        f: Seq::new(area(b) as nat, |i: int| i32::MAX).update(
            node_idx(b, start),
            octile_cost(start, endn) as i32,
        ),
        came: Seq::new(area(b) as nat, |i: int| None),
    }
}

/// The whole search as a mathematical function of the board, the start and
/// the end cell. The executable solver returns exactly this value, so two
/// runs on the same board and cells return the same answer.
pub open spec fn astar_spec(b: Seq<Seq<i32>>, start: Node, endn: Node) -> Option<Seq<Node>> {
    search_from(b, start, endn, init_state(b, start, endn), (area(b) + 1) as nat)
}

/// The state assembled from its five parts; the executable solver's tables
/// viewed as one mathematical state.
pub open spec fn st_of(
    open: Seq<Node>,
    closed: Seq<Node>,
    g: Seq<i32>,
    f: Seq<i32>,
    came: Seq<Option<Node>>,
) -> SearchState {
    SearchState { open, closed, g, f, came }
}

/// Every cell whose accumulated cost is known stands on the frontier or is
/// already expanded: the relaxation that first sets a cell's cost also
/// enqueues it, and only a pop moves a cell from the frontier to the
/// expanded ones.
pub open spec fn known_on_frontier(b: Seq<Seq<i32>>, st: SearchState) -> bool {
    forall|n: Node|
        in_bounds(b, n) && #[trigger] st.g[node_idx(b, n)] < i32::MAX ==> st.open.contains(n)
            || st.closed.contains(n)
}

/// Every traversable cell touching an expanded cell has a known
/// accumulated cost: expanding the cell relaxed all its neighbours.
pub open spec fn closed_edge_known(b: Seq<Seq<i32>>, st: SearchState) -> bool {
    forall|n: Node, m: Node|
        #[trigger] st.closed.contains(n) && #[trigger] adjacent(n, m) && traversable(b, m)
            ==> st.g[node_idx(b, m)] < i32::MAX
}

/// What holds of every frontier entry: it lies on the board, it is
/// traversable, its accumulated cost is known, and it is the start or has a
/// predecessor.
pub open spec fn open_entry_ok(b: Seq<Seq<i32>>, s: Node, st: SearchState, n: Node) -> bool {
    &&& in_bounds(b, n)
    &&& traversable(b, n)
    &&& st.g[node_idx(b, n)] < i32::MAX
    &&& (n == s || st.came[node_idx(b, n)] is Some)
}

/// The bookkeeping facts that hold at the top of every iteration of the
/// search loop: table sizes match the board, the expanded cells are
/// distinct on-board cells and no more numerous than the board's cells, the
/// frontier holds distinct well-formed entries that were never expanded,
/// the predecessor table is well formed, every known accumulated cost is
/// non-negative and bounded by the number of expanded cells, and the
/// start's accumulated cost stays zero.
pub open spec fn search_inv(b: Seq<Seq<i32>>, s: Node, st: SearchState) -> bool {
    &&& st.g.len() == area(b)
    &&& st.f.len() == area(b)
    &&& st.came.len() == area(b)
    &&& st.closed.no_duplicates()
    &&& forall|i: int| 0 <= i < st.closed.len() ==> in_bounds(b, #[trigger] st.closed[i])
    &&& st.closed.len() <= area(b)
    &&& st.open.no_duplicates()
    &&& forall|i: int| 0 <= i < st.open.len() ==> open_entry_ok(b, s, st, #[trigger] st.open[i])
    &&& forall|n: Node| #[trigger] st.open.contains(n) ==> !st.closed.contains(n)
    &&& came_wf(b, st.came, st.g, s)
    &&& forall|j: int| 0 <= j < st.g.len() ==> 0 <= #[trigger] st.g[j]
    &&& forall|j: int|
        0 <= j < st.g.len() ==> (#[trigger] st.g[j] < i32::MAX ==> st.g[j] <= st.closed.len())
    &&& st.g[node_idx(b, s)] == 0
    &&& forall|n: Node|
        #[trigger] st.closed.contains(n) ==> in_bounds(b, n) && st.g[node_idx(b, n)] < i32::MAX
    &&& known_on_frontier(b, st)
}

/// Two searches of the same board, start and end return the same answer:
/// the search is a mathematical function of those three values, with no
/// randomness and no hidden state, so solving twice changes nothing.
pub proof fn lemma_search_deterministic(
    b: Seq<Seq<i32>>,
    start: Node,
    endn: Node,
    r1: Option<Seq<Node>>,
    r2: Option<Seq<Node>>,
)
    requires
        r1 == astar_spec(b, start, endn),
        r2 == astar_spec(b, start, endn),
    ensures
        r1 == r2,
{
}

/// `p` walks from `s` to `e` over traversable cells in steps between
/// touching cells.
pub open spec fn is_path(b: Seq<Seq<i32>>, p: Seq<Node>, s: Node, e: Node) -> bool {
    &&& p.len() >= 1
    &&& p[0] == s
    &&& p[p.len() - 1] == e
    &&& forall|i: int| 0 <= i < p.len() ==> traversable(b, #[trigger] p[i])
    &&& forall|i: int| 0 <= i < p.len() - 1 ==> adjacent(#[trigger] p[i], p[i + 1])
}

/// What one entry of the predecessor table must satisfy for the table to
/// encode paths: a cell with a predecessor is not the start, both cells are
/// traversable, they touch, the predecessor's accumulated cost is smaller
/// and both are known, and the predecessor has a predecessor of its own
/// unless it is the start.
pub open spec fn came_ok(
    b: Seq<Seq<i32>>,
    came: Seq<Option<Node>>,
    g: Seq<i32>,
    s: Node,
    n: Node,
) -> bool {
    came[node_idx(b, n)] matches Some(m) ==> {
        &&& n != s
        &&& traversable(b, n)
        &&& in_bounds(b, m)
        &&& traversable(b, m)
        &&& adjacent(m, n)
        &&& 0 <= g[node_idx(b, m)] < g[node_idx(b, n)] < i32::MAX
        &&& (m == s || came[node_idx(b, m)] is Some)
    }
}

/// The predecessor table is well formed at every cell of the board.
pub open spec fn came_wf(b: Seq<Seq<i32>>, came: Seq<Option<Node>>, g: Seq<i32>, s: Node) -> bool {
    forall|n: Node| in_bounds(b, n) ==> #[trigger] came_ok(b, came, g, s, n)
}

/// With a well-formed predecessor table, the collected path does not depend
/// on the fuel, once the fuel covers the accumulated cost of the cell.
pub proof fn lemma_pchain_fuel(
    b: Seq<Seq<i32>>,
    came: Seq<Option<Node>>,
    g: Seq<i32>,
    s: Node,
    n: Node,
    f1: nat,
    f2: nat,
)
    requires
        board_wf(b),
        came_wf(b, came, g, s),
        in_bounds(b, n),
        n == s || came[node_idx(b, n)] is Some,
        f1 >= g[node_idx(b, n)],
        f2 >= g[node_idx(b, n)],
        0 <= g[node_idx(b, n)],
    ensures
        pchain(b, came, s, n, f1) == pchain(b, came, s, n, f2),
    decreases f1,
{
    if n != s {
        assert(came_ok(b, came, g, s, n));
        match came[node_idx(b, n)] {
            Some(m) => {
                lemma_pchain_fuel(b, came, g, s, m, (f1 - 1) as nat, (f2 - 1) as nat);
            },
            None => {},
        }
    }
}

/// With a well-formed predecessor table, the collected path really is a
/// path from the start to the cell.
pub proof fn lemma_pchain_is_path(
    b: Seq<Seq<i32>>,
    came: Seq<Option<Node>>,
    g: Seq<i32>,
    s: Node,
    n: Node,
    fuel: nat,
)
    requires
        board_wf(b),
        came_wf(b, came, g, s),
        in_bounds(b, n),
        traversable(b, n),
        traversable(b, s),
        n == s || came[node_idx(b, n)] is Some,
        fuel >= g[node_idx(b, n)],
        0 <= g[node_idx(b, n)],
    ensures
        is_path(b, pchain(b, came, s, n, fuel), s, n),
    decreases fuel,
{
    if n != s {
        assert(came_ok(b, came, g, s, n));
        match came[node_idx(b, n)] {
            Some(m) => {
                lemma_pchain_is_path(b, came, g, s, m, (fuel - 1) as nat);
                let pm = pchain(b, came, s, m, (fuel - 1) as nat);
                let p = pchain(b, came, s, n, fuel);
                assert(p == pm.push(n));
                assert(p[p.len() - 2] == pm[pm.len() - 1]);
                assert(forall|i: int| 0 <= i < pm.len() ==> p[i] == pm[i]);
            },
            None => {},
        }
    }
}

/// The collected path never repeats a cell: the accumulated cost strictly
/// decreases towards the start along the predecessor table, so no cell can
/// stand at two positions of the path.
pub proof fn lemma_pchain_no_duplicates(
    b: Seq<Seq<i32>>,
    came: Seq<Option<Node>>,
    g: Seq<i32>,
    s: Node,
    n: Node,
    fuel: nat,
)
    requires
        board_wf(b),
        came_wf(b, came, g, s),
        in_bounds(b, n),
        n == s || came[node_idx(b, n)] is Some,
        fuel >= g[node_idx(b, n)],
        0 <= g[node_idx(b, n)],
    ensures
        pchain(b, came, s, n, fuel).no_duplicates(),
        forall|i: int|
            0 <= i < pchain(b, came, s, n, fuel).len() ==> g[node_idx(
                b,
                #[trigger] pchain(b, came, s, n, fuel)[i],
            )] <= g[node_idx(b, n)],
    decreases fuel,
{
    if n != s {
        assert(came_ok(b, came, g, s, n));
        match came[node_idx(b, n)] {
            Some(m) => {
                lemma_pchain_no_duplicates(b, came, g, s, m, (fuel - 1) as nat);
                let pm = pchain(b, came, s, m, (fuel - 1) as nat);
                let p = pchain(b, came, s, n, fuel);
                assert(p == pm.push(n));
                assert forall|i: int, j: int|
                    0 <= i < p.len() && 0 <= j < p.len() && i != j implies p[i] != p[j] by {
                    if i < pm.len() && j < pm.len() {
                        assert(p[i] == pm[i] && p[j] == pm[j]);
                    } else if j == pm.len() {
                        assert(p[j] == n && p[i] == pm[i]);
                        assert(g[node_idx(b, pm[i])] <= g[node_idx(b, m)]);
                    } else {
                        assert(p[i] == n && p[j] == pm[j]);
                        assert(g[node_idx(b, pm[j])] <= g[node_idx(b, m)]);
                    }
                }
            },
            None => {},
        }
    }
}

/// No walk between two cells can take fewer steps than their larger axis
/// distance: one step changes each coordinate by at most one.
pub proof fn lemma_path_len_lower_bound(b: Seq<Seq<i32>>, p: Seq<Node>, s: Node, e: Node)
    requires
        is_path(b, p, s, e),
    ensures
        p.len() >= chebyshev(s, e) + 1,
    decreases p.len(),
{
    if p.len() == 1 {
    } else {
        let q = p.drop_last();
        let prev = p[p.len() - 2];
        assert(q[q.len() - 1] == prev);
        assert(forall|i: int| 0 <= i < q.len() ==> q[i] == p[i]);
        assert(is_path(b, q, s, prev));
        lemma_path_len_lower_bound(b, q, s, prev);
        assert(adjacent(prev, e));
    }
}

/// A pushed element does not drive earlier ones out.
pub proof fn lemma_push_keeps_contains(sq: Seq<Node>, x: Node, y: Node)
    requires
        sq.contains(y),
    ensures
        sq.push(x).contains(y),
{
    let k = choose|k: int| 0 <= k < sq.len() && sq[k] == y;
    assert(sq.push(x)[k] == y);
}

/// Along any walk out of the start, the expanded cells absorb cell after
/// cell once the frontier is empty: each walk step leaves a cell whose
/// neighbours all have known costs, and a cell with a known cost must be
/// expanded when nothing is left on the frontier.
proof fn lemma_closed_absorbs_path(
    b: Seq<Seq<i32>>,
    st: SearchState,
    s: Node,
    e: Node,
    p: Seq<Node>,
    k: int,
)
    requires
        board_wf(b),
        is_path(b, p, s, e),
        st.open.len() == 0,
        known_on_frontier(b, st),
        closed_edge_known(b, st),
        st.closed.contains(s),
        0 <= k < p.len(),
    ensures
        st.closed.contains(p[k]),
    decreases k,
{
    if k > 0 {
        lemma_closed_absorbs_path(b, st, s, e, p, k - 1);
        assert(st.closed.contains(p[k - 1]));
        assert(adjacent(p[k - 1], p[k]));
        assert(traversable(b, p[k]));
        assert(st.g[node_idx(b, p[k])] < i32::MAX);
        assert(!st.open.contains(p[k]));
    }
}

/// When the search ends with an empty frontier and the end cell was never
/// expanded, no walk from the start reaches the end: the expanded cells
/// absorb every walk, and the end is not among them.
pub proof fn lemma_exhausted_end_unreachable(b: Seq<Seq<i32>>, st: SearchState, s: Node, e: Node)
    requires
        board_wf(b),
        st.open.len() == 0,
        known_on_frontier(b, st),
        closed_edge_known(b, st),
        st.closed.contains(s),
        !st.closed.contains(e),
    ensures
        forall|p: Seq<Node>| !is_path(b, p, s, e),
{
    assert forall|p: Seq<Node>| !is_path(b, p, s, e) by {
        if is_path(b, p, s, e) {
            lemma_closed_absorbs_path(b, st, s, e, p, p.len() - 1);
        }
    }
}

/// One staircase step from `a` towards `e`: each axis moves one unit in
/// the right direction, or stays when it already agrees.
pub open spec fn stair_step(a: Node, e: Node) -> Node {
    Node {
        x: if a.x < e.x {
            (a.x + 1) as i32
        } else if a.x > e.x {
            (a.x - 1) as i32
        } else {
            a.x
        },
        y: if a.y < e.y {
            (a.y + 1) as i32
        } else if a.y > e.y {
            (a.y - 1) as i32
        } else {
            a.y
        },
    }
}

/// The staircase walk from `a` to `e`: diagonal while both axes differ,
/// then straight along the remaining axis.
pub open spec fn staircase(a: Node, e: Node, fuel: nat) -> Seq<Node>
    decreases fuel,
{
    if a == e || fuel == 0 {
        seq![a]
    } else {
        seq![a] + staircase(stair_step(a, e), e, (fuel - 1) as nat)
    }
}

proof fn lemma_staircase_is_path(b: Seq<Seq<i32>>, a: Node, e: Node, fuel: nat)
    requires
        board_wf(b),
        b.len() <= i32::MAX,
        b[0].len() <= i32::MAX,
        in_bounds(b, a),
        in_bounds(b, e),
        forall|n: Node| in_bounds(b, n) ==> #[trigger] traversable(b, n),
        fuel == chebyshev(a, e),
    ensures
        is_path(b, staircase(a, e, fuel), a, e),
        staircase(a, e, fuel).len() == chebyshev(a, e) + 1,
    decreases fuel,
{
    if a != e {
        let m = stair_step(a, e);
        assert(in_bounds(b, m));
        assert(chebyshev(m, e) == chebyshev(a, e) - 1);
        assert(adjacent(a, m));
        lemma_staircase_is_path(b, m, e, (fuel - 1) as nat);
        let pm = staircase(m, e, (fuel - 1) as nat);
        let p = staircase(a, e, fuel);
        assert(p == seq![a] + pm);
        assert(p[0] == a);
        assert(p[p.len() - 1] == pm[pm.len() - 1]);
        assert forall|i: int| 0 <= i < p.len() implies traversable(b, #[trigger] p[i]) by {
            if i > 0 {
                assert(p[i] == pm[i - 1]);
            }
        }
        assert forall|i: int| 0 <= i < p.len() - 1 implies adjacent(#[trigger] p[i], p[i + 1]) by {
            if i == 0 {
                assert(p[0] == a && p[1] == pm[0] && pm[0] == m);
            } else {
                assert(p[i] == pm[i - 1] && p[i + 1] == pm[i]);
            }
        }
    }
}

/// A board without blocked cells joins any two of its cells: the staircase
/// between them is a walk of exactly one cell more than their larger axis
/// distance — the shortest possible by [`lemma_path_len_lower_bound`], so
/// a search over such a board always finds a path.
pub proof fn lemma_open_board_path_exists(b: Seq<Seq<i32>>, s: Node, e: Node)
    requires
        board_wf(b),
        b.len() <= i32::MAX,
        b[0].len() <= i32::MAX,
        in_bounds(b, s),
        in_bounds(b, e),
        forall|n: Node| in_bounds(b, n) ==> #[trigger] traversable(b, n),
    ensures
        exists|p: Seq<Node>|
            #[trigger] is_path(b, p, s, e) && p.len() == chebyshev(s, e) + 1,
{
    lemma_staircase_is_path(b, s, e, chebyshev(s, e) as nat);
    let p = staircase(s, e, chebyshev(s, e) as nat);
    assert(is_path(b, p, s, e) && p.len() == chebyshev(s, e) + 1);
}

/// A cell other than the start can only be reached through a traversable
/// touching cell: if every cell touching the end is blocked or off the
/// board, no path from anywhere else reaches it.
pub proof fn lemma_enclosed_end_unreachable(b: Seq<Seq<i32>>, s: Node, e: Node)
    requires
        s != e,
        forall|m: Node| #[trigger] adjacent(m, e) ==> !traversable(b, m),
    ensures
        forall|p: Seq<Node>| !is_path(b, p, s, e),
{
    assert forall|p: Seq<Node>| !is_path(b, p, s, e) by {
        if is_path(b, p, s, e) {
            assert(p.len() >= 2);
            let m = p[p.len() - 2];
            assert(adjacent(m, e));
            assert(traversable(b, m));
        }
    }
}

} // verus!
