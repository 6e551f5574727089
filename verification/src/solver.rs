//! The solver: the best-first search run on a concrete board.

use vstd::prelude::*;

use crate::gen::{gen_board, gen_range, get_rand_pos};
use crate::grid::{
    area, board_view, board_wf, cell, grid_valid, in_bounds, lemma_distinct_inbounds_len,
    lemma_node_idx_distinct, lemma_node_idx_in_range, lemma_node_idx_injective,
    lemma_octile_bound, node_idx, size_ok, traversable, BLOCKED_NODE, END_INDICATOR, FREE_NODE,
    START_INDICATOR,
};
use crate::node::{chebyshev, octile_cost, Node, DIAG_G_COST};
use crate::search::{
    adjacent, astar_spec, came_ok, came_wf, closed_edge_known, expand_upto, init_state, is_path,
    lemma_enclosed_end_unreachable, lemma_exhausted_end_unreachable, lemma_neighbors_complete,
    lemma_neighbors_sound, lemma_path_len_lower_bound,
    lemma_pchain_fuel, lemma_pchain_is_path, lemma_pchain_no_duplicates, lemma_push_keeps_contains,
    min_f_idx, min_f_prefix,
    nbr_at, nbrs_upto, neighbors_of, offset, open_entry_ok, pchain, relax, search_from, search_inv,
    st_of, SearchState,
};

verus! {

/// Failure of the board invariant, reported before any search is attempted.
#[derive(Debug, Clone, Copy, PartialEq, Eq, Structural)]
pub enum GridError {
    /// The board is not rectangular, a dimension is zero, a start or end
    /// cell is missing, misplaced or duplicated, or the two coincide.
    InvalidGrid,
}

/// A search over one board: the board itself, its start and end cells, and
/// the solver's own bookkeeping.
#[derive(Debug)]
pub struct AStar {
    /// The start cell.
    pub start: Node,
    /// The end cell.
    pub end: Node,
    /// The board.
    pub board: Vec<Vec<i32>>,
    /// The path found by the last search, start to end; empty when none.
    pub solved_path: Vec<Node>,
    /// The neighbours generated around the current cell.
    pub neighbours_list: Vec<Node>,
    /// Cells already expanded.
    pub closed: Vec<Node>,
    /// Frontier cells awaiting expansion.
    pub open: Vec<Node>,
    /// The cell the search is standing on.
    pub current_node: Node,
}

/// Linear membership scan over a cell list.
fn contains_node(v: &Vec<Node>, n: Node) -> (r: bool)
    ensures
        r == v@.contains(n),
{
    let mut i: usize = 0;
    while i < v.len()
        invariant
            0 <= i <= v@.len(),
            forall|k: int| 0 <= k < i ==> v@[k] != n,
        decreases v@.len() - i,
    {
        if v[i] == n {
            return true;
        }
        i += 1;
    }
    false
}

/// Row-major position of a cell in a flattened table of width `w`.
fn node_index(w: usize, n: Node) -> (r: usize)
    requires
        0 <= n.x,
        0 <= n.y,
        n.x * w + n.y <= usize::MAX,
    ensures
        r == n.x * w + n.y,
{
    (n.x as usize) * w + (n.y as usize)
}

/// The `k`-th of the eight neighbour offsets.
fn offset_at(k: usize) -> (r: (i32, i32))
    requires
        k < 8,
    ensures
        r.0 == offset(k as int).0,
        r.1 == offset(k as int).1,
{
    if k == 0 {
        (-1, -1)
    } else if k == 1 {
        (-1, 0)
    } else if k == 2 {
        (-1, 1)
    } else if k == 3 {
        (0, -1)
    } else if k == 4 {
        (0, 1)
    } else if k == 5 {
        (1, -1)
    } else if k == 6 {
        (1, 0)
    } else {
        (1, 1)
    }
}

/// The traversable neighbours of `n` on the board, in offset order.
#[verifier::loop_isolation(false)]
fn neighbors_list(board: &Vec<Vec<i32>>, n: Node) -> (r: Vec<Node>)
    requires
        board_wf(board_view(board@)),
        in_bounds(board_view(board@), n),
        board@.len() <= i32::MAX,
        board@[0]@.len() <= i32::MAX,
    ensures
        r@ == neighbors_of(board_view(board@), n),
{
    let ghost bv = board_view(board@);
    let h = board.len();
    let w = board[0].len();
    let mut r: Vec<Node> = Vec::new();
    let mut k: usize = 0;
    while k < 8
        invariant
            0 <= k <= 8,
            r@ == nbrs_upto(bv, n, k as int),
        decreases 8 - k,
    {
        let (dx, dy) = offset_at(k);
        let nx = n.x + dx;
        let ny = n.y + dy;
        proof {
            assert(nbr_at(n, k as int) == Node { x: nx, y: ny });
        }
        if nx >= 0 && ny >= 0 && (nx as usize) < h && (ny as usize) < w {
            proof {
                assert(bv[nx as int].len() == bv[0].len());
            }
            if board[nx as usize][ny as usize] != BLOCKED_NODE {
                r.push(Node { x: nx, y: ny });
            }
        }
        proof {
            assert(r@ =~= nbrs_upto(bv, n, k + 1));
        }
        k += 1;
    }
    r
}

/// Relax every generated neighbour of `cur`, in order: exactly the
/// expansion step of the search loop, and it preserves the loop's
/// bookkeeping invariant.
#[verifier::loop_isolation(false)]
fn expand_neighbors(
    board: &Vec<Vec<i32>>,
    Ghost(s): Ghost<Node>,
    endn: Node,
    cur: Node,
    nbrs: &Vec<Node>,
    closed: &Vec<Node>,
    open: &mut Vec<Node>,
    g: &mut Vec<i32>,
    f: &mut Vec<i32>,
    came: &mut Vec<Option<Node>>,
)
    requires
        board_wf(board_view(board@)),
        size_ok(board_view(board@)),
        in_bounds(board_view(board@), s),
        in_bounds(board_view(board@), cur),
        traversable(board_view(board@), cur),
        in_bounds(board_view(board@), endn),
        nbrs@ == neighbors_of(board_view(board@), cur),
        search_inv(
            board_view(board@),
            s,
            st_of(old(open)@, closed@, old(g)@, old(f)@, old(came)@),
        ),
        old(g)@[node_idx(board_view(board@), cur)] < closed@.len(),
        0 <= old(g)@[node_idx(board_view(board@), cur)],
        cur == s || old(came)@[node_idx(board_view(board@), cur)] is Some,
    ensures
        st_of(final(open)@, closed@, final(g)@, final(f)@, final(came)@) == expand_upto(
            board_view(board@),
            endn,
            cur,
            nbrs@,
            nbrs@.len() as int,
            st_of(old(open)@, closed@, old(g)@, old(f)@, old(came)@),
        ),
        search_inv(
            board_view(board@),
            s,
            st_of(final(open)@, closed@, final(g)@, final(f)@, final(came)@),
        ),
        final(g)@[node_idx(board_view(board@), cur)] == old(g)@[node_idx(
            board_view(board@),
            cur,
        )],
        forall|k: int| 0 <= k < old(g)@.len() ==> #[trigger] final(g)@[k] <= old(g)@[k],
        forall|jj: int|
            0 <= jj < nbrs@.len() ==> final(g)@[node_idx(
                board_view(board@),
                #[trigger] nbrs@[jj],
            )] < i32::MAX,
{
    let ghost bv = board_view(board@);
    let ghost st0 = st_of(old(open)@, closed@, old(g)@, old(f)@, old(came)@);
    let ghost ci = node_idx(bv, cur);
    proof {
        lemma_node_idx_in_range(bv, cur);
        lemma_node_idx_in_range(bv, s);
        lemma_neighbors_sound(bv, cur);
    }
    let w = board[0].len();
    let ci_e = node_index(w, cur);
    let mut j: usize = 0;
    while j < nbrs.len()
        invariant
            0 <= j <= nbrs@.len(),
            st_of(open@, closed@, g@, f@, came@) == expand_upto(bv, endn, cur, nbrs@, j as int, st0),
            search_inv(bv, s, st_of(open@, closed@, g@, f@, came@)),
            g@[ci] == old(g)@[ci],
            came@[ci] == old(came)@[ci],
            forall|k: int| 0 <= k < old(g)@.len() ==> #[trigger] g@[k] <= old(g)@[k],
            forall|jj: int|
                0 <= jj < j ==> g@[node_idx(bv, #[trigger] nbrs@[jj])] < i32::MAX,
        decreases nbrs@.len() - j,
    {
        let ghost stj = st_of(open@, closed@, g@, f@, came@);
        let nbr = nbrs[j];
        proof {
            assert(nbr == nbrs@[j as int]);
            assert(in_bounds(bv, nbr) && traversable(bv, nbr) && nbr != cur && adjacent(cur, nbr));
            lemma_node_idx_in_range(bv, nbr);
            lemma_node_idx_distinct(bv, cur, nbr);
        }
        let ghost ni_s = node_idx(bv, nbr);
        if nbr.is_traversible(board) {
            if !contains_node(closed, nbr) {
                let tentative = g[ci_e] + 1;
                let ni = node_index(w, nbr);
                if tentative < g[ni] {
                    came[ni] = Some(cur);
                    g[ni] = tentative;
                    proof {
                        lemma_octile_bound(bv, nbr, endn);
                    }
                    let hcost = nbr.get_cost(endn);
                    f[ni] = tentative + hcost;
                    if !contains_node(open, nbr) {
                        open.push(nbr);
                    }
                    proof {
                        let stn = st_of(open@, closed@, g@, f@, came@);
                        // the neighbour cannot be the start: the start's
                        // accumulated cost is zero and can never be improved
                        assert(nbr != s) by {
                            if nbr == s {
                                assert(stj.g[node_idx(bv, s)] == 0);
                            }
                        }
                        lemma_node_idx_distinct(bv, nbr, s);
                        // the new accumulated cost is bounded by the number
                        // of expanded cells, which never exceeds the board
                        assert(stj.g[ci] + 1 <= stj.closed.len());
                        assert(DIAG_G_COST * (bv.len() + bv[0].len()) >= 28);
                        assert(area(bv) < i32::MAX);
                        // the executable updates are the mathematical ones
                        assert(stn.g =~= stj.g.update(ni_s, (stj.g[ci] + 1) as i32));
                        assert(stn.f =~= stj.f.update(
                            ni_s,
                            (stj.g[ci] + 1 + octile_cost(nbr, endn)) as i32,
                        ));
                        assert(stn.came =~= stj.came.update(ni_s, Some(cur)));
                        assert(stn == relax(bv, endn, cur, stj, nbr));
                        // the bookkeeping invariant is preserved
                        assert(stn.open.no_duplicates()) by {
                            if !stj.open.contains(nbr) {
                                assert(forall|k: int|
                                    0 <= k < stj.open.len() ==> stj.open[k] != nbr);
                            }
                        }
                        assert forall|i: int| 0 <= i < stn.open.len() implies open_entry_ok(
                            bv,
                            s,
                            stn,
                            #[trigger] stn.open[i],
                        ) by {
                            let n = stn.open[i];
                            if i < stj.open.len() {
                                assert(n == stj.open[i]);
                                assert(open_entry_ok(bv, s, stj, n));
                                lemma_node_idx_in_range(bv, n);
                                if node_idx(bv, n) == ni_s {
                                    lemma_node_idx_injective(bv, n, nbr);
                                }
                            } else {
                                assert(n == nbr);
                            }
                        }
                        assert forall|n: Node| #[trigger]
                            stn.open.contains(n) implies !stn.closed.contains(n) by {
                            if stj.open.contains(n) {
                            } else {
                                let k = choose|k: int|
                                    0 <= k < stn.open.len() && stn.open[k] == n;
                                assert(n == nbr);
                            }
                        }
                        assert forall|n: Node| in_bounds(bv, n) implies #[trigger] came_ok(
                            bv,
                            stn.came,
                            stn.g,
                            s,
                            n,
                        ) by {
                            lemma_node_idx_in_range(bv, n);
                            assert(came_ok(bv, stj.came, stj.g, s, n));
                            if node_idx(bv, n) == ni_s {
                                lemma_node_idx_injective(bv, n, nbr);
                                assert(n == nbr);
                            } else {
                                match stj.came[node_idx(bv, n)] {
                                    Some(m) => {
                                        assert(came_ok(bv, stj.came, stj.g, s, n));
                                        lemma_node_idx_in_range(bv, m);
                                        if node_idx(bv, m) == ni_s {
                                            lemma_node_idx_injective(bv, m, nbr);
                                        }
                                    },
                                    None => {},
                                }
                            }
                        }
                        assert forall|jj: int| 0 <= jj < stn.g.len() implies 0 <= #[trigger] stn
                            .g[jj] by {}
                        assert forall|jj: int| 0 <= jj < stn.g.len() implies (#[trigger] stn.g[jj]
                            < i32::MAX ==> stn.g[jj] <= stn.closed.len()) by {}
                        assert forall|n: Node| #[trigger]
                            stn.closed.contains(n) implies in_bounds(bv, n) && stn.g[node_idx(
                            bv,
                            n,
                        )] < i32::MAX by {
                            assert(stj.closed.contains(n));
                            lemma_node_idx_in_range(bv, n);
                        }
                        assert forall|n: Node|
                            in_bounds(bv, n) && #[trigger] stn.g[node_idx(bv, n)]
                                < i32::MAX implies stn.open.contains(n) || stn.closed.contains(
                            n,
                        ) by {
                            lemma_node_idx_in_range(bv, n);
                            if node_idx(bv, n) == ni_s {
                                lemma_node_idx_injective(bv, n, nbr);
                                if !stj.open.contains(nbr) {
                                    assert(stn.open[stj.open.len() as int] == nbr);
                                }
                            } else {
                                assert(stj.g[node_idx(bv, n)] < i32::MAX);
                                if stj.open.contains(n) {
                                    if !stj.open.contains(nbr) {
                                        lemma_push_keeps_contains(stj.open, nbr, n);
                                    }
                                }
                            }
                        }
                        assert(search_inv(bv, s, stn));
                    }
                }
            }
        }
        proof {
            let stn = st_of(open@, closed@, g@, f@, came@);
            assert(stn == relax(bv, endn, cur, stj, nbr));
            assert(expand_upto(bv, endn, cur, nbrs@, j + 1, st0) == relax(
                bv,
                endn,
                cur,
                expand_upto(bv, endn, cur, nbrs@, j as int, st0),
                nbrs@[j as int],
            ));
            // a relaxation never raises a cost
            assert forall|k: int| 0 <= k < g@.len() implies g@[k] <= stj.g[k] by {}
            // and this neighbour's cost is known afterwards
            assert(DIAG_G_COST * (bv.len() + bv[0].len()) >= 28);
            assert(area(bv) < i32::MAX);
            assert(stj.g[ci] + 1 <= stj.closed.len());
            assert forall|jj: int| 0 <= jj < j + 1 implies g@[node_idx(
                bv,
                #[trigger] nbrs@[jj],
            )] < i32::MAX by {
                lemma_node_idx_in_range(bv, nbrs@[jj]);
                if jj < j {
                    assert(stj.g[node_idx(bv, nbrs@[jj])] < i32::MAX);
                } else {
                    assert(nbrs@[jj] == nbr);
                    if stj.closed.contains(nbr) {
                        assert(stj.g[ni_s] < i32::MAX);
                    }
                }
            }
        }
        j += 1;
    }
}

/// Walk the predecessor table backwards from the end cell to the start
/// cell, collecting the encoded path in start-to-end order.
#[verifier::loop_isolation(false)]
fn reconstruct_path(
    board: &Vec<Vec<i32>>,
    start: Node,
    endn: Node,
    w: usize,
    came: &Vec<Option<Node>>,
    g: &Vec<i32>,
) -> (r: Vec<Node>)
    requires
        board_wf(board_view(board@)),
        w == board@[0]@.len(),
        came_wf(board_view(board@), came@, g@, start),
        in_bounds(board_view(board@), start),
        in_bounds(board_view(board@), endn),
        endn == start || came@[node_idx(board_view(board@), endn)] is Some,
        0 <= g@[node_idx(board_view(board@), endn)] <= area(board_view(board@)),
        came@.len() == area(board_view(board@)),
        g@.len() == area(board_view(board@)),
        area(board_view(board@)) <= usize::MAX,
    ensures
        r@ == pchain(board_view(board@), came@, start, endn, area(board_view(board@)) as nat),
{
    let ghost bv = board_view(board@);
    let ghost fuel_a = area(bv) as nat;
    let mut path: Vec<Node> = Vec::new();
    path.push(endn);
    let mut walk = endn;
    proof {
        assert(path@ =~= seq![endn]);
        assert(pchain(bv, came@, start, endn, fuel_a) =~= pchain(bv, came@, start, walk, fuel_a)
            + path@.subrange(1, path@.len() as int));
    }
    while walk != start
        invariant
            in_bounds(bv, walk),
            walk == start || came@[node_idx(bv, walk)] is Some,
            0 <= g@[node_idx(bv, walk)] <= area(bv),
            path@.len() >= 1,
            path@[0] == walk,
            pchain(bv, came@, start, endn, fuel_a) == pchain(bv, came@, start, walk, fuel_a)
                + path@.subrange(1, path@.len() as int),
        decreases g@[node_idx(bv, walk)],
    {
        proof {
            assert(came_ok(bv, came@, g@, start, walk));
            lemma_node_idx_in_range(bv, walk);
        }
        let wi = node_index(w, walk);
        let pred = match came[wi] {
            Some(m) => m,
            None => {
                proof {
                    assert(false);
                }
                walk
            },
        };
        proof {
            lemma_node_idx_in_range(bv, pred);
            lemma_pchain_fuel(bv, came@, g@, start, pred, (fuel_a - 1) as nat, fuel_a);
            assert(pchain(bv, came@, start, walk, fuel_a) == pchain(
                bv,
                came@,
                start,
                pred,
                fuel_a,
            ).push(walk));
        }
        let ghost path_old = path@;
        let ghost walk_old = walk;
        path.insert(0, pred);
        walk = pred;
        proof {
            assert(path@.subrange(1, path@.len() as int) =~= path_old);
            assert(path_old =~= seq![walk_old] + path_old.subrange(1, path_old.len() as int));
            assert(pchain(bv, came@, start, walk, fuel_a).push(walk_old) + path_old.subrange(
                1,
                path_old.len() as int,
            ) =~= pchain(bv, came@, start, walk, fuel_a) + path_old);
        }
    }
    proof {
        assert(pchain(bv, came@, start, walk, fuel_a) =~= seq![start]);
        assert(path@ =~= seq![start] + path@.subrange(1, path@.len() as int));
        assert(path@ == pchain(bv, came@, start, endn, fuel_a));
    }
    path
}

/// An element-for-element copy of a cell list.
fn copy_nodes(v: &Vec<Node>) -> (r: Vec<Node>)
    ensures
        r@ == v@,
{
    let mut r: Vec<Node> = Vec::new();
    let mut t: usize = 0;
    while t < v.len()
        invariant
            0 <= t <= v@.len(),
            r@ == v@.subrange(0, t as int),
        decreases v@.len() - t,
    {
        r.push(v[t]);
        proof {
            assert(r@ =~= v@.subrange(0, t + 1));
        }
        t += 1;
    }
    proof {
        assert(r@ =~= v@);
    }
    r
}

impl Default for AStar {
    /// A solver over a freshly generated board: random dimensions within
    /// the size bound, a random start cell, a random end cell moved one row
    /// away when the two draws collide, and randomly blocked cells
    /// elsewhere. The result always satisfies the board invariant and is
    /// small enough to search without overflow.
    fn default() -> (r: Self)
        ensures
            grid_valid(board_view(r.board@), r.start, r.end),
            size_ok(board_view(r.board@)),
            15 <= board_view(r.board@).len() < 23,
            19 <= board_view(r.board@)[0].len() < 23,
            r.current_node == r.start,
            r.solved_path@.len() == 0,
            r.neighbours_list@.len() == 0,
            r.closed@.len() == 0,
            r.open@.len() == 0,
    {
        let height = gen_range(15);
        let width = gen_range(19);
        let start = get_rand_pos(height, width);
        let mut end = get_rand_pos(height, width);
        if end.0 == start.0 && end.1 == start.1 {
            end = if end.0 + 1 < height {
                (end.0 + 1, end.1)
            } else {
                (0, end.1)
            };
        }
        let board = gen_board(height, width, start, end);
        proof {
            let bv = board_view(board@);
            assert(bv.len() * bv[0].len() <= 484) by (nonlinear_arith)
                requires
                    0 < bv.len() <= 22,
                    0 < bv[0].len() <= 22,
            ;
        }
        AStar {
            board,
            start: Node { x: start.0, y: start.1 },
            end: Node { x: end.0, y: end.1 },
            current_node: Node { x: start.0, y: start.1 },
            solved_path: Vec::new(),
            neighbours_list: Vec::new(),
            closed: Vec::new(),
            open: Vec::new(),
        }
    }
}

impl AStar {
    /// Build a solver around the given board, start and end cells. The
    /// bookkeeping starts empty and the search stands on the start cell.
    pub fn with_board(board: Vec<Vec<i32>>, start: Node, end: Node) -> (r: Self)
        ensures
            r.board == board,
            r.start == start,
            r.end == end,
            r.current_node == start,
            r.solved_path@.len() == 0,
            r.neighbours_list@.len() == 0,
            r.closed@.len() == 0,
            r.open@.len() == 0,
    {
        AStar {
            board,
            start,
            end,
            current_node: start,
            solved_path: Vec::new(),
            neighbours_list: Vec::new(),
            closed: Vec::new(),
            open: Vec::new(),
        }
    }

    /// Run the search from the start cell to the end cell of the board.
    ///
    /// The result is exactly the value of the mathematical search
    /// [`astar_spec`] on the board: `Some` of the reconstructed path when
    /// the search reaches the end, `None` when the frontier runs dry first.
    /// Any returned path really walks from start to end over traversable
    /// cells in eight-connected steps. The board and the two cells are left
    /// untouched; the found path is also stored in `solved_path`, and the
    /// remaining bookkeeping is discarded.
    #[verifier::loop_isolation(false)]
    #[verifier::rlimit(100)]
    pub fn solve(&mut self) -> (r: Option<Vec<Node>>)
        requires
            grid_valid(board_view(old(self).board@), old(self).start, old(self).end),
            size_ok(board_view(old(self).board@)),
        ensures
            final(self).board == old(self).board,
            final(self).start == old(self).start,
            final(self).end == old(self).end,
            final(self).current_node == old(self).start,
            final(self).open@.len() == 0,
            final(self).closed@.len() == 0,
            final(self).neighbours_list@.len() == 0,
            match r {
                Some(p) => {
                    &&& astar_spec(board_view(old(self).board@), old(self).start, old(self).end)
                        == Some(p@)
                    &&& is_path(board_view(old(self).board@), p@, old(self).start, old(self).end)
                    &&& p@.no_duplicates()
                    &&& p@.len() >= chebyshev(old(self).start, old(self).end) + 1
                    &&& final(self).solved_path@ == p@
                },
                None => {
                    &&& astar_spec(board_view(old(self).board@), old(self).start, old(self).end)
                        is None
                    &&& final(self).solved_path@.len() == 0
                },
            },
            (forall|m: Node| #[trigger]
                adjacent(m, old(self).end) ==> !traversable(
                    board_view(old(self).board@),
                    m,
                )) ==> r is None,
            r is None ==> forall|p: Seq<Node>|
                !is_path(board_view(old(self).board@), p, old(self).start, old(self).end),
    {
        let ghost bv = board_view(self.board@);
        let ghost s = self.start;
        let ghost e = self.end;
        let h = self.board.len();
        let w = self.board[0].len();
        proof {
            assert(area(bv) == h * w);
            assert(DIAG_G_COST * (bv.len() + bv[0].len()) >= 28);
            assert(h * w <= usize::MAX);
            lemma_node_idx_in_range(bv, s);
            lemma_node_idx_in_range(bv, e);
        }
        let cells: usize = h * w;
        let si = node_index(w, self.start);
        // score tables over the flattened board: everything unknown
        let mut g: Vec<i32> = Vec::new();
        let mut f: Vec<i32> = Vec::new();
        let mut came: Vec<Option<Node>> = Vec::new();
        let mut t: usize = 0;
        while t < cells
            invariant
                0 <= t <= cells,
                g@.len() == t,
                f@.len() == t,
                came@.len() == t,
                forall|k: int| 0 <= k < t ==> #[trigger] g@[k] == i32::MAX,
                forall|k: int| 0 <= k < t ==> #[trigger] f@[k] == i32::MAX,
                forall|k: int| 0 <= k < t ==> #[trigger] came@[k] is None,
            decreases cells - t,
        {
            g.push(i32::MAX);
            f.push(i32::MAX);
            came.push(None);
            t += 1;
        }
        // seed the start cell
        g[si] = 0;
        proof {
            lemma_octile_bound(bv, s, e);
        }
        let h0 = self.start.get_cost(self.end);
        f[si] = h0;
        let mut open: Vec<Node> = Vec::new();
        open.push(self.start);
        let mut closed: Vec<Node> = Vec::new();
        proof {
            assert(open@ =~= seq![s]);
            assert(g@ =~= Seq::new(area(bv) as nat, |i: int| i32::MAX).update(node_idx(bv, s), 0));
            assert(f@ =~= Seq::new(area(bv) as nat, |i: int| i32::MAX).update(
                node_idx(bv, s),
                octile_cost(s, e) as i32,
            ));
            assert(came@ =~= Seq::new(area(bv) as nat, |i: int| None::<Node>));
            assert(st_of(open@, closed@, g@, f@, came@) == init_state(bv, s, e));
            assert forall|n: Node| in_bounds(bv, n) implies #[trigger] came_ok(
                bv,
                came@,
                g@,
                s,
                n,
            ) by {
                lemma_node_idx_in_range(bv, n);
            }
            assert forall|n: Node|
                in_bounds(bv, n) && #[trigger] g@[node_idx(bv, n)] < i32::MAX implies open@
                .contains(n) || closed@.contains(n) by {
                lemma_node_idx_in_range(bv, n);
                if node_idx(bv, n) == node_idx(bv, s) {
                    lemma_node_idx_injective(bv, n, s);
                    assert(open@[0] == s);
                } else {
                    assert(g@[node_idx(bv, n)] == i32::MAX);
                }
            }
            assert(search_inv(bv, s, st_of(open@, closed@, g@, f@, came@)));
        }
        while open.len() > 0
            invariant
                self.board == old(self).board,
                self.start == old(self).start,
                self.end == old(self).end,
                self.current_node == old(self).current_node,
                search_inv(bv, s, st_of(open@, closed@, g@, f@, came@)),
                closed_edge_known(bv, st_of(open@, closed@, g@, f@, came@)),
                !closed@.contains(e),
                astar_spec(bv, s, e) == search_from(
                    bv,
                    s,
                    e,
                    st_of(open@, closed@, g@, f@, came@),
                    (area(bv) + 1 - closed@.len()) as nat,
                ),
            decreases area(bv) + 1 - closed@.len(),
        {
            let ghost st_pre = st_of(open@, closed@, g@, f@, came@);
            let ghost fuel_pre = (area(bv) + 1 - closed@.len()) as nat;
            // pop the earliest frontier cell with minimal f score
            let mut best: usize = 0;
            let mut i: usize = 1;
            while i < open.len()
                invariant
                    1 <= i <= open@.len(),
                    0 <= best < i,
                    best == min_f_prefix(bv, open@, f@, i as int),
                decreases open@.len() - i,
            {
                proof {
                    assert(open_entry_ok(bv, s, st_pre, open@[i as int]));
                    assert(open_entry_ok(bv, s, st_pre, open@[best as int]));
                    lemma_node_idx_in_range(bv, open@[i as int]);
                    lemma_node_idx_in_range(bv, open@[best as int]);
                }
                let fi = node_index(w, open[i]);
                let fb = node_index(w, open[best]);
                if f[fi] < f[fb] {
                    best = i;
                }
                i += 1;
            }
            proof {
                assert(best == min_f_idx(bv, open@, f@));
            }
            let cur = open.remove(best);
            proof {
                assert(cur == st_pre.open[min_f_idx(bv, st_pre.open, st_pre.f)]);
                assert(open_entry_ok(bv, s, st_pre, cur));
                lemma_node_idx_in_range(bv, cur);
            }
            if cur == self.end {
                proof {
                    assert(fuel_pre > 0);
                    assert(astar_spec(bv, s, e) == Some(
                        pchain(bv, came@, s, e, area(bv) as nat),
                    ));
                    assert(e == s || came@[node_idx(bv, e)] is Some);
                    assert(g@[node_idx(bv, e)] <= closed@.len() <= area(bv));
                    lemma_pchain_is_path(bv, came@, g@, s, e, area(bv) as nat);
                    lemma_pchain_no_duplicates(bv, came@, g@, s, e, area(bv) as nat);
                }
                let path = reconstruct_path(&self.board, self.start, self.end, w, &came, &g);
                proof {
                    lemma_path_len_lower_bound(bv, path@, s, e);
                    // a found path rules out a walled-in end cell
                    if forall|m: Node| #[trigger] adjacent(m, e) ==> !traversable(bv, m) {
                        lemma_enclosed_end_unreachable(bv, s, e);
                        assert(!is_path(bv, path@, s, e));
                    }
                }
                let kept = copy_nodes(&path);
                self.solved_path = kept;
                self.open = Vec::new();
                self.closed = Vec::new();
                self.neighbours_list = Vec::new();
                self.current_node = self.start;
                return Some(path);
            }
            closed.push(cur);
            proof {
                assert(st_pre.open.contains(cur)) by {
                    assert(st_pre.open[min_f_idx(bv, st_pre.open, st_pre.f)] == cur);
                }
                assert(!st_pre.closed.contains(cur));
                assert(closed@.no_duplicates()) by {
                    assert(forall|k: int| 0 <= k < st_pre.closed.len() ==> st_pre.closed[k] != cur);
                }
                lemma_distinct_inbounds_len(bv, closed@);
                // the frontier keeps only well-formed entries after the pop
                assert forall|k: int| 0 <= k < open@.len() implies open_entry_ok(
                    bv,
                    s,
                    st_of(open@, closed@, g@, f@, came@),
                    #[trigger] open@[k],
                ) by {
                    if k < best {
                        assert(open@[k] == st_pre.open[k]);
                        assert(open_entry_ok(bv, s, st_pre, st_pre.open[k]));
                    } else {
                        assert(open@[k] == st_pre.open[k + 1]);
                        assert(open_entry_ok(bv, s, st_pre, st_pre.open[k + 1]));
                    }
                }
                assert(open@.no_duplicates());
                assert forall|n: Node| #[trigger] open@.contains(n) implies !closed@.contains(
                    n,
                ) by {
                    let k = choose|k: int| 0 <= k < open@.len() && open@[k] == n;
                    let ghost ko: int = if k < best {
                        k
                    } else {
                        k + 1
                    };
                    assert(st_pre.open[ko] == n);
                    assert(st_pre.open.contains(n));
                    assert(!st_pre.closed.contains(n));
                    assert(n != cur) by {
                        if n == cur {
                            assert(st_pre.open[min_f_idx(bv, st_pre.open, st_pre.f)] == cur);
                            assert(st_pre.open.no_duplicates());
                        }
                    }
                }
                assert forall|n: Node| #[trigger] closed@.contains(n) implies in_bounds(bv, n)
                    && g@[node_idx(bv, n)] < i32::MAX by {
                    let k = choose|k: int| 0 <= k < closed@.len() && closed@[k] == n;
                    if k < st_pre.closed.len() {
                        assert(st_pre.closed.contains(n));
                    } else {
                        assert(n == cur);
                    }
                    lemma_node_idx_in_range(bv, n);
                }
                assert forall|n: Node|
                    in_bounds(bv, n) && #[trigger] g@[node_idx(bv, n)] < i32::MAX implies open@
                    .contains(n) || closed@.contains(n) by {
                    assert(st_pre.g[node_idx(bv, n)] < i32::MAX);
                    if st_pre.closed.contains(n) {
                        lemma_push_keeps_contains(st_pre.closed, cur, n);
                    } else {
                        assert(st_pre.open.contains(n));
                        let k = choose|k: int| 0 <= k < st_pre.open.len() && st_pre.open[k] == n;
                        if k == best {
                            assert(n == cur);
                            assert(closed@[st_pre.closed.len() as int] == cur);
                        } else if k < best {
                            assert(open@[k] == n);
                        } else {
                            assert(open@[k - 1] == n);
                        }
                    }
                }
                assert(search_inv(bv, s, st_of(open@, closed@, g@, f@, came@)));
                assert(g@[node_idx(bv, cur)] < closed@.len());
            }
            let nbrs = neighbors_list(&self.board, cur);
            expand_neighbors(
                &self.board,
                Ghost(s),
                self.end,
                cur,
                &nbrs,
                &closed,
                &mut open,
                &mut g,
                &mut f,
                &mut came,
            );
            proof {
                let st1 = SearchState {
                    open: st_pre.open.remove(min_f_idx(bv, st_pre.open, st_pre.f)),
                    closed: st_pre.closed.push(cur),
                    g: st_pre.g,
                    f: st_pre.f,
                    came: st_pre.came,
                };
                let st2 = st_of(open@, closed@, g@, f@, came@);
                assert(st2 == expand_upto(
                    bv,
                    e,
                    cur,
                    neighbors_of(bv, cur),
                    neighbors_of(bv, cur).len() as int,
                    st1,
                ));
                assert(search_from(bv, s, e, st_pre, fuel_pre) == search_from(
                    bv,
                    s,
                    e,
                    st2,
                    (fuel_pre - 1) as nat,
                ));
                assert((fuel_pre - 1) as nat == (area(bv) + 1 - closed@.len()) as nat);
                // the end cell is still unexpanded
                assert(!closed@.contains(e)) by {
                    if closed@.contains(e) {
                        let k = choose|k: int| 0 <= k < closed@.len() && closed@[k] == e;
                        if k < st_pre.closed.len() {
                            assert(st_pre.closed.contains(e));
                        } else {
                            assert(cur == e);
                        }
                    }
                }
                // every neighbour of an expanded cell now has a known cost
                assert forall|n: Node, m: Node|
                    #[trigger] closed@.contains(n) && #[trigger] adjacent(n, m) && traversable(
                        bv,
                        m,
                    ) implies g@[node_idx(bv, m)] < i32::MAX by {
                    lemma_node_idx_in_range(bv, m);
                    if n == cur {
                        lemma_neighbors_complete(bv, cur, m);
                        let jn = choose|jn: int|
                            0 <= jn < neighbors_of(bv, cur).len() && neighbors_of(bv, cur)[jn]
                                == m;
                        assert(g@[node_idx(bv, nbrs@[jn])] < i32::MAX);
                    } else {
                        let k = choose|k: int| 0 <= k < closed@.len() && closed@[k] == n;
                        if k < st_pre.closed.len() {
                            assert(st_pre.closed.contains(n));
                        }
                        assert(st_pre.g[node_idx(bv, m)] < i32::MAX);
                        assert(g@[node_idx(bv, m)] <= st_pre.g[node_idx(bv, m)]);
                    }
                }
            }
        }
        proof {
            assert(astar_spec(bv, s, e) is None);
            // the frontier ran dry without expanding the end cell: nothing
            // traversable joins the start to the end
            let stf = st_of(open@, closed@, g@, f@, came@);
            assert(stf.closed.contains(s)) by {
                assert(stf.g[node_idx(bv, s)] < i32::MAX);
                if stf.open.contains(s) {
                    let k = choose|k: int| 0 <= k < stf.open.len() && stf.open[k] == s;
                }
            }
            lemma_exhausted_end_unreachable(bv, stf, s, e);
        }
        self.solved_path = Vec::new();
        self.open = Vec::new();
        self.closed = Vec::new();
        self.neighbours_list = Vec::new();
        self.current_node = self.start;
        None
    }

    /// Validate, then search: the fail-fast entry point. A board that
    /// breaks the invariant, or one too large for the integer score range,
    /// is reported as `InvalidGrid` before any search begins, and the
    /// solver is left untouched; otherwise the search runs exactly as
    /// [`Self::solve`] does and its answer is passed through.
    pub fn try_solve(&mut self) -> (r: Result<Option<Vec<Node>>, GridError>)
        ensures
            final(self).board == old(self).board,
            final(self).start == old(self).start,
            final(self).end == old(self).end,
            match r {
                Ok(opt) => {
                    &&& grid_valid(board_view(old(self).board@), old(self).start, old(self).end)
                    &&& size_ok(board_view(old(self).board@))
                    &&& final(self).current_node == old(self).start
                    &&& match opt {
                        Some(p) => {
                            &&& astar_spec(
                                board_view(old(self).board@),
                                old(self).start,
                                old(self).end,
                            ) == Some(p@)
                            &&& is_path(
                                board_view(old(self).board@),
                                p@,
                                old(self).start,
                                old(self).end,
                            )
                            &&& p@.no_duplicates()
                            &&& final(self).solved_path@ == p@
                        },
                        None => {
                            &&& astar_spec(
                                board_view(old(self).board@),
                                old(self).start,
                                old(self).end,
                            ) is None
                            &&& forall|p: Seq<Node>|
                                !is_path(
                                    board_view(old(self).board@),
                                    p,
                                    old(self).start,
                                    old(self).end,
                                )
                            &&& final(self).solved_path@.len() == 0
                        },
                    }
                },
                Err(err) => {
                    &&& err == GridError::InvalidGrid
                    &&& !(grid_valid(board_view(old(self).board@), old(self).start, old(self).end)
                        && size_ok(board_view(old(self).board@)))
                    &&& *final(self) == *old(self)
                },
            },
    {
        let ghost bv = board_view(self.board@);
        if self.validate().is_err() {
            return Err(GridError::InvalidGrid);
        }
        // the machine bound: the cell count plus the largest heuristic
        // value must fit the integer score range
        let h = self.board.len();
        let w = self.board[0].len();
        let cells = match h.checked_mul(w) {
            Some(v) => v,
            None => {
                return Err(GridError::InvalidGrid);
            },
        };
        let dims = match h.checked_add(w) {
            Some(v) => v,
            None => {
                return Err(GridError::InvalidGrid);
            },
        };
        let diag = match dims.checked_mul(DIAG_G_COST as usize) {
            Some(v) => v,
            None => {
                return Err(GridError::InvalidGrid);
            },
        };
        let total = match cells.checked_add(diag) {
            Some(v) => v,
            None => {
                return Err(GridError::InvalidGrid);
            },
        };
        if total > i32::MAX as usize {
            return Err(GridError::InvalidGrid);
        }
        proof {
            assert(size_ok(bv));
        }
        let result = self.solve();
        Ok(result)
    }

    /// The board's height and width. A board without rows has width zero.
    pub fn dimensions(&self) -> (r: (usize, usize))
        ensures
            r.0 == board_view(self.board@).len(),
            r.0 > 0 ==> r.1 == board_view(self.board@)[0].len(),
            r.0 == 0 ==> r.1 == 0,
    {
        let h = self.board.len();
        if h == 0 {
            (0, 0)
        } else {
            (h, self.board[0].len())
        }
    }

    /// Whether a cell lies on the board: inside the height and inside the
    /// width of the first row.
    pub fn is_in_bounds(&self, n: Node) -> (r: bool)
        ensures
            r == in_bounds(board_view(self.board@), n),
    {
        let h = self.board.len();
        if h == 0 {
            return false;
        }
        let w = self.board[0].len();
        n.x >= 0 && n.y >= 0 && (n.x as usize) < h && (n.y as usize) < w
    }

    /// Check the board invariant, and report `InvalidGrid` before any
    /// search when it fails: the board must be rectangular with non-zero
    /// dimensions, the start cell must carry the start marker, the end cell
    /// the end marker, the two must differ, and every other cell must be
    /// free or blocked.
    #[verifier::loop_isolation(false)]
    pub fn validate(&self) -> (r: Result<(), GridError>)
        ensures
            r is Ok <==> grid_valid(board_view(self.board@), self.start, self.end),
    {
        let ghost bv = board_view(self.board@);
        let s = self.start;
        let e = self.end;
        let h = self.board.len();
        if h == 0 {
            return Err(GridError::InvalidGrid);
        }
        let w = self.board[0].len();
        if w == 0 {
            return Err(GridError::InvalidGrid);
        }
        if s.x < 0 || s.y < 0 || (s.x as usize) >= h || (s.y as usize) >= w {
            return Err(GridError::InvalidGrid);
        }
        if e.x < 0 || e.y < 0 || (e.x as usize) >= h || (e.y as usize) >= w {
            return Err(GridError::InvalidGrid);
        }
        if s.x == e.x && s.y == e.y {
            return Err(GridError::InvalidGrid);
        }
        let mut i: usize = 0;
        while i < h
            invariant
                0 <= i <= h,
                forall|ii: int| 0 <= ii < i ==> #[trigger] bv[ii].len() == w,
                forall|ii: int, jj: int|
                    0 <= ii < i && 0 <= jj < w ==> ((ii == s.x && jj == s.y) ==> #[trigger] bv[ii][jj]
                        == START_INDICATOR),
                forall|ii: int, jj: int|
                    0 <= ii < i && 0 <= jj < w ==> ((ii == e.x && jj == e.y) ==> #[trigger] bv[ii][jj]
                        == END_INDICATOR),
                forall|ii: int, jj: int|
                    0 <= ii < i && 0 <= jj < w && !(ii == s.x && jj == s.y) && !(ii == e.x && jj
                        == e.y) ==> (#[trigger] bv[ii][jj] == FREE_NODE || bv[ii][jj]
                        == BLOCKED_NODE),
            decreases h - i,
        {
            if self.board[i].len() != w {
                proof {
                    assert(bv[i as int].len() != bv[0].len());
                    assert(!board_wf(bv));
                }
                return Err(GridError::InvalidGrid);
            }
            let mut j: usize = 0;
            while j < w
                invariant
                    0 <= j <= w,
                    forall|jj: int|
                        0 <= jj < j ==> ((i == s.x && jj == s.y) ==> #[trigger] bv[i as int][jj]
                            == START_INDICATOR),
                    forall|jj: int|
                        0 <= jj < j ==> ((i == e.x && jj == e.y) ==> #[trigger] bv[i as int][jj]
                            == END_INDICATOR),
                    forall|jj: int|
                        0 <= jj < j && !(i == s.x && jj == s.y) && !(i == e.x && jj == e.y) ==> (
                        #[trigger] bv[i as int][jj] == FREE_NODE || bv[i as int][jj]
                            == BLOCKED_NODE),
                decreases w - j,
            {
                let v = self.board[i][j];
                let at_start = s.x as usize == i && s.y as usize == j;
                let at_end = e.x as usize == i && e.y as usize == j;
                if at_start {
                    if v != START_INDICATOR {
                        return Err(GridError::InvalidGrid);
                    }
                } else if at_end {
                    if v != END_INDICATOR {
                        return Err(GridError::InvalidGrid);
                    }
                } else {
                    if v != FREE_NODE && v != BLOCKED_NODE {
                        proof {
                            if grid_valid(bv, s, e) {
                                assert(bv[i as int][j as int] == FREE_NODE || bv[i as int][j as int]
                                    == BLOCKED_NODE);
                            }
                        }
                        return Err(GridError::InvalidGrid);
                    }
                }
                j += 1;
            }
            i += 1;
        }
        proof {
            assert(board_wf(bv));
            assert(cell(bv, s) == START_INDICATOR);
            assert(cell(bv, e) == END_INDICATOR);
            assert(grid_valid(bv, s, e));
        }
        Ok(())
    }

    /// Regenerate the neighbour list around the current cell: of the eight
    /// surrounding candidates, those that lie on the board and are
    /// traversable, in offset order. Nothing else changes.
    pub fn gen_surrounding(&mut self)
        requires
            board_wf(board_view(old(self).board@)),
            in_bounds(board_view(old(self).board@), old(self).current_node),
            old(self).board@.len() <= i32::MAX,
            old(self).board@[0]@.len() <= i32::MAX,
        ensures
            final(self).neighbours_list@ == neighbors_of(
                board_view(old(self).board@),
                old(self).current_node,
            ),
            final(self).board == old(self).board,
            final(self).start == old(self).start,
            final(self).end == old(self).end,
            final(self).current_node == old(self).current_node,
            final(self).solved_path == old(self).solved_path,
            final(self).closed == old(self).closed,
            final(self).open == old(self).open,
    {
        let nl = neighbors_list(&self.board, self.current_node);
        self.neighbours_list = nl;
    }
}

} // verus!
