use astar::gen::{gen_blockade, gen_board, gen_range, get_rand_pos};
use astar::node::Node;
use astar::solver::{AStar, GridError};

///    0 1 2 3 4 5 6
///  0
///  1
///  2
///  3
///  4
///  5           e
///  6             x
///  use cases:
///  Diagnoal cost is 14 because
///  it'll reach its goal faster
/// Expected move pattern
/// [6][6] = 14 cost
#[test]
fn h_cost_1() {
    let end_node = Node { x: 5, y: 5 };
    let x = Node { x: 6, y: 6 };
    let h = x.get_cost(end_node);
    assert!(h == 14);
}

/// should be 10 here because the node x is directly
/// behind the end node
/// ... 5 6
/// .
/// 5   e
/// 6   x
/// like this
/// the dots represent 0 - 4 like in the first test
/// for simplicity sake we'll shorten them for following tests
/// Expected move pattern
/// [6][5] = 10 cost
#[test]
fn h_cost_2() {
    let end_node = Node { x: 5, y: 5 };
    let x = Node { x: 6, y: 5 };
    let h = x.get_cost(end_node);
    assert!(h == 10);
}

/// should be 30
/// ... 5 6 7 8
/// .
/// 5   e
/// 6
/// 7
/// 8   x
/// Expected move pattern
/// [6][5] = 10 cost
/// [7][5] = 20 cost
/// [8][5] = 30 cost
#[test]
fn h_cost_3() {
    let end_node = Node { x: 5, y: 5 };
    let x = Node { x: 8, y: 5 };
    let h = x.get_cost(end_node);
    assert!(h == 30);
}

/// should be 35
/// ... 5 6 7 8
/// .
/// 5   e
/// 6
/// 7
/// 8     x
/// Expected move pattern
/// [6][6] = 14 cost
/// [7][6] = 24 cost
/// [8][6] = 34 cost
#[test]
fn h_cost_4() {
    let end_node = Node { x: 5, y: 5 };
    let x = Node { x: 8, y: 6 };
    let h = x.get_cost(end_node);
    assert!(h == 34);
}

///    0 1 2 3 4 5 6 7 8
///  0
///  1   s
///  2
///  3
///  4
///  5           e
///  6
///  7
///  8             x
///  g cost should be 90
///  h cost should be 34
///  f cost should be g + h cost
#[test]
fn f_cost() {
    let start_node = Node { x: 1, y: 1 };
    let end_node = Node { x: 5, y: 5 };
    let x = Node { x: 8, y: 6 };
    let f = x.get_f_cost(start_node, end_node);
    assert!(f == 90 + 34);
}

/// test serrounding neighbours
#[test]
fn neighbours() {
    let start = Node { x: 1, y: 1 };
    let end = Node { x: 2, y: 2 };
    let mut board = vec![vec![0, 0, 1], vec![1, 0, 0], vec![0, 0, 0]];
    // set end and start
    board[start.x as usize][start.y as usize] = 8;
    board[end.x as usize][end.y as usize] = 9;
    // get astar with board
    let mut astar = AStar::with_board(board, start, end);
    // generate surrounding neighbours
    astar.gen_surrounding();
    assert!(astar.neighbours_list.len() == 6);
}

#[test]
fn neighbours_2() {
    let start = Node { x: 1, y: 2 };
    let end = Node { x: 3, y: 4 };
    let mut board = vec![
        vec![0, 1, 1, 1, 1],
        vec![0, 1, 8, 1, 0],
        vec![0, 1, 1, 0, 0],
        vec![0, 0, 0, 0, 9],
    ];
    // set end and start
    board[start.x as usize][start.y as usize] = 8;
    board[end.x as usize][end.y as usize] = 9;
    // get astar with board
    let mut astar = AStar::with_board(board, start, end);
    // generate surrounding neighbours
    astar.gen_surrounding();
    assert!(astar.neighbours_list.len() == 1);
}

/// The step cost does not depend on the order of its two cells.
#[test]
fn cost_symmetry() {
    let pairs = [
        (Node { x: 6, y: 6 }, Node { x: 5, y: 5 }),
        (Node { x: 8, y: 5 }, Node { x: 5, y: 5 }),
        (Node { x: 8, y: 6 }, Node { x: 5, y: 5 }),
        (Node { x: 0, y: 0 }, Node { x: 21, y: 3 }),
        (Node { x: 7, y: 7 }, Node { x: 7, y: 7 }),
    ];
    for (a, b) in pairs {
        assert_eq!(a.get_cost(b), b.get_cost(a));
    }
}

/// The f cost is the sum of the geometric cost back to the start and the
/// heuristic towards the end.
#[test]
fn f_cost_is_g_plus_h() {
    let s = Node { x: 2, y: 9 };
    let e = Node { x: 14, y: 3 };
    let x = Node { x: 7, y: 7 };
    assert_eq!(x.get_f_cost(s, e), x.get_cost(s) + x.get_cost(e));
}

/// A single straight corridor is solved by walking it cell by cell.
#[test]
fn solve_corridor_exact_path() {
    let board = vec![vec![8, 0, 9]];
    let start = Node { x: 0, y: 0 };
    let end = Node { x: 0, y: 2 };
    let mut astar = AStar::with_board(board, start, end);
    assert!(astar.validate().is_ok());
    let path = astar.solve().expect("a clear corridor has a path");
    assert_eq!(
        path,
        vec![Node { x: 0, y: 0 }, Node { x: 0, y: 1 }, Node { x: 0, y: 2 }]
    );
    assert_eq!(astar.solved_path, path);
}

/// On an obstacle-free board the path has one cell more than the larger of
/// the two axis distances, and never leaves the board or steps on a
/// blocked cell.
#[test]
fn solve_open_grid_octile_length() {
    let mut board = vec![vec![0; 7]; 6];
    board[1][1] = 8;
    board[4][5] = 9;
    let start = Node { x: 1, y: 1 };
    let end = Node { x: 4, y: 5 };
    let mut astar = AStar::with_board(board.clone(), start, end);
    assert!(astar.validate().is_ok());
    let path = astar.solve().expect("an open board has a path");
    // max(|1-4|, |1-5|) + 1 = 5 cells
    assert_eq!(path.len(), 5);
    assert_eq!(path[0], start);
    assert_eq!(path[path.len() - 1], end);
    for n in &path {
        assert!(0 <= n.x && (n.x as usize) < 6);
        assert!(0 <= n.y && (n.y as usize) < 7);
        assert!(board[n.x as usize][n.y as usize] != 1);
    }
}

/// An end cell walled in on all eight sides is unreachable.
#[test]
fn solve_enclosed_end_is_none() {
    let board = vec![
        vec![8, 0, 0, 0],
        vec![0, 1, 1, 1],
        vec![0, 1, 9, 1],
        vec![0, 1, 1, 1],
    ];
    let start = Node { x: 0, y: 0 };
    let end = Node { x: 2, y: 2 };
    let mut astar = AStar::with_board(board, start, end);
    assert!(astar.validate().is_ok());
    assert!(astar.solve().is_none());
    assert!(astar.solved_path.is_empty());
}

/// Solving the same board twice gives identical answers.
#[test]
fn solve_twice_identical() {
    let board = vec![
        vec![8, 0, 1, 0],
        vec![0, 0, 1, 0],
        vec![1, 0, 0, 0],
        vec![0, 0, 1, 9],
    ];
    let start = Node { x: 0, y: 0 };
    let end = Node { x: 3, y: 3 };
    let mut astar = AStar::with_board(board, start, end);
    let first = astar.solve();
    let second = astar.solve();
    assert_eq!(first, second);
    assert!(first.is_some());
}

/// A board whose start and end coincide is rejected before any search.
#[test]
fn validate_rejects_start_equal_end() {
    let board = vec![vec![8, 0], vec![0, 0]];
    let n = Node { x: 0, y: 0 };
    let astar = AStar::with_board(board, n, n);
    assert_eq!(astar.validate(), Err(GridError::InvalidGrid));
}

/// A board with a zero dimension is rejected.
#[test]
fn validate_rejects_empty_board() {
    let astar = AStar::with_board(Vec::new(), Node { x: 0, y: 0 }, Node { x: 1, y: 1 });
    assert_eq!(astar.validate(), Err(GridError::InvalidGrid));
}

/// A ragged board is rejected.
#[test]
fn validate_rejects_ragged_board() {
    let board = vec![vec![8, 0, 0], vec![0, 0], vec![0, 0, 9]];
    let astar = AStar::with_board(board, Node { x: 0, y: 0 }, Node { x: 2, y: 2 });
    assert_eq!(astar.validate(), Err(GridError::InvalidGrid));
}

/// A board whose start cell does not carry the start marker is rejected.
#[test]
fn validate_rejects_missing_marker() {
    let board = vec![vec![0, 0], vec![0, 9]];
    let astar = AStar::with_board(board, Node { x: 0, y: 0 }, Node { x: 1, y: 1 });
    assert_eq!(astar.validate(), Err(GridError::InvalidGrid));
}

/// An out-of-bounds end cell is rejected.
#[test]
fn validate_rejects_out_of_bounds() {
    let board = vec![vec![8, 0], vec![0, 0]];
    let astar = AStar::with_board(board, Node { x: 0, y: 0 }, Node { x: 5, y: 0 });
    assert_eq!(astar.validate(), Err(GridError::InvalidGrid));
}

/// The fail-fast entry rejects a board that misses its start marker and
/// leaves the solver untouched.
#[test]
fn try_solve_rejects_invalid() {
    let board = vec![vec![0, 0], vec![0, 9]];
    let mut astar = AStar::with_board(board.clone(), Node { x: 0, y: 0 }, Node { x: 1, y: 1 });
    assert_eq!(astar.try_solve(), Err(GridError::InvalidGrid));
    assert_eq!(astar.board, board);
}

/// The fail-fast entry passes a valid board's answer through.
#[test]
fn try_solve_passes_through() {
    let board = vec![vec![8, 0, 9]];
    let mut astar = AStar::with_board(board, Node { x: 0, y: 0 }, Node { x: 0, y: 2 });
    let r = astar.try_solve().expect("a valid board is accepted");
    assert_eq!(r.expect("a clear corridor has a path").len(), 3);
}

/// At the centre of a three-by-three board with one blocked corner, seven
/// of the eight candidates remain.
#[test]
fn neighbours_one_blocked() {
    let board = vec![vec![1, 0, 0], vec![0, 8, 0], vec![0, 0, 9]];
    let start = Node { x: 1, y: 1 };
    let end = Node { x: 2, y: 2 };
    let mut astar = AStar::with_board(board, start, end);
    astar.gen_surrounding();
    assert_eq!(astar.neighbours_list.len(), 7);
    for n in &astar.neighbours_list {
        assert!(*n != start);
    }
}

/// The random dimension generator stays inside its documented range; with
/// a lower bound one below the cap there is only one possible answer.
#[test]
fn gen_range_pinned() {
    assert_eq!(gen_range(22), 22);
    for _ in 0..32 {
        let v = gen_range(15);
        assert!(15 <= v && v < 23);
    }
}

/// On a one-by-one board there is only one position to draw.
#[test]
fn get_rand_pos_unit() {
    assert_eq!(get_rand_pos(1, 1), (0, 0));
    for _ in 0..32 {
        let (x, y) = get_rand_pos(4, 7);
        assert!(0 <= x && x < 4);
        assert!(0 <= y && y < 7);
    }
}

/// A randomly drawn cell is always free or blocked.
#[test]
fn gen_blockade_domain() {
    for _ in 0..64 {
        let v = gen_blockade();
        assert!(v == 0 || v == 1);
    }
}

/// A generated board has the requested shape, both markers in place, and
/// only free or blocked cells elsewhere.
#[test]
fn gen_board_markers() {
    let board = gen_board(5, 4, (0, 0), (4, 3));
    assert_eq!(board.len(), 5);
    for row in &board {
        assert_eq!(row.len(), 4);
    }
    assert_eq!(board[0][0], 8);
    assert_eq!(board[4][3], 9);
    for (i, row) in board.iter().enumerate() {
        for (j, v) in row.iter().enumerate() {
            if (i, j) != (0, 0) && (i, j) != (4, 3) {
                assert!(*v == 0 || *v == 1);
            }
        }
    }
}

/// A freshly generated default solver always carries a valid board.
#[test]
fn default_board_is_valid() {
    for _ in 0..8 {
        let astar = AStar::default();
        assert!(astar.validate().is_ok());
        assert_eq!(astar.current_node, astar.start);
    }
}

/// On every obstacle-free board up to five by five, for every choice of
/// start and end, the found path has exactly one cell more than the larger
/// axis distance.
#[test]
fn solve_open_grids_exhaustive_octile_length() {
    for h in 1..=5usize {
        for w in 1..=5usize {
            for sx in 0..h {
                for sy in 0..w {
                    for ex in 0..h {
                        for ey in 0..w {
                            if (sx, sy) == (ex, ey) {
                                continue;
                            }
                            let mut board = vec![vec![0i32; w]; h];
                            board[sx][sy] = 8;
                            board[ex][ey] = 9;
                            let start = Node {
                                x: sx as i32,
                                y: sy as i32,
                            };
                            let end = Node {
                                x: ex as i32,
                                y: ey as i32,
                            };
                            let mut astar = AStar::with_board(board, start, end);
                            let path = astar.solve().expect("an open board has a path");
                            let cheb = (start.x - end.x).abs().max((start.y - end.y).abs());
                            assert_eq!(path.len() as i32, cheb + 1);
                        }
                    }
                }
            }
        }
    }
}

/// The solver must route around a wall through the one gap left open.
#[test]
fn solve_routes_through_gap() {
    let board = vec![
        vec![8, 0, 1, 0],
        vec![0, 0, 1, 0],
        vec![0, 0, 1, 0],
        vec![0, 0, 0, 9],
    ];
    let start = Node { x: 0, y: 0 };
    let end = Node { x: 3, y: 3 };
    let mut astar = AStar::with_board(board.clone(), start, end);
    let path = astar.solve().expect("the gap leaves a path");
    assert_eq!(path[0], start);
    assert_eq!(path[path.len() - 1], end);
    // every step is between touching cells and stays off the wall
    for w in path.windows(2) {
        let dx = (w[0].x - w[1].x).abs();
        let dy = (w[0].y - w[1].y).abs();
        assert!(dx <= 1 && dy <= 1 && (dx, dy) != (0, 0));
    }
    for n in &path {
        assert!(board[n.x as usize][n.y as usize] != 1);
    }
}
