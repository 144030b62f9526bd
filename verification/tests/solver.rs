use tilepack::grid::Assembly;
use tilepack::search::backtrack;
use tilepack::tile::Shape;

fn shape(color: u8, a: [[u8; 3]; 2]) -> Shape {
    Shape::new(color, vec![a[0].to_vec(), a[1].to_vec()])
}

// the ten fixed pieces of the 9x9 scenario
fn ten_pieces() -> Vec<Shape> {
    vec![
        shape(0, [[1, 1, 1], [0, 3, 0]]),
        shape(0, [[3, 1, 1], [2, 0, 0]]),
        shape(1, [[2, 0, 0], [3, 1, 1]]),
        shape(1, [[3, 1, 0], [0, 1, 1]]),
        shape(1, [[0, 0, 1], [1, 1, 3]]),
        shape(1, [[1, 1, 3], [0, 1, 0]]),
        shape(0, [[0, 1, 0], [2, 3, 1]]),
        shape(1, [[1, 0, 0], [1, 3, 1]]),
        shape(0, [[0, 1, 3], [1, 1, 0]]),
        shape(1, [[1, 3, 0], [0, 1, 1]]),
    ]
}

// an n x n board with a two-cell blocked frame and the given interior rows
fn board(n: usize, interior: &[Vec<u8>]) -> Vec<Vec<u8>> {
    let mut g = vec![vec![3u8; n]; n];
    for (di, row) in interior.iter().enumerate() {
        for (dj, &v) in row.iter().enumerate() {
            g[2 + di][2 + dj] = v;
        }
    }
    g
}

fn solve(
    grid: Vec<Vec<u8>>,
    pieces: &[Shape],
) -> (bool, Vec<(usize, usize, usize, usize)>, Assembly, Vec<bool>) {
    let mut board_state = Assembly::new(grid, 2);
    let groups: Vec<Vec<Shape>> = pieces.iter().map(Shape::create_group).collect();
    let mut used: Vec<bool> = pieces.iter().map(|_| false).collect();
    let mut solution = Vec::new();
    let ok = backtrack(&mut board_state, &groups, &mut used, &mut solution);
    // on success the flags mark exactly the traced pieces;
    // on failure the search restores its working state
    let mut expected = vec![false; pieces.len()];
    if ok {
        for &(p, _, _, _) in &solution {
            expected[p] = true;
        }
    }
    assert_eq!(used, expected);
    (ok, solution, board_state, used)
}

// replays a trace through `place` on a fresh board and returns the grid
fn replay(
    grid: Vec<Vec<u8>>,
    pieces: &[Shape],
    trace: &[(usize, usize, usize, usize)],
) -> Assembly {
    let mut board_state = Assembly::new(grid, 2);
    let groups: Vec<Vec<Shape>> = pieces.iter().map(Shape::create_group).collect();
    let mut seen = vec![false; pieces.len()];
    for &(p, o, r, c) in trace {
        assert!(!seen[p], "a piece may be used at most once");
        seen[p] = true;
        assert!(board_state.can_place(r, c, &groups[p][o]));
        board_state.place(r, c, &groups[p][o]);
    }
    board_state
}

#[test]
fn nine_by_nine_scenario_is_deterministic() {
    let pieces = ten_pieces();
    let empty5 = vec![vec![0u8; 5]; 5];
    let (ok1, trace1, asm1, _) = solve(board(9, &empty5), &pieces);
    let (ok2, trace2, asm2, _) = solve(board(9, &empty5), &pieces);
    assert_eq!(ok1, ok2);
    assert_eq!(trace1, trace2);
    assert_eq!(asm1.data, asm2.data);
    if ok1 {
        // the winning placements stay committed: the interior is packed
        for i in 2..7 {
            for j in 2..7 {
                assert_eq!(asm1.data[i][j], 3);
            }
        }
        // replaying the trace on a fresh board reproduces the final
        // grid bit for bit
        let replayed = replay(board(9, &empty5), &pieces, &trace1);
        assert_eq!(replayed.data, asm1.data);
    }
}

#[test]
fn three_by_three_scenario_solves_in_one_placement() {
    // the interior holds the exact bit-complement of the piece's
    // canonical footprint, so a single unrotated, unflipped placement
    // at anchor (2, 2) completes the packing
    let piece = shape(0, [[1, 2, 1], [2, 1, 2]]);
    let interior = vec![vec![2u8, 1, 2], vec![1, 2, 1], vec![3, 3, 3]];
    let (ok, trace, solved, used) = solve(board(7, &interior), &[piece]);
    assert!(ok);
    assert_eq!(trace, vec![(0, 0, 2, 2)]);
    assert_eq!(used, vec![true]);
    for i in 2..5 {
        for j in 2..5 {
            assert_eq!(solved.data[i][j], 3);
        }
    }
    let replayed = replay(board(7, &interior), &[shape(0, [[1, 2, 1], [2, 1, 2]])], &trace);
    assert_eq!(replayed.data, solved.data);
}

#[test]
fn solved_board_succeeds_with_empty_trace() {
    let interior = vec![vec![3u8; 3]; 3];
    let (ok, trace, solved, _) = solve(board(7, &interior), &[]);
    assert!(ok);
    assert!(trace.is_empty());
    assert_eq!(solved.data, board(7, &interior));
}

#[test]
fn impossible_board_reports_exhausted() {
    // one piece carries six layer bits but the empty 3x3 interior needs
    // eighteen; no sequence of single-use placements can pack it, which
    // the placement-by-placement check below confirms exhaustively
    let piece = shape(0, [[1, 2, 1], [2, 1, 2]]);
    let interior = vec![vec![0u8; 3]; 3];
    let (ok, trace, failed, used) = solve(board(7, &interior), &[piece.clone_shape()]);
    assert!(!ok);
    assert!(trace.is_empty());
    // a failed search restores the board and the flags exactly
    assert_eq!(failed.data, board(7, &interior));
    assert_eq!(used, vec![false]);
    // brute force over the single piece: every legal placement of every
    // orientation at every anchor leaves some interior bit unset
    let orbit = piece.create_group();
    for o in 0..orbit.len() {
        for r in 0..5 {
            for c in 0..5 {
                let mut board_state = Assembly::new(board(7, &interior), 2);
                if board_state.can_place(r, c, &orbit[o]) {
                    board_state.place(r, c, &orbit[o]);
                    let full = (2..5).all(|i| (2..5).all(|j| board_state.data[i][j] == 3));
                    assert!(!full);
                }
            }
        }
    }
}
