use reversi::board::BoardState;
use reversi::rules::Cell;

fn row(s: &str) -> Vec<Cell> {
    s.chars()
        .map(|ch| match ch {
            'D' => Cell::Dark,
            'L' => Cell::Light,
            _ => Cell::Empty,
        })
        .collect()
}

fn board(rows: &[&str], white_turn: bool) -> BoardState {
    let grid: Vec<Vec<Cell>> = rows.iter().map(|s| row(s)).collect();
    let size = grid.len();
    BoardState { grid, size, white_turn }
}

#[test]
fn initial_board_standard() {
    let bs = BoardState::new(2, false);
    assert_eq!(bs.get_size(), 4);
    assert!(!bs.is_it_white_turn());
    let v = bs.show_board();
    assert_eq!(v[1][1], BoardState::black_piece());
    assert_eq!(v[2][2], BoardState::black_piece());
    assert_eq!(v[1][2], BoardState::white_piece());
    assert_eq!(v[2][1], BoardState::white_piece());
    for i in 0..4 {
        for j in 0..4 {
            if (i == 1 || i == 2) && (j == 1 || j == 2) {
                assert_ne!(v[i][j], '-');
            } else {
                assert_eq!(v[i][j], '-');
            }
        }
    }
}

#[test]
fn initial_board_reversed() {
    let bs = BoardState::new(2, true);
    assert!(!bs.is_it_white_turn());
    let v = bs.show_board();
    assert_eq!(v[1][1], BoardState::white_piece());
    assert_eq!(v[2][2], BoardState::white_piece());
    assert_eq!(v[1][2], BoardState::black_piece());
    assert_eq!(v[2][1], BoardState::black_piece());
}

#[test]
fn render_after_construction_has_four_disks() {
    for &rev in &[false, true] {
        let bs = BoardState::new(2, rev);
        let v = bs.show_board();
        let mut non_empty = 0;
        let mut dark = 0;
        let mut light = 0;
        for i in 0..4 {
            for j in 0..4 {
                if v[i][j] != '-' {
                    non_empty += 1;
                }
                if v[i][j] == BoardState::black_piece() {
                    dark += 1;
                }
                if v[i][j] == BoardState::white_piece() {
                    light += 1;
                }
            }
        }
        assert_eq!(non_empty, 4);
        assert_eq!(dark, 2);
        assert_eq!(light, 2);
    }
}

#[test]
fn opening_capture_map() {
    let bs = BoardState::new(2, false);
    let cnt = bs.cnt_reversable();
    let legal = [(0usize, 2usize), (1, 3), (2, 0), (3, 1)];
    for i in 0..4 {
        for j in 0..4 {
            if legal.contains(&(i, j)) {
                assert_eq!(cnt[i][j], 1, "cell ({}, {})", i, j);
            } else {
                assert_eq!(cnt[i][j], 0, "cell ({}, {})", i, j);
            }
        }
    }
}

#[test]
fn occupied_cells_count_zero() {
    let bs = BoardState::new(2, false);
    let cnt = bs.cnt_reversable();
    for &(i, j) in &[(1usize, 1usize), (1, 2), (2, 1), (2, 2)] {
        assert_eq!(cnt[i][j], 0);
    }
    let bs2 = board(&["DLLD", "LDDL", "DDDD", "LLLL"], false);
    let cnt2 = bs2.cnt_reversable();
    for i in 0..4 {
        for j in 0..4 {
            assert_eq!(cnt2[i][j], 0);
        }
    }
}

#[test]
fn capture_needs_closing_disk() {
    // Dark at (0,0), Light at (0,1): placing Dark at (0,2) captures the
    // run back toward (0,0), because it closes with Dark.
    let bs = board(&["DL..", "....", "....", "...."], false);
    let cnt = bs.cnt_reversable();
    assert_eq!(cnt[0][2], 1);
    // The identical run without the closing Dark disk captures nothing.
    let open_run = board(&[".L..", "....", "....", "...."], false);
    let cnt = open_run.cnt_reversable();
    assert_eq!(cnt[0][2], 0);
    // A run that ends at the board edge captures nothing either.
    let edge_run = board(&["LL..", "....", "....", "...."], false);
    let cnt = edge_run.cnt_reversable();
    assert_eq!(cnt[0][2], 0);
}

#[test]
fn first_move_flips_and_passes_turn() {
    let mut bs = BoardState::new(2, false);
    let can_continue = bs.put(0, 2);
    assert!(can_continue);
    assert!(bs.is_it_white_turn());
    let ((c1, s1), (c2, s2)) = bs.count_pieces();
    assert_eq!(c1, BoardState::black_piece());
    assert_eq!(c2, BoardState::white_piece());
    assert_eq!(s1, 4);
    assert_eq!(s2, 1);
    let v = bs.show_board();
    assert_eq!(v[0][2], BoardState::black_piece());
    assert_eq!(v[1][2], BoardState::black_piece());
}

#[test]
fn disk_totals_across_moves() {
    // The mover gains 1 + captured disks, the opponent loses the captured
    // disks, so the board total grows by exactly one per accepted move.
    let mut bs = BoardState::new(2, false);
    let mut total_before = {
        let ((_, d), (_, l)) = bs.count_pieces();
        d + l
    };
    let moves = [(0usize, 2usize), (0, 1), (0, 0)];
    for &(i, j) in &moves {
        let cnt = bs.cnt_reversable();
        assert!(cnt[i][j] > 0, "move ({}, {}) must be legal", i, j);
        let captured = cnt[i][j];
        let white_moves = bs.is_it_white_turn();
        let ((_, d_before), (_, l_before)) = bs.count_pieces();
        bs.put(i, j);
        let ((_, d_after), (_, l_after)) = bs.count_pieces();
        if white_moves {
            assert_eq!(l_after, l_before + 1 + captured);
            assert_eq!(d_after, d_before - captured);
        } else {
            assert_eq!(d_after, d_before + 1 + captured);
            assert_eq!(l_after, l_before - captured);
        }
        assert_eq!(d_after + l_after, total_before + 1);
        total_before = d_after + l_after;
    }
}

#[test]
fn illegal_put_is_a_no_op() {
    let mut bs = BoardState::new(2, false);
    let before = bs.show_board();
    // Occupied square.
    assert!(bs.put(1, 1));
    // Empty square that captures nothing.
    assert!(bs.put(0, 0));
    // Out of bounds.
    assert!(bs.put(7, 9));
    assert_eq!(bs.show_board(), before);
    assert!(!bs.is_it_white_turn());
}

#[test]
fn forced_pass_keeps_turn() {
    // Dark plays (0,3); afterwards light has no legal square anywhere,
    // while dark can still play (3,0): the turn must stay with dark and
    // the game must go on.
    let mut bs = board(&["DLL.", "....", "....", ".LDD"], false);
    let cnt = bs.cnt_reversable();
    assert_eq!(cnt[0][3], 2);
    let can_continue = bs.put(0, 3);
    assert!(can_continue);
    assert!(!bs.is_it_white_turn());
    // The one legal square left for dark is (3,0).
    let cnt = bs.cnt_reversable();
    assert_eq!(cnt[3][0], 1);
    let mut legal = 0;
    for i in 0..4 {
        for j in 0..4 {
            if cnt[i][j] > 0 {
                legal += 1;
            }
        }
    }
    assert_eq!(legal, 1);
}

#[test]
fn last_move_ends_game_and_counts_fill_board() {
    // Every square but (0,2) is occupied; dark's move there fills the
    // board, so neither color has a legal square left.
    let mut bs = board(&["DL.D", "DDDD", "DDDD", "DDDD"], false);
    let cnt = bs.cnt_reversable();
    assert_eq!(cnt[0][2], 1);
    let can_continue = bs.put(0, 2);
    assert!(!can_continue);
    assert!(!bs.is_it_white_turn());
    let ((_, s1), (_, s2)) = bs.count_pieces();
    assert_eq!(s1 + s2, 16);
    assert_eq!(s1, 16);
    assert_eq!(s2, 0);
}

#[test]
fn white_move_captures_for_white() {
    let mut bs = board(&["LD..", "....", "....", "...."], true);
    let cnt = bs.cnt_reversable();
    assert_eq!(cnt[0][2], 1);
    bs.put(0, 2);
    let ((_, d), (_, l)) = bs.count_pieces();
    assert_eq!(d, 0);
    assert_eq!(l, 3);
}

#[test]
fn larger_board_opening() {
    let bs = BoardState::new(4, false);
    assert_eq!(bs.get_size(), 8);
    let v = bs.show_board();
    assert_eq!(v[3][3], BoardState::black_piece());
    assert_eq!(v[4][4], BoardState::black_piece());
    assert_eq!(v[3][4], BoardState::white_piece());
    assert_eq!(v[4][3], BoardState::white_piece());
    let mut non_empty = 0;
    for i in 0..8 {
        for j in 0..8 {
            if v[i][j] != '-' {
                non_empty += 1;
            }
        }
    }
    assert_eq!(non_empty, 4);
    // The four standard opening moves for dark on 8x8.
    let cnt = bs.cnt_reversable();
    for &(i, j) in &[(2usize, 4usize), (3, 5), (4, 2), (5, 3)] {
        assert_eq!(cnt[i][j], 1);
    }
}
