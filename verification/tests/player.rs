use reversi::board::BoardState;
use reversi::player::{select_move, weighted_pools};

fn map4(entries: &[(usize, usize, usize)]) -> Vec<Vec<usize>> {
    let mut cnt = vec![vec![0usize; 4]; 4];
    for &(i, j, k) in entries {
        cnt[i][j] = k;
    }
    cnt
}

#[test]
fn corner_always_preferred() {
    // One legal corner beside several heavier non-corner squares: the
    // corner must be chosen every single time.
    let cnt = map4(&[(0, 0, 2), (1, 1, 50), (2, 3, 30), (1, 2, 10)]);
    for _ in 0..200 {
        let mv = select_move(&cnt, 4);
        assert_eq!(mv, Some((0, 0)));
    }
}

#[test]
fn two_corners_only_corners_chosen() {
    let cnt = map4(&[(0, 3, 1), (3, 0, 4), (1, 1, 99), (2, 2, 99)]);
    let mut seen_a = false;
    let mut seen_b = false;
    for _ in 0..500 {
        let mv = select_move(&cnt, 4).expect("a legal square exists");
        assert!(mv == (0, 3) || mv == (3, 0), "non-corner {:?} chosen", mv);
        if mv == (0, 3) {
            seen_a = true;
        }
        if mv == (3, 0) {
            seen_b = true;
        }
    }
    assert!(seen_a && seen_b, "both corners should appear over many draws");
}

#[test]
fn no_corner_picks_only_legal_squares() {
    let cnt = map4(&[(1, 1, 3), (2, 3, 1)]);
    let mut seen_heavy = false;
    let mut seen_light = false;
    for _ in 0..500 {
        let mv = select_move(&cnt, 4).expect("a legal square exists");
        assert!(mv == (1, 1) || mv == (2, 3), "illegal square {:?} chosen", mv);
        if mv == (1, 1) {
            seen_heavy = true;
        }
        if mv == (2, 3) {
            seen_light = true;
        }
    }
    assert!(seen_heavy && seen_light);
}

#[test]
fn empty_map_yields_no_move() {
    let cnt = map4(&[]);
    assert_eq!(select_move(&cnt, 4), None);
}

#[test]
fn weighted_pool_repeats_squares_by_count() {
    let cnt = map4(&[(1, 1, 3), (0, 2, 1), (3, 3, 2)]);
    let (pool, corners) = weighted_pools(&cnt, 4);
    assert_eq!(pool.len(), 6);
    assert_eq!(pool.iter().filter(|&&ij| ij == (1, 1)).count(), 3);
    assert_eq!(pool.iter().filter(|&&ij| ij == (0, 2)).count(), 1);
    assert_eq!(pool.iter().filter(|&&ij| ij == (3, 3)).count(), 2);
    assert_eq!(corners, vec![(3, 3)]);
}

#[test]
fn selected_move_is_legal_on_a_real_board() {
    let bs = BoardState::new(2, false);
    let cnt = bs.cnt_reversable();
    for _ in 0..50 {
        let (i, j) = select_move(&cnt, bs.get_size()).expect("dark can move");
        assert!(cnt[i][j] > 0);
    }
}

#[test]
fn automated_game_ends_with_full_accounting() {
    // Drive a whole automated-vs-automated game; every chosen square must
    // be legal, and when the game ends neither count may exceed the board.
    let mut bs = BoardState::new(2, false);
    let mut moves: usize = 0;
    loop {
        let cnt = bs.cnt_reversable();
        let (i, j) = select_move(&cnt, bs.get_size()).expect("the engine says a move exists");
        assert!(cnt[i][j] > 0);
        moves += 1;
        assert!(moves <= 16, "a 4x4 game cannot run longer than the board");
        if !bs.put(i, j) {
            break;
        }
    }
    let ((_, d), (_, l)) = bs.count_pieces();
    assert!(d + l <= 16);
    assert_eq!(d + l, 4 + moves);
}
