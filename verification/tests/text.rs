use reversi::board::BoardState;
use reversi::rules::Cell;
use reversi::text::{preview_turn, show_result, usize_to_string};

fn board(rows: &[&str], white_turn: bool) -> BoardState {
    let grid: Vec<Vec<Cell>> = rows
        .iter()
        .map(|s| {
            s.chars()
                .map(|ch| match ch {
                    'D' => Cell::Dark,
                    'L' => Cell::Light,
                    _ => Cell::Empty,
                })
                .collect()
        })
        .collect();
    let size = grid.len();
    BoardState { grid, size, white_turn }
}

#[test]
fn decimal_rendering() {
    assert_eq!(usize_to_string(0), "0");
    assert_eq!(usize_to_string(7), "7");
    assert_eq!(usize_to_string(10), "10");
    assert_eq!(usize_to_string(1000), "1000");
    assert_eq!(usize_to_string(12345), "12345");
}

#[test]
fn turn_announcement() {
    let mut bs = BoardState::new(2, false);
    assert_eq!(bs.which_turn(), "●");
    assert_eq!(preview_turn(&bs), "●のターン．");
    bs.put(0, 2);
    assert_eq!(bs.which_turn(), "○");
    assert_eq!(preview_turn(&bs), "○のターン．");
}

#[test]
fn result_dark_wins() {
    let mut bs = board(&["DL.D", "DDDD", "DDDD", "DDDD"], false);
    assert!(!bs.put(0, 2));
    assert_eq!(show_result(&bs), "●が16個，○が0個で●の勝ち！");
}

#[test]
fn result_light_wins() {
    let bs = board(&[".LLL", "...D", "....", "...."], false);
    assert_eq!(show_result(&bs), "●が1個，○が3個で○の勝ち！");
}

#[test]
fn result_draw() {
    let bs = BoardState::new(2, false);
    assert_eq!(show_result(&bs), "●が2個，○が2個で引き分け！");
}
