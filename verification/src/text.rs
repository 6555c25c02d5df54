use vstd::prelude::*;

use vstd::string::StringExecFns;

use crate::board::{piece_char, BoardState};
use crate::rules::{grid_count, Cell};

verus! {

/// The decimal digit `d` as a character.
pub open spec fn dec_digit(d: int) -> char {
    if d == 0 {
        '0'
    } else if d == 1 {
        '1'
    } else if d == 2 {
        '2'
    } else if d == 3 {
        '3'
    } else if d == 4 {
        '4'
    } else if d == 5 {
        '5'
    } else if d == 6 {
        '6'
    } else if d == 7 {
        '7'
    } else if d == 8 {
        '8'
    } else {
        '9'
    }
}

/// The decimal rendering of `x`: most significant digit first, no
/// leading zeros, and a single zero digit for 0.
pub open spec fn dec_seq(x: nat) -> Seq<char>
    decreases x,
{
    if x < 10 {
        seq![dec_digit(x as int)]
    } else {
        dec_seq(x / 10).push(dec_digit((x % 10) as int))
    }
}

/// One decimal digit as a string slice.
fn digit_str(d: usize) -> (s: &'static str)
    requires
        d < 10,
    ensures
        s@ == seq![dec_digit(d as int)],
{
    let s: &'static str = if d == 0 {
        "0"
    } else if d == 1 {
        "1"
    } else if d == 2 {
        "2"
    } else if d == 3 {
        "3"
    } else if d == 4 {
        "4"
    } else if d == 5 {
        "5"
    } else if d == 6 {
        "6"
    } else if d == 7 {
        "7"
    } else if d == 8 {
        "8"
    } else {
        "9"
    };
    proof {
        reveal_strlit("0");
        reveal_strlit("1");
        reveal_strlit("2");
        reveal_strlit("3");
        reveal_strlit("4");
        reveal_strlit("5");
        reveal_strlit("6");
        reveal_strlit("7");
        reveal_strlit("8");
        reveal_strlit("9");
        assert(s@ =~= seq![dec_digit(d as int)]);
    }
    s
}

/// Renders `x` in decimal.
pub fn usize_to_string(x: usize) -> (s: String)
    ensures
        s@ == dec_seq(x as nat),
    decreases x,
{
    if x < 10 {
        digit_str(x).to_owned()
    } else {
        let mut s = usize_to_string(x / 10);
        s.append(digit_str(x % 10));
        proof {
            assert(s@ =~= dec_seq((x / 10) as nat).push(dec_digit((x % 10) as int)));
        }
        s
    }
}

/// The turn announcement: the symbol of the player to move, followed by
/// the fixed turn phrase.
pub open spec fn turn_line(p: Cell) -> Seq<char> {
    seq![piece_char(p)] + "のターン．"@
}

/// Announces whose move is next.
pub fn preview_turn(bs: &BoardState) -> (s: String)
    ensures
        s@ == turn_line(bs.player()),
{
    let mut s = bs.which_turn();
    s.append("のターン．");
    proof {
        assert(s@ =~= turn_line(bs.player()));
    }
    s
}

/// The score part of the result announcement: each color's symbol with
/// its disk count, dark first.
pub open spec fn score_prefix(d: nat, l: nat) -> Seq<char> {
    seq![piece_char(Cell::Dark)] + "が"@ + dec_seq(d) + "個，"@ + seq![piece_char(Cell::Light)]
        + "が"@ + dec_seq(l) + "個で"@
}

/// The whole result announcement: the score of both colors, then the
/// winner — the color with more disks — or the draw phrase when the two
/// counts are equal.
pub open spec fn result_line(d: nat, l: nat) -> Seq<char> {
    if d > l {
        score_prefix(d, l) + seq![piece_char(Cell::Dark)] + "の勝ち！"@
    } else if d < l {
        score_prefix(d, l) + seq![piece_char(Cell::Light)] + "の勝ち！"@
    } else {
        score_prefix(d, l) + "引き分け！"@
    }
}

/// Announces the result: both counts, and the winning color or a draw.
pub fn show_result(bs: &BoardState) -> (s: String)
    requires
        bs.wf(),
    ensures
        s@ == result_line(
            grid_count(bs.board(), Cell::Dark),
            grid_count(bs.board(), Cell::Light),
        ),
{
    let ((c1, s1), (c2, s2)) = bs.count_pieces();
    let mut out = "●".to_owned();
    out.append("が");
    let d_str = usize_to_string(s1);
    out.append(d_str.as_str());
    out.append("個，");
    out.append("○");
    out.append("が");
    let l_str = usize_to_string(s2);
    out.append(l_str.as_str());
    out.append("個で");
    proof {
        reveal_strlit("●");
        reveal_strlit("○");
        assert("●"@ =~= seq![piece_char(Cell::Dark)]);
        assert("○"@ =~= seq![piece_char(Cell::Light)]);
        assert(out@ =~= score_prefix(s1 as nat, s2 as nat));
    }
    if s1 > s2 {
        out.append("●");
        out.append("の勝ち！");
    } else if s1 < s2 {
        out.append("○");
        out.append("の勝ち！");
    } else {
        out.append("引き分け！");
    }
    proof {
        assert(out@ =~= result_line(s1 as nat, s2 as nat));
    }
    out
}

} // verus!
