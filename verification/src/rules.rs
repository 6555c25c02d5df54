use vstd::prelude::*;

verus! {

/// One square of the board: empty, or holding a dark or light disk.
#[derive(Clone, Copy, PartialEq, Eq, Structural, Debug)]
pub enum Cell {
    Empty,
    Dark,
    Light,
}

/// The color that captures against `p`.
pub open spec fn opponent(p: Cell) -> Cell {
    match p {
        Cell::Dark => Cell::Light,
        Cell::Light => Cell::Dark,
        Cell::Empty => Cell::Empty,
    }
}

/// A disk color, as opposed to an empty square.
pub open spec fn is_player(p: Cell) -> bool {
    p == Cell::Dark || p == Cell::Light
}

/// (r, c) denotes a square of an n-by-n board.
pub open spec fn in_bounds(n: int, r: int, c: int) -> bool {
    0 <= r < n && 0 <= c < n
}

/// The mathematical board: a square grid of cells, row by row.
pub open spec fn grid_wf(b: Seq<Seq<Cell>>, n: int) -> bool {
    b.len() == n && forall|i: int| 0 <= i < n ==> (#[trigger] b[i]).len() == n
}

/// A compass direction: a unit step in rows and columns, not both zero.
pub open spec fn valid_dir(dr: int, dc: int) -> bool {
    -1 <= dr <= 1 && -1 <= dc <= 1 && !(dr == 0 && dc == 0)
}

/// Number of consecutive squares holding the opponent of `p`, walking from
/// (r, c) in direction (dr, dc); the walk stops at the board edge, at an
/// empty square, or at `p`'s own color.
pub open spec fn opp_run(
    b: Seq<Seq<Cell>>,
    n: int,
    p: Cell,
    r: int,
    c: int,
    dr: int,
    dc: int,
    fuel: nat,
) -> nat
    decreases fuel,
{
    if fuel == 0 {
        0
    } else if in_bounds(n, r, c) && b[r][c] == opponent(p) {
        1 + opp_run(b, n, p, r + dr, c + dc, dr, dc, (fuel - 1) as nat)
    } else {
        0
    }
}

/// Walking from (r, c) in direction (dr, dc): a (possibly empty) run of
/// opponent disks ends at a disk of `p`'s own color, before any empty
/// square and before the board edge.
pub open spec fn run_closes(
    b: Seq<Seq<Cell>>,
    n: int,
    p: Cell,
    r: int,
    c: int,
    dr: int,
    dc: int,
    fuel: nat,
) -> bool
    decreases fuel,
{
    if fuel == 0 {
        false
    } else if !in_bounds(n, r, c) {
        false
    } else if b[r][c] == p {
        true
    } else if b[r][c] == opponent(p) {
        run_closes(b, n, p, r + dr, c + dc, dr, dc, (fuel - 1) as nat)
    } else {
        false
    }
}

/// How many opponent disks a disk of color `p` placed on (r, c) would flip
/// in direction (dr, dc): the length of the opposing run beside (r, c), if
/// that run is closed by `p`'s own color, and 0 otherwise.
pub open spec fn dir_capture(
    b: Seq<Seq<Cell>>,
    n: int,
    p: Cell,
    r: int,
    c: int,
    dr: int,
    dc: int,
) -> nat {
    if run_closes(b, n, p, r + dr, c + dc, dr, dc, (n + 1) as nat) {
        opp_run(b, n, p, r + dr, c + dc, dr, dc, (n + 1) as nat)
    } else {
        0
    }
}

/// How many opponent disks a disk of color `p` placed on (r, c) would flip
/// in total: the sum over the eight compass directions. An occupied or
/// out-of-bounds square always counts 0.
pub open spec fn capture_count(b: Seq<Seq<Cell>>, n: int, p: Cell, r: int, c: int) -> nat {
    if !in_bounds(n, r, c) || b[r][c] != Cell::Empty {
        0
    } else {
        dir_capture(b, n, p, r, c, -1, -1) + dir_capture(b, n, p, r, c, -1, 0) + dir_capture(
            b,
            n,
            p,
            r,
            c,
            -1,
            1,
        ) + dir_capture(b, n, p, r, c, 0, -1) + dir_capture(b, n, p, r, c, 0, 1) + dir_capture(
            b,
            n,
            p,
            r,
            c,
            1,
            -1,
        ) + dir_capture(b, n, p, r, c, 1, 0) + dir_capture(b, n, p, r, c, 1, 1)
    }
}

/// The player `p` has at least one legal square on the board.
pub open spec fn has_move(b: Seq<Seq<Cell>>, n: int, p: Cell) -> bool {
    exists|r: int, c: int|
        in_bounds(n, r, c) && #[trigger] capture_count(b, n, p, r, c) > 0
}

/// The grid with square (r, c) set to `v` and every other square unchanged.
pub open spec fn set_cell(b: Seq<Seq<Cell>>, r: int, c: int, v: Cell) -> Seq<Seq<Cell>> {
    b.update(r, b[r].update(c, v))
}

/// The grid after turning `k` squares to `p`'s color, starting at (r, c)
/// and stepping by (dr, dc).
pub open spec fn flip_run(
    b: Seq<Seq<Cell>>,
    p: Cell,
    r: int,
    c: int,
    dr: int,
    dc: int,
    k: nat,
) -> Seq<Seq<Cell>>
    decreases k,
{
    if k == 0 {
        b
    } else {
        flip_run(set_cell(b, r, c, p), p, r + dr, c + dc, dr, dc, (k - 1) as nat)
    }
}

/// One direction of the flip step of a move on (r, c): the run beside
/// (r, c) in direction (dr, dc) is turned to `p`'s color, with its length
/// taken from the pre-move board `b0`.
pub open spec fn flip_dir(
    b0: Seq<Seq<Cell>>,
    b: Seq<Seq<Cell>>,
    n: int,
    p: Cell,
    r: int,
    c: int,
    dr: int,
    dc: int,
) -> Seq<Seq<Cell>> {
    flip_run(b, p, r + dr, c + dc, dr, dc, dir_capture(b0, n, p, r, c, dr, dc))
}

/// The board after `p` places a disk on the empty square (r, c): the disk
/// is placed, and every closed opposing run beside (r, c) is turned to
/// `p`'s color. All run lengths are those of the pre-move board.
pub open spec fn board_after(b: Seq<Seq<Cell>>, n: int, p: Cell, r: int, c: int) -> Seq<
    Seq<Cell>,
> {
    let b1 = set_cell(b, r, c, p);
    let b2 = flip_dir(b, b1, n, p, r, c, -1, -1);
    let b3 = flip_dir(b, b2, n, p, r, c, -1, 0);
    let b4 = flip_dir(b, b3, n, p, r, c, -1, 1);
    let b5 = flip_dir(b, b4, n, p, r, c, 0, -1);
    let b6 = flip_dir(b, b5, n, p, r, c, 0, 1);
    let b7 = flip_dir(b, b6, n, p, r, c, 1, -1);
    let b8 = flip_dir(b, b7, n, p, r, c, 1, 0);
    flip_dir(b, b8, n, p, r, c, 1, 1)
}

/// Number of squares of a row holding `v`.
pub open spec fn row_count(row: Seq<Cell>, v: Cell) -> nat
    decreases row.len(),
{
    if row.len() == 0 {
        0
    } else {
        row_count(row.drop_last(), v) + if row.last() == v {
            1nat
        } else {
            0nat
        }
    }
}

/// Number of squares of the whole grid holding `v`.
pub open spec fn grid_count(b: Seq<Seq<Cell>>, v: Cell) -> nat
    decreases b.len(),
{
    if b.len() == 0 {
        0
    } else {
        grid_count(b.drop_last(), v) + row_count(b.last(), v)
    }
}

/// The `k` squares starting at (r, c) and stepping by (dr, dc) all lie on
/// the board.
pub open spec fn run_in_bounds(n: int, r: int, c: int, dr: int, dc: int, k: nat) -> bool
    decreases k,
{
    k == 0 || (in_bounds(n, r, c) && run_in_bounds(n, r + dr, c + dc, dr, dc, (k - 1) as nat))
}

/// Every square counted by `opp_run` lies on the board.
pub proof fn lemma_opp_run_in_bounds(
    b: Seq<Seq<Cell>>,
    n: int,
    p: Cell,
    r: int,
    c: int,
    dr: int,
    dc: int,
    fuel: nat,
)
    ensures
        run_in_bounds(n, r, c, dr, dc, opp_run(b, n, p, r, c, dr, dc, fuel)),
    decreases fuel,
{
    if fuel > 0 && in_bounds(n, r, c) && b[r][c] == opponent(p) {
        lemma_opp_run_in_bounds(b, n, p, r + dr, c + dc, dr, dc, (fuel - 1) as nat);
    }
}

/// The `k` squares starting at (r, c) and stepping by (dr, dc) all lie on
/// the board and all hold the opponent of `p`.
pub open spec fn run_all_opp(
    b: Seq<Seq<Cell>>,
    n: int,
    p: Cell,
    r: int,
    c: int,
    dr: int,
    dc: int,
    k: nat,
) -> bool
    decreases k,
{
    k == 0 || (in_bounds(n, r, c) && b[r][c] == opponent(p) && run_all_opp(
        b,
        n,
        p,
        r + dr,
        c + dc,
        dr,
        dc,
        (k - 1) as nat,
    ))
}

/// Every square counted by `opp_run` holds the opponent of `p`.
pub proof fn lemma_opp_run_all_opp(
    b: Seq<Seq<Cell>>,
    n: int,
    p: Cell,
    r: int,
    c: int,
    dr: int,
    dc: int,
    fuel: nat,
)
    ensures
        run_all_opp(b, n, p, r, c, dr, dc, opp_run(b, n, p, r, c, dr, dc, fuel)),
    decreases fuel,
{
    if fuel > 0 && in_bounds(n, r, c) && b[r][c] == opponent(p) {
        lemma_opp_run_all_opp(b, n, p, r + dr, c + dc, dr, dc, (fuel - 1) as nat);
    }
}

/// The part of the plane that the ray of direction (dr, dc) cast from
/// (row, col) stays in: strictly past the origin along each moving axis,
/// and level with it along each still axis. Rays of two different
/// directions from the same origin stay in disjoint zones, and the origin
/// itself lies in none of them.
pub open spec fn ray_zone(dr: int, dc: int, row: int, col: int, x: int, y: int) -> bool {
    &&& if dr == 1 {
        x > row
    } else if dr == -1 {
        x < row
    } else {
        x == row
    }
    &&& if dc == 1 {
        y > col
    } else if dc == -1 {
        y < col
    } else {
        y == col
    }
}

/// `set_cell` keeps the grid square.
pub proof fn lemma_set_cell_wf(b: Seq<Seq<Cell>>, n: int, r: int, c: int, v: Cell)
    requires
        grid_wf(b, n),
        in_bounds(n, r, c),
    ensures
        grid_wf(set_cell(b, r, c, v), n),
{
    assert forall|i: int| 0 <= i < n implies (#[trigger] set_cell(b, r, c, v)[i]).len()
        == n by {
        if i == r {
            assert(set_cell(b, r, c, v)[i] == b[r].update(c, v));
        } else {
            assert(set_cell(b, r, c, v)[i] == b[i]);
        }
    }
}

/// A run of opponent squares is untouched by writing a cell outside the
/// zone that holds the whole run.
pub proof fn lemma_run_all_opp_set(
    b: Seq<Seq<Cell>>,
    n: int,
    p: Cell,
    r0: int,
    c0: int,
    v: Cell,
    r: int,
    c: int,
    dr: int,
    dc: int,
    k: nat,
    row: int,
    col: int,
)
    requires
        grid_wf(b, n),
        in_bounds(n, r0, c0),
        valid_dir(dr, dc),
        run_all_opp(b, n, p, r, c, dr, dc, k),
        ray_zone(dr, dc, row, col, r, c),
        !ray_zone(dr, dc, row, col, r0, c0),
    ensures
        run_all_opp(set_cell(b, r0, c0, v), n, p, r, c, dr, dc, k),
    decreases k,
{
    if k > 0 {
        let b2 = set_cell(b, r0, c0, v);
        assert(r != r0 || c != c0);
        if r == r0 {
            assert(b2[r] == b[r0].update(c0, v));
            assert(b2[r][c] == b[r][c]);
        } else {
            assert(b2[r] == b[r]);
        }
        assert(ray_zone(dr, dc, row, col, r + dr, c + dc));
        lemma_run_all_opp_set(b, n, p, r0, c0, v, r + dr, c + dc, dr, dc, (k - 1) as nat, row, col);
    }
}

/// A run of opponent squares is untouched by flipping a run that stays in
/// a different zone of the same origin.
pub proof fn lemma_run_all_opp_flip(
    b: Seq<Seq<Cell>>,
    n: int,
    p: Cell,
    fr: int,
    fc: int,
    fdr: int,
    fdc: int,
    fk: nat,
    r: int,
    c: int,
    dr: int,
    dc: int,
    k: nat,
    row: int,
    col: int,
)
    requires
        grid_wf(b, n),
        valid_dir(dr, dc),
        valid_dir(fdr, fdc),
        !(dr == fdr && dc == fdc),
        run_in_bounds(n, fr, fc, fdr, fdc, fk),
        run_all_opp(b, n, p, r, c, dr, dc, k),
        ray_zone(dr, dc, row, col, r, c),
        ray_zone(fdr, fdc, row, col, fr, fc),
    ensures
        run_all_opp(flip_run(b, p, fr, fc, fdr, fdc, fk), n, p, r, c, dr, dc, k),
        grid_wf(flip_run(b, p, fr, fc, fdr, fdc, fk), n),
    decreases fk,
{
    if fk > 0 {
        assert(!ray_zone(dr, dc, row, col, fr, fc));
        lemma_run_all_opp_set(b, n, p, fr, fc, p, r, c, dr, dc, k, row, col);
        lemma_set_cell_wf(b, n, fr, fc, p);
        assert(ray_zone(fdr, fdc, row, col, fr + fdr, fc + fdc));
        lemma_run_all_opp_flip(
            set_cell(b, fr, fc, p),
            n,
            p,
            fr + fdr,
            fc + fdc,
            fdr,
            fdc,
            (fk - 1) as nat,
            r,
            c,
            dr,
            dc,
            k,
            row,
            col,
        );
    }
}

/// Writing one square changes the count of each cell state by exactly the
/// difference between the old and the new content of that square.
pub proof fn lemma_row_count_update(row: Seq<Cell>, c: int, v: Cell, w: Cell)
    requires
        0 <= c < row.len(),
    ensures
        row_count(row.update(c, v), w) + (if row[c] == w {
            1nat
        } else {
            0nat
        }) == row_count(row, w) + (if v == w {
            1nat
        } else {
            0nat
        }),
    decreases row.len(),
{
    if c == row.len() - 1 {
        assert(row.update(c, v).drop_last() =~= row.drop_last());
        assert(row.update(c, v).last() == v);
    } else {
        assert(row.update(c, v).drop_last() =~= row.drop_last().update(c, v));
        assert(row.update(c, v).last() == row.last());
        lemma_row_count_update(row.drop_last(), c, v, w);
    }
}

/// `lemma_row_count_update`, lifted to the whole grid.
pub proof fn lemma_grid_count_set(b: Seq<Seq<Cell>>, r: int, c: int, v: Cell, w: Cell)
    requires
        0 <= r < b.len(),
        0 <= c < b[r].len(),
    ensures
        grid_count(set_cell(b, r, c, v), w) + (if b[r][c] == w {
            1nat
        } else {
            0nat
        }) == grid_count(b, w) + (if v == w {
            1nat
        } else {
            0nat
        }),
    decreases b.len(),
{
    if r == b.len() - 1 {
        assert(set_cell(b, r, c, v).drop_last() =~= b.drop_last());
        assert(set_cell(b, r, c, v).last() == b[r].update(c, v));
        lemma_row_count_update(b[r], c, v, w);
    } else {
        assert(set_cell(b, r, c, v).drop_last() =~= set_cell(b.drop_last(), r, c, v));
        assert(set_cell(b, r, c, v).last() == b.last());
        lemma_grid_count_set(b.drop_last(), r, c, v, w);
    }
}

/// Flipping a run of `k` opponent squares gives the mover `k` more disks,
/// takes exactly `k` from the opponent, and leaves the number of empty
/// squares unchanged.
pub proof fn lemma_flip_run_count(
    b: Seq<Seq<Cell>>,
    n: int,
    p: Cell,
    r: int,
    c: int,
    dr: int,
    dc: int,
    k: nat,
)
    requires
        grid_wf(b, n),
        is_player(p),
        valid_dir(dr, dc),
        run_all_opp(b, n, p, r, c, dr, dc, k),
    ensures
        grid_wf(flip_run(b, p, r, c, dr, dc, k), n),
        grid_count(flip_run(b, p, r, c, dr, dc, k), p) == grid_count(b, p) + k,
        grid_count(flip_run(b, p, r, c, dr, dc, k), opponent(p)) + k == grid_count(
            b,
            opponent(p),
        ),
        grid_count(flip_run(b, p, r, c, dr, dc, k), Cell::Empty) == grid_count(b, Cell::Empty),
    decreases k,
{
    if k > 0 {
        let b2 = set_cell(b, r, c, p);
        lemma_set_cell_wf(b, n, r, c, p);
        lemma_grid_count_set(b, r, c, p, p);
        lemma_grid_count_set(b, r, c, p, opponent(p));
        lemma_grid_count_set(b, r, c, p, Cell::Empty);
        assert(ray_zone(dr, dc, r, c, r + dr, c + dc));
        assert(!ray_zone(dr, dc, r, c, r, c));
        lemma_run_all_opp_set(b, n, p, r, c, p, r + dr, c + dc, dr, dc, (k - 1) as nat, r, c);
        lemma_flip_run_count(b2, n, p, r + dr, c + dc, dr, dc, (k - 1) as nat);
    }
}

/// After a legal move, the mover owns the placed disk and every captured
/// disk on top of its old total, the opponent loses exactly the captured
/// disks, and exactly one empty square is used up: the total number of
/// disks on the board grows by one.
pub proof fn lemma_move_counts(b: Seq<Seq<Cell>>, n: int, p: Cell, r: int, c: int)
    requires
        grid_wf(b, n),
        is_player(p),
        capture_count(b, n, p, r, c) > 0,
    ensures
        grid_wf(board_after(b, n, p, r, c), n),
        grid_count(board_after(b, n, p, r, c), p) == grid_count(b, p) + 1 + capture_count(
            b,
            n,
            p,
            r,
            c,
        ),
        grid_count(board_after(b, n, p, r, c), opponent(p)) + capture_count(b, n, p, r, c)
            == grid_count(b, opponent(p)),
        grid_count(board_after(b, n, p, r, c), Cell::Empty) + 1 == grid_count(b, Cell::Empty),
{
    let fuel = (n + 1) as nat;
    let k0 = dir_capture(b, n, p, r, c, -1, -1);
    let k1 = dir_capture(b, n, p, r, c, -1, 0);
    let k2 = dir_capture(b, n, p, r, c, -1, 1);
    let k3 = dir_capture(b, n, p, r, c, 0, -1);
    let k4 = dir_capture(b, n, p, r, c, 0, 1);
    let k5 = dir_capture(b, n, p, r, c, 1, -1);
    let k6 = dir_capture(b, n, p, r, c, 1, 0);
    let k7 = dir_capture(b, n, p, r, c, 1, 1);
    lemma_opp_run_all_opp(b, n, p, r - 1, c - 1, -1, -1, fuel);
    lemma_opp_run_in_bounds(b, n, p, r - 1, c - 1, -1, -1, fuel);
    assert(run_all_opp(b, n, p, r - 1, c - 1, -1, -1, k0));
    assert(run_in_bounds(n, r - 1, c - 1, -1, -1, k0));
    lemma_opp_run_all_opp(b, n, p, r - 1, c, -1, 0, fuel);
    lemma_opp_run_in_bounds(b, n, p, r - 1, c, -1, 0, fuel);
    assert(run_all_opp(b, n, p, r - 1, c, -1, 0, k1));
    assert(run_in_bounds(n, r - 1, c, -1, 0, k1));
    lemma_opp_run_all_opp(b, n, p, r - 1, c + 1, -1, 1, fuel);
    lemma_opp_run_in_bounds(b, n, p, r - 1, c + 1, -1, 1, fuel);
    assert(run_all_opp(b, n, p, r - 1, c + 1, -1, 1, k2));
    assert(run_in_bounds(n, r - 1, c + 1, -1, 1, k2));
    lemma_opp_run_all_opp(b, n, p, r, c - 1, 0, -1, fuel);
    lemma_opp_run_in_bounds(b, n, p, r, c - 1, 0, -1, fuel);
    assert(run_all_opp(b, n, p, r, c - 1, 0, -1, k3));
    assert(run_in_bounds(n, r, c - 1, 0, -1, k3));
    lemma_opp_run_all_opp(b, n, p, r, c + 1, 0, 1, fuel);
    lemma_opp_run_in_bounds(b, n, p, r, c + 1, 0, 1, fuel);
    assert(run_all_opp(b, n, p, r, c + 1, 0, 1, k4));
    assert(run_in_bounds(n, r, c + 1, 0, 1, k4));
    lemma_opp_run_all_opp(b, n, p, r + 1, c - 1, 1, -1, fuel);
    lemma_opp_run_in_bounds(b, n, p, r + 1, c - 1, 1, -1, fuel);
    assert(run_all_opp(b, n, p, r + 1, c - 1, 1, -1, k5));
    assert(run_in_bounds(n, r + 1, c - 1, 1, -1, k5));
    lemma_opp_run_all_opp(b, n, p, r + 1, c, 1, 0, fuel);
    lemma_opp_run_in_bounds(b, n, p, r + 1, c, 1, 0, fuel);
    assert(run_all_opp(b, n, p, r + 1, c, 1, 0, k6));
    assert(run_in_bounds(n, r + 1, c, 1, 0, k6));
    lemma_opp_run_all_opp(b, n, p, r + 1, c + 1, 1, 1, fuel);
    lemma_opp_run_in_bounds(b, n, p, r + 1, c + 1, 1, 1, fuel);
    assert(run_all_opp(b, n, p, r + 1, c + 1, 1, 1, k7));
    assert(run_in_bounds(n, r + 1, c + 1, 1, 1, k7));
    let s1 = set_cell(b, r, c, p);
    lemma_set_cell_wf(b, n, r, c, p);
    lemma_grid_count_set(b, r, c, p, p);
    lemma_grid_count_set(b, r, c, p, opponent(p));
    lemma_grid_count_set(b, r, c, p, Cell::Empty);
    lemma_run_all_opp_set(b, n, p, r, c, p, r - 1, c - 1, -1, -1, k0, r, c);
    lemma_run_all_opp_set(b, n, p, r, c, p, r - 1, c, -1, 0, k1, r, c);
    lemma_run_all_opp_set(b, n, p, r, c, p, r - 1, c + 1, -1, 1, k2, r, c);
    lemma_run_all_opp_set(b, n, p, r, c, p, r, c - 1, 0, -1, k3, r, c);
    lemma_run_all_opp_set(b, n, p, r, c, p, r, c + 1, 0, 1, k4, r, c);
    lemma_run_all_opp_set(b, n, p, r, c, p, r + 1, c - 1, 1, -1, k5, r, c);
    lemma_run_all_opp_set(b, n, p, r, c, p, r + 1, c, 1, 0, k6, r, c);
    lemma_run_all_opp_set(b, n, p, r, c, p, r + 1, c + 1, 1, 1, k7, r, c);
    let s2 = flip_dir(b, s1, n, p, r, c, -1, -1);
    lemma_flip_run_count(s1, n, p, r - 1, c - 1, -1, -1, k0);
    lemma_run_all_opp_flip(s1, n, p, r - 1, c - 1, -1, -1, k0, r - 1, c, -1, 0, k1, r, c);
    lemma_run_all_opp_flip(s1, n, p, r - 1, c - 1, -1, -1, k0, r - 1, c + 1, -1, 1, k2, r, c);
    lemma_run_all_opp_flip(s1, n, p, r - 1, c - 1, -1, -1, k0, r, c - 1, 0, -1, k3, r, c);
    lemma_run_all_opp_flip(s1, n, p, r - 1, c - 1, -1, -1, k0, r, c + 1, 0, 1, k4, r, c);
    lemma_run_all_opp_flip(s1, n, p, r - 1, c - 1, -1, -1, k0, r + 1, c - 1, 1, -1, k5, r, c);
    lemma_run_all_opp_flip(s1, n, p, r - 1, c - 1, -1, -1, k0, r + 1, c, 1, 0, k6, r, c);
    lemma_run_all_opp_flip(s1, n, p, r - 1, c - 1, -1, -1, k0, r + 1, c + 1, 1, 1, k7, r, c);
    let s3 = flip_dir(b, s2, n, p, r, c, -1, 0);
    lemma_flip_run_count(s2, n, p, r - 1, c, -1, 0, k1);
    lemma_run_all_opp_flip(s2, n, p, r - 1, c, -1, 0, k1, r - 1, c + 1, -1, 1, k2, r, c);
    lemma_run_all_opp_flip(s2, n, p, r - 1, c, -1, 0, k1, r, c - 1, 0, -1, k3, r, c);
    lemma_run_all_opp_flip(s2, n, p, r - 1, c, -1, 0, k1, r, c + 1, 0, 1, k4, r, c);
    lemma_run_all_opp_flip(s2, n, p, r - 1, c, -1, 0, k1, r + 1, c - 1, 1, -1, k5, r, c);
    lemma_run_all_opp_flip(s2, n, p, r - 1, c, -1, 0, k1, r + 1, c, 1, 0, k6, r, c);
    lemma_run_all_opp_flip(s2, n, p, r - 1, c, -1, 0, k1, r + 1, c + 1, 1, 1, k7, r, c);
    let s4 = flip_dir(b, s3, n, p, r, c, -1, 1);
    lemma_flip_run_count(s3, n, p, r - 1, c + 1, -1, 1, k2);
    lemma_run_all_opp_flip(s3, n, p, r - 1, c + 1, -1, 1, k2, r, c - 1, 0, -1, k3, r, c);
    lemma_run_all_opp_flip(s3, n, p, r - 1, c + 1, -1, 1, k2, r, c + 1, 0, 1, k4, r, c);
    lemma_run_all_opp_flip(s3, n, p, r - 1, c + 1, -1, 1, k2, r + 1, c - 1, 1, -1, k5, r, c);
    lemma_run_all_opp_flip(s3, n, p, r - 1, c + 1, -1, 1, k2, r + 1, c, 1, 0, k6, r, c);
    lemma_run_all_opp_flip(s3, n, p, r - 1, c + 1, -1, 1, k2, r + 1, c + 1, 1, 1, k7, r, c);
    let s5 = flip_dir(b, s4, n, p, r, c, 0, -1);
    lemma_flip_run_count(s4, n, p, r, c - 1, 0, -1, k3);
    lemma_run_all_opp_flip(s4, n, p, r, c - 1, 0, -1, k3, r, c + 1, 0, 1, k4, r, c);
    lemma_run_all_opp_flip(s4, n, p, r, c - 1, 0, -1, k3, r + 1, c - 1, 1, -1, k5, r, c);
    lemma_run_all_opp_flip(s4, n, p, r, c - 1, 0, -1, k3, r + 1, c, 1, 0, k6, r, c);
    lemma_run_all_opp_flip(s4, n, p, r, c - 1, 0, -1, k3, r + 1, c + 1, 1, 1, k7, r, c);
    let s6 = flip_dir(b, s5, n, p, r, c, 0, 1);
    lemma_flip_run_count(s5, n, p, r, c + 1, 0, 1, k4);
    lemma_run_all_opp_flip(s5, n, p, r, c + 1, 0, 1, k4, r + 1, c - 1, 1, -1, k5, r, c);
    lemma_run_all_opp_flip(s5, n, p, r, c + 1, 0, 1, k4, r + 1, c, 1, 0, k6, r, c);
    lemma_run_all_opp_flip(s5, n, p, r, c + 1, 0, 1, k4, r + 1, c + 1, 1, 1, k7, r, c);
    let s7 = flip_dir(b, s6, n, p, r, c, 1, -1);
    lemma_flip_run_count(s6, n, p, r + 1, c - 1, 1, -1, k5);
    lemma_run_all_opp_flip(s6, n, p, r + 1, c - 1, 1, -1, k5, r + 1, c, 1, 0, k6, r, c);
    lemma_run_all_opp_flip(s6, n, p, r + 1, c - 1, 1, -1, k5, r + 1, c + 1, 1, 1, k7, r, c);
    let s8 = flip_dir(b, s7, n, p, r, c, 1, 0);
    lemma_flip_run_count(s7, n, p, r + 1, c, 1, 0, k6);
    lemma_run_all_opp_flip(s7, n, p, r + 1, c, 1, 0, k6, r + 1, c + 1, 1, 1, k7, r, c);
    let s9 = flip_dir(b, s8, n, p, r, c, 1, 1);
    lemma_flip_run_count(s8, n, p, r + 1, c + 1, 1, 1, k7);
    assert(board_after(b, n, p, r, c) == s9);
    assert(capture_count(b, n, p, r, c) == k0 + k1 + k2 + k3 + k4 + k5 + k6 + k7);
}


/// Each square of a row holds exactly one of the three cell states.
pub proof fn lemma_row_counts_total(row: Seq<Cell>)
    ensures
        row_count(row, Cell::Dark) + row_count(row, Cell::Light) + row_count(row, Cell::Empty)
            == row.len(),
    decreases row.len(),
{
    if row.len() > 0 {
        lemma_row_counts_total(row.drop_last());
    }
}

/// The three per-state counts of a square grid always sum to the number
/// of its squares. In particular, once the board is full, the dark and
/// the light count alone sum to n * n.
pub proof fn lemma_counts_total(b: Seq<Seq<Cell>>, n: int)
    requires
        grid_wf(b, n),
    ensures
        grid_count(b, Cell::Dark) + grid_count(b, Cell::Light) + grid_count(b, Cell::Empty)
            == n * n,
{
    lemma_counts_rows(b, n);
}

/// `lemma_counts_total`, generalized to any stack of rows of width `n`.
proof fn lemma_counts_rows(b: Seq<Seq<Cell>>, n: int)
    requires
        n >= 0,
        forall|i: int| 0 <= i < b.len() ==> (#[trigger] b[i]).len() == n,
    ensures
        grid_count(b, Cell::Dark) + grid_count(b, Cell::Light) + grid_count(b, Cell::Empty)
            == b.len() * n,
    decreases b.len(),
{
    if b.len() > 0 {
        lemma_counts_rows(b.drop_last(), n);
        lemma_row_counts_total(b.last());
        assert(b.len() * n == (b.len() - 1) * n + n) by (nonlinear_arith);
    }
}

/// An occupied square never has a positive capture count, on any board,
/// for either color.
pub proof fn lemma_capture_occupied(b: Seq<Seq<Cell>>, n: int, p: Cell, r: int, c: int)
    requires
        in_bounds(n, r, c),
        b[r][c] != Cell::Empty,
    ensures
        capture_count(b, n, p, r, c) == 0,
{
}

/// A direction contributes to a capture only when the contiguous opposing
/// run beside the placement is terminated by the mover's own color: a run
/// that reaches an empty square or the board edge contributes nothing,
/// and a contributing direction flips exactly the opposing run beside the
/// placement.
pub proof fn lemma_dir_capture_closure(
    b: Seq<Seq<Cell>>,
    n: int,
    p: Cell,
    r: int,
    c: int,
    dr: int,
    dc: int,
)
    ensures
        dir_capture(b, n, p, r, c, dr, dc) > 0 ==> run_closes(
            b,
            n,
            p,
            r + dr,
            c + dc,
            dr,
            dc,
            (n + 1) as nat,
        ),
        !run_closes(b, n, p, r + dr, c + dc, dr, dc, (n + 1) as nat) ==> dir_capture(
            b,
            n,
            p,
            r,
            c,
            dr,
            dc,
        ) == 0,
        run_closes(b, n, p, r + dr, c + dc, dr, dc, (n + 1) as nat) ==> dir_capture(
            b,
            n,
            p,
            r,
            c,
            dr,
            dc,
        ) == opp_run(b, n, p, r + dr, c + dc, dr, dc, (n + 1) as nat),
{
}

/// The canonical opening: the four central squares hold two dark and two
/// light disks, diagonally opposed, and every other square is empty.
/// `rev` swaps the two colors.
pub open spec fn init_cell(n: int, rev: bool, r: int, c: int) -> Cell {
    let h = n / 2;
    if (r == h - 1 && c == h - 1) || (r == h && c == h) {
        if rev {
            Cell::Light
        } else {
            Cell::Dark
        }
    } else if (r == h - 1 && c == h) || (r == h && c == h - 1) {
        if rev {
            Cell::Dark
        } else {
            Cell::Light
        }
    } else {
        Cell::Empty
    }
}

} // verus!
