use vstd::prelude::*;

use crate::rules::{
    board_after, capture_count, dir_capture, flip_dir, flip_run, grid_count, grid_wf, has_move,
    in_bounds, init_cell, is_player, lemma_opp_run_in_bounds, opp_run, opponent, row_count,
    run_closes, run_in_bounds, set_cell, valid_dir, Cell,
};

verus! {

/// Largest accepted board side: keeps every count of squares, and every
/// sum of per-direction captures, well inside `usize`.
pub const MAX_SIZE: usize = 32768;

/// The display symbol of each square state.
pub open spec fn piece_char(v: Cell) -> char {
    match v {
        Cell::Empty => '-',
        Cell::Dark => '●',
        Cell::Light => '○',
    }
}

/// A vector-of-rows grid as a sequence of rows of cells.
pub open spec fn grid_view(g: Seq<Vec<Cell>>) -> Seq<Seq<Cell>> {
    Seq::new(g.len(), |i: int| g[i]@)
}

/// The authoritative game state: the grid, its side length, and whose
/// move is next.
pub struct BoardState {
    pub grid: Vec<Vec<Cell>>,
    pub size: usize,
    pub white_turn: bool,
}

impl BoardState {
    /// The grid as a sequence of rows of cells.
    pub open spec fn board(&self) -> Seq<Seq<Cell>> {
        grid_view(self.grid@)
    }

    /// The side length as a mathematical integer.
    pub open spec fn n(&self) -> int {
        self.size as int
    }

    /// The color whose move is next.
    pub open spec fn player(&self) -> Cell {
        if self.white_turn {
            Cell::Light
        } else {
            Cell::Dark
        }
    }

    /// Well-formedness: an even side length of at least 4, within the
    /// supported maximum, and a square grid of that side.
    pub open spec fn wf(&self) -> bool {
        &&& 4 <= self.size
        &&& self.size % 2 == 0
        &&& self.size <= MAX_SIZE
        &&& grid_wf(self.board(), self.n())
    }

    /// Builds the opening position of a board of side `2 * half_size`,
    /// with dark to move first. `start_reversed` swaps the two colors of
    /// the four central disks.
    pub fn new(half_size: usize, start_reversed: bool) -> (bs: BoardState)
        requires
            2 <= half_size,
            half_size <= MAX_SIZE / 2,
        ensures
            bs.wf(),
            bs.size == 2 * half_size,
            bs.white_turn == false,
            forall|r: int, c: int|
                in_bounds(bs.n(), r, c) ==> (#[trigger] bs.board()[r][c]) == init_cell(
                    bs.n(),
                    start_reversed,
                    r,
                    c,
                ),
    {
        let n = 2 * half_size;
        let dark = if start_reversed {
            Cell::Light
        } else {
            Cell::Dark
        };
        let light = if start_reversed {
            Cell::Dark
        } else {
            Cell::Light
        };
        let mut grid: Vec<Vec<Cell>> = Vec::new();
        let mut i: usize = 0;
        while i < n
            invariant
                i <= n,
                n == 2 * half_size,
                2 <= half_size,
                grid@.len() == i,
                forall|r: int| 0 <= r < i ==> (#[trigger] grid@[r])@.len() == n,
                forall|r: int, c: int|
                    0 <= r < i && 0 <= c < n ==> grid@[r]@[c] == init_cell(
                        n as int,
                        start_reversed,
                        r,
                        c,
                    ),
                dark == (if start_reversed { Cell::Light } else { Cell::Dark }),
                light == (if start_reversed { Cell::Dark } else { Cell::Light }),
            decreases n - i,
        {
            let mut row: Vec<Cell> = Vec::new();
            let mut j: usize = 0;
            while j < n
                invariant
                    j <= n,
                    n == 2 * half_size,
                    2 <= half_size,
                    row@.len() == j,
                    forall|c: int|
                        0 <= c < j ==> row@[c] == init_cell(n as int, start_reversed, i as int, c),
                    dark == (if start_reversed { Cell::Light } else { Cell::Dark }),
                    light == (if start_reversed { Cell::Dark } else { Cell::Light }),
                decreases n - j,
            {
                let v = if (i == half_size - 1 && j == half_size - 1) || (i == half_size && j
                    == half_size) {
                    dark
                } else if (i == half_size - 1 && j == half_size) || (i == half_size && j
                    == half_size - 1) {
                    light
                } else {
                    Cell::Empty
                };
                proof {
                    assert(n as int / 2 == half_size as int);
                }
                row.push(v);
                j = j + 1;
            }
            grid.push(row);
            i = i + 1;
        }
        BoardState { grid, size: n, white_turn: false }
    }

    /// The side length of the board.
    pub fn get_size(&self) -> (n: usize)
        ensures
            n == self.size,
    {
        self.size
    }

    /// Whether light is the player to move.
    pub fn is_it_white_turn(&self) -> (w: bool)
        ensures
            w == self.white_turn,
    {
        self.white_turn
    }

    /// The display symbol of the dark disks.
    pub fn black_piece() -> (ch: char)
        ensures
            ch == piece_char(Cell::Dark),
    {
        '●'
    }

    /// The display symbol of the light disks.
    pub fn white_piece() -> (ch: char)
        ensures
            ch == piece_char(Cell::Light),
    {
        '○'
    }

    /// The grid rendered as display symbols, row by row.
    pub fn show_board(&self) -> (v: Vec<Vec<char>>)
        requires
            self.wf(),
        ensures
            v@.len() == self.n(),
            forall|i: int| 0 <= i < self.n() ==> (#[trigger] v@[i])@.len() == self.n(),
            forall|i: int, j: int|
                in_bounds(self.n(), i, j) ==> (#[trigger] v@[i]@[j]) == piece_char(
                    self.board()[i][j],
                ),
    {
        let n = self.size;
        let mut v: Vec<Vec<char>> = Vec::new();
        let mut i: usize = 0;
        while i < n
            invariant
                i <= n,
                self.wf(),
                n == self.size,
                v@.len() == i,
                forall|r: int| 0 <= r < i ==> (#[trigger] v@[r])@.len() == n,
                forall|r: int, c: int|
                    0 <= r < i && 0 <= c < n ==> v@[r]@[c] == piece_char(self.board()[r][c]),
            decreases n - i,
        {
            let mut row: Vec<char> = Vec::new();
            let mut j: usize = 0;
            while j < n
                invariant
                    j <= n,
                    i < n,
                    self.wf(),
                    n == self.size,
                    row@.len() == j,
                    forall|c: int| 0 <= c < j ==> row@[c] == piece_char(self.board()[i as int][c]),
                decreases n - j,
            {
                proof {
                    assert(self.board()[i as int] == self.grid@[i as int]@);
                }
                let ch = match self.grid[i][j] {
                    Cell::Empty => '-',
                    Cell::Dark => '●',
                    Cell::Light => '○',
                };
                row.push(ch);
                j = j + 1;
            }
            v.push(row);
            i = i + 1;
        }
        v
    }

    /// The disk color that plays against `p`.
    fn flip_color(p: Cell) -> (q: Cell)
        ensures
            q == opponent(p),
    {
        match p {
            Cell::Dark => Cell::Light,
            Cell::Light => Cell::Dark,
            Cell::Empty => Cell::Empty,
        }
    }

    /// One step from (r, c) in direction (dr, dc), or `None` when the step
    /// leaves the board.
    fn step(n: usize, r: usize, c: usize, dr: i8, dc: i8) -> (res: Option<(usize, usize)>)
        requires
            valid_dir(dr as int, dc as int),
            r < n,
            c < n,
        ensures
            match res {
                Some(rc) => in_bounds(n as int, r + dr, c + dc) && rc.0 == r + dr && rc.1 == c
                    + dc,
                None => !in_bounds(n as int, r + dr, c + dc),
            },
    {
        let nr: usize = if dr < 0 {
            if r == 0 {
                return None;
            }
            r - 1
        } else if dr > 0 {
            if r + 1 >= n {
                return None;
            }
            r + 1
        } else {
            r
        };
        let nc: usize = if dc < 0 {
            if c == 0 {
                return None;
            }
            c - 1
        } else if dc > 0 {
            if c + 1 >= n {
                return None;
            }
            c + 1
        } else {
            c
        };
        Some((nr, nc))
    }

    /// Walks from (r, c) in direction (dr, dc), returning the length of the
    /// opposing run starting there and whether that run is closed by a disk
    /// of `p`'s own color.
    fn walk_dir(&self, p: Cell, r: usize, c: usize, dr: i8, dc: i8, fuel: usize) -> (res: (
        usize,
        bool,
    ))
        requires
            self.wf(),
            is_player(p),
            valid_dir(dr as int, dc as int),
            r < self.size,
            c < self.size,
        ensures
            res.0 == opp_run(
                self.board(),
                self.n(),
                p,
                r as int,
                c as int,
                dr as int,
                dc as int,
                fuel as nat,
            ),
            res.1 == run_closes(
                self.board(),
                self.n(),
                p,
                r as int,
                c as int,
                dr as int,
                dc as int,
                fuel as nat,
            ),
            res.0 <= fuel,
        decreases fuel,
    {
        if fuel == 0 {
            return (0, false);
        }
        proof {
            assert(self.board()[r as int] == self.grid@[r as int]@);
        }
        let cur = self.grid[r][c];
        if cur == p {
            (0, true)
        } else if cur == Self::flip_color(p) {
            match Self::step(self.size, r, c, dr, dc) {
                None => {
                    proof {
                        assert(opp_run(
                            self.board(),
                            self.n(),
                            p,
                            r + dr,
                            c + dc,
                            dr as int,
                            dc as int,
                            (fuel - 1) as nat,
                        ) == 0);
                        assert(!run_closes(
                            self.board(),
                            self.n(),
                            p,
                            r + dr,
                            c + dc,
                            dr as int,
                            dc as int,
                            (fuel - 1) as nat,
                        ));
                    }
                    (1, false)
                },
                Some((nr, nc)) => {
                    let sub = self.walk_dir(p, nr, nc, dr, dc, fuel - 1);
                    (1 + sub.0, sub.1)
                },
            }
        } else {
            (0, false)
        }
    }

    /// How many opponent disks `p` would flip in direction (dr, dc) by
    /// placing a disk on (r, c).
    fn capture_in_dir(&self, p: Cell, r: usize, c: usize, dr: i8, dc: i8) -> (k: usize)
        requires
            self.wf(),
            is_player(p),
            valid_dir(dr as int, dc as int),
            r < self.size,
            c < self.size,
        ensures
            k == dir_capture(
                self.board(),
                self.n(),
                p,
                r as int,
                c as int,
                dr as int,
                dc as int,
            ),
            k <= self.size + 1,
    {
        match Self::step(self.size, r, c, dr, dc) {
            None => 0,
            Some((nr, nc)) => {
                let (run, closed) = self.walk_dir(p, nr, nc, dr, dc, self.size + 1);
                if closed {
                    run
                } else {
                    0
                }
            },
        }
    }

    /// How many opponent disks `p` would flip in total by placing a disk
    /// on (r, c); 0 when (r, c) is occupied.
    fn count_at(&self, p: Cell, r: usize, c: usize) -> (k: usize)
        requires
            self.wf(),
            is_player(p),
            r < self.size,
            c < self.size,
        ensures
            k == capture_count(self.board(), self.n(), p, r as int, c as int),
            k <= 8 * (self.size + 1),
    {
        proof {
            assert(self.board()[r as int] == self.grid@[r as int]@);
        }
        if !matches!(self.grid[r][c], Cell::Empty) {
            return 0;
        }
        let k0 = self.capture_in_dir(p, r, c, -1, -1);
        let k1 = self.capture_in_dir(p, r, c, -1, 0);
        let k2 = self.capture_in_dir(p, r, c, -1, 1);
        let k3 = self.capture_in_dir(p, r, c, 0, -1);
        let k4 = self.capture_in_dir(p, r, c, 0, 1);
        let k5 = self.capture_in_dir(p, r, c, 1, -1);
        let k6 = self.capture_in_dir(p, r, c, 1, 0);
        let k7 = self.capture_in_dir(p, r, c, 1, 1);
        k0 + k1 + k2 + k3 + k4 + k5 + k6 + k7
    }

    /// The color whose move is next, as a cell value.
    fn current_player(&self) -> (p: Cell)
        ensures
            p == self.player(),
    {
        if self.white_turn {
            Cell::Light
        } else {
            Cell::Dark
        }
    }

    /// The capture map of the player to move: for every square, how many
    /// opponent disks a disk placed there would flip right now. Occupied
    /// squares count 0; a square is a legal move exactly when its entry is
    /// positive.
    pub fn cnt_reversable(&self) -> (v: Vec<Vec<usize>>)
        requires
            self.wf(),
        ensures
            v@.len() == self.n(),
            forall|i: int| 0 <= i < self.n() ==> (#[trigger] v@[i])@.len() == self.n(),
            forall|i: int, j: int|
                in_bounds(self.n(), i, j) ==> (#[trigger] v@[i]@[j]) == capture_count(
                    self.board(),
                    self.n(),
                    self.player(),
                    i,
                    j,
                ),
    {
        let p = self.current_player();
        let n = self.size;
        let mut v: Vec<Vec<usize>> = Vec::new();
        let mut i: usize = 0;
        while i < n
            invariant
                i <= n,
                self.wf(),
                n == self.size,
                p == self.player(),
                v@.len() == i,
                forall|r: int| 0 <= r < i ==> (#[trigger] v@[r])@.len() == n,
                forall|r: int, c: int|
                    0 <= r < i && 0 <= c < n ==> v@[r]@[c] == capture_count(
                        self.board(),
                        self.n(),
                        self.player(),
                        r,
                        c,
                    ),
            decreases n - i,
        {
            let mut row: Vec<usize> = Vec::new();
            let mut j: usize = 0;
            while j < n
                invariant
                    j <= n,
                    i < n,
                    self.wf(),
                    n == self.size,
                    p == self.player(),
                    row@.len() == j,
                    forall|c: int|
                        0 <= c < j ==> row@[c] == capture_count(
                            self.board(),
                            self.n(),
                            self.player(),
                            i as int,
                            c,
                        ),
                decreases n - j,
            {
                let k = self.count_at(p, i, j);
                row.push(k);
                j = j + 1;
            }
            v.push(row);
            i = i + 1;
        }
        v
    }

    /// Turns `k` squares to `p`'s color, starting at (r, c) and stepping
    /// by (dr, dc).
    fn flip_line(
        grid: &mut Vec<Vec<Cell>>,
        n: usize,
        p: Cell,
        r: usize,
        c: usize,
        dr: i8,
        dc: i8,
        k: usize,
    )
        requires
            grid_wf(grid_view(old(grid)@), n as int),
            valid_dir(dr as int, dc as int),
            run_in_bounds(n as int, r as int, c as int, dr as int, dc as int, k as nat),
        ensures
            grid_view(final(grid)@) == flip_run(
                grid_view(old(grid)@),
                p,
                r as int,
                c as int,
                dr as int,
                dc as int,
                k as nat,
            ),
            grid_wf(grid_view(final(grid)@), n as int),
        decreases k,
    {
        if k == 0 {
            return ;
        }
        let ghost b = grid_view(grid@);
        proof {
            assert(in_bounds(n as int, r as int, c as int));
            assert(grid_view(grid@)[r as int] == grid@[r as int]@);
        }
        grid[r][c] = p;
        proof {
            assert(grid_view(grid@) =~~= set_cell(b, r as int, c as int, p));
            assert(grid_wf(grid_view(grid@), n as int));
        }
        if k > 1 {
            proof {
                assert(run_in_bounds(
                    n as int,
                    r + dr,
                    c + dc,
                    dr as int,
                    dc as int,
                    (k - 1) as nat,
                ));
                assert(in_bounds(n as int, r + dr, c + dc));
            }
            match Self::step(n, r, c, dr, dc) {
                Some((nr, nc)) => {
                    Self::flip_line(grid, n, p, nr, nc, dr, dc, k - 1);
                },
                None => {
                    proof {
                        assert(false);
                    }
                },
            }
        } else {
            proof {
                assert(flip_run(
                    set_cell(b, r as int, c as int, p),
                    p,
                    r + dr,
                    c + dc,
                    dr as int,
                    dc as int,
                    0nat,
                ) == set_cell(b, r as int, c as int, p));
            }
        }
    }

    /// Applies the move of the player to move on square (row, col).
    ///
    /// When (row, col) is not a legal square right now (out of bounds,
    /// occupied, or flipping nothing), the board is left untouched and the
    /// game goes on. Otherwise the disk is placed, every closed opposing
    /// run beside it is flipped, and the turn passes to the opponent if
    /// the opponent then has a legal move; stays with the same player if
    /// only that player has one (the opponent is forced to pass); and the
    /// game ends — the returned flag is false — when neither color has a
    /// legal move left.
    pub fn put(&mut self, row: usize, col: usize) -> (can_continue: bool)
        requires
            old(self).wf(),
        ensures
            final(self).wf(),
            final(self).size == old(self).size,
            capture_count(
                old(self).board(),
                old(self).n(),
                old(self).player(),
                row as int,
                col as int,
            ) == 0 ==> *final(self) == *old(self) && can_continue == true,
            capture_count(
                old(self).board(),
                old(self).n(),
                old(self).player(),
                row as int,
                col as int,
            ) > 0 ==> {
                let nb = board_after(
                    old(self).board(),
                    old(self).n(),
                    old(self).player(),
                    row as int,
                    col as int,
                );
                &&& final(self).board() == nb
                &&& (has_move(nb, old(self).n(), opponent(old(self).player()))
                    ==> final(self).white_turn == !old(self).white_turn && can_continue == true)
                &&& (!has_move(nb, old(self).n(), opponent(old(self).player())) && has_move(
                    nb,
                    old(self).n(),
                    old(self).player(),
                ) ==> final(self).white_turn == old(self).white_turn && can_continue == true)
                &&& (!has_move(nb, old(self).n(), opponent(old(self).player())) && !has_move(
                    nb,
                    old(self).n(),
                    old(self).player(),
                ) ==> final(self).white_turn == old(self).white_turn && can_continue == false)
            },
    {
        let n = self.size;
        if row >= n || col >= n {
            return true;
        }
        let p = self.current_player();
        proof {
            assert(self.board()[row as int] == self.grid@[row as int]@);
        }
        if !matches!(self.grid[row][col], Cell::Empty) {
            return true;
        }
        let k0 = self.capture_in_dir(p, row, col, -1, -1);
        let k1 = self.capture_in_dir(p, row, col, -1, 0);
        let k2 = self.capture_in_dir(p, row, col, -1, 1);
        let k3 = self.capture_in_dir(p, row, col, 0, -1);
        let k4 = self.capture_in_dir(p, row, col, 0, 1);
        let k5 = self.capture_in_dir(p, row, col, 1, -1);
        let k6 = self.capture_in_dir(p, row, col, 1, 0);
        let k7 = self.capture_in_dir(p, row, col, 1, 1);
        let total = k0 + k1 + k2 + k3 + k4 + k5 + k6 + k7;
        if total == 0 {
            return true;
        }
        let ghost b = self.board();
        let ghost nn = self.n();

        self.grid[row][col] = p;
        proof {
            assert(self.board() =~~= set_cell(b, row as int, col as int, p));
        }
        let ghost b1 = self.board();
        self.flip_one_dir(Ghost(b), n, p, row, col, -1, -1, k0);
        proof {
            assert(self.board() == flip_dir(b, b1, nn, p, row as int, col as int, -1, -1));
        }
        let ghost b2 = self.board();
        self.flip_one_dir(Ghost(b), n, p, row, col, -1, 0, k1);
        proof {
            assert(self.board() == flip_dir(b, b2, nn, p, row as int, col as int, -1, 0));
        }
        let ghost b3 = self.board();
        self.flip_one_dir(Ghost(b), n, p, row, col, -1, 1, k2);
        proof {
            assert(self.board() == flip_dir(b, b3, nn, p, row as int, col as int, -1, 1));
        }
        let ghost b4 = self.board();
        self.flip_one_dir(Ghost(b), n, p, row, col, 0, -1, k3);
        proof {
            assert(self.board() == flip_dir(b, b4, nn, p, row as int, col as int, 0, -1));
        }
        let ghost b5 = self.board();
        self.flip_one_dir(Ghost(b), n, p, row, col, 0, 1, k4);
        proof {
            assert(self.board() == flip_dir(b, b5, nn, p, row as int, col as int, 0, 1));
        }
        let ghost b6 = self.board();
        self.flip_one_dir(Ghost(b), n, p, row, col, 1, -1, k5);
        proof {
            assert(self.board() == flip_dir(b, b6, nn, p, row as int, col as int, 1, -1));
        }
        let ghost b7 = self.board();
        self.flip_one_dir(Ghost(b), n, p, row, col, 1, 0, k6);
        proof {
            assert(self.board() == flip_dir(b, b7, nn, p, row as int, col as int, 1, 0));
        }
        let ghost b8 = self.board();
        self.flip_one_dir(Ghost(b), n, p, row, col, 1, 1, k7);
        proof {
            assert(self.board() == flip_dir(b, b8, nn, p, row as int, col as int, 1, 1));
            assert(self.board() == board_after(b, nn, p, row as int, col as int));
        }
        let other = Self::flip_color(p);
        if self.any_move(other) {
            self.white_turn = !self.white_turn;
            true
        } else if self.any_move(p) {
            true
        } else {
            false
        }
    }

    /// The flip step of `put` for one direction: turns the closed opposing
    /// run beside (row, col) in direction (dr, dc), whose length `k` was
    /// computed on the pre-move board `b`.
    fn flip_one_dir(
        &mut self,
        Ghost(b): Ghost<Seq<Seq<Cell>>>,
        n: usize,
        p: Cell,
        row: usize,
        col: usize,
        dr: i8,
        dc: i8,
        k: usize,
    )
        requires
            n == old(self).size,
            grid_wf(old(self).board(), n as int),
            valid_dir(dr as int, dc as int),
            row < n,
            col < n,
            k == dir_capture(b, n as int, p, row as int, col as int, dr as int, dc as int),
        ensures
            final(self).board() == flip_run(
                old(self).board(),
                p,
                row + dr,
                col + dc,
                dr as int,
                dc as int,
                k as nat,
            ),
            grid_wf(final(self).board(), n as int),
            final(self).size == old(self).size,
            final(self).white_turn == old(self).white_turn,
    {
        proof {
            if k > 0 {
                lemma_opp_run_in_bounds(
                    b,
                    n as int,
                    p,
                    row + dr,
                    col + dc,
                    dr as int,
                    dc as int,
                    (n + 1) as nat,
                );
            }
        }
        if k == 0 {
            return ;
        }
        match Self::step(n, row, col, dr, dc) {
            Some((nr, nc)) => {
                Self::flip_line(&mut self.grid, n, p, nr, nc, dr, dc, k);
            },
            None => {
                proof {
                    assert(false);
                }
            },
        }
    }

    /// Number of squares currently holding `v`.
    fn count_color(&self, v: Cell) -> (cnt: usize)
        requires
            self.wf(),
        ensures
            cnt == grid_count(self.board(), v),
    {
        let n = self.size;
        let mut cnt: usize = 0;
        let mut i: usize = 0;
        proof {
            assert(self.board().take(0) =~= Seq::<Seq<Cell>>::empty());
        }
        while i < n
            invariant
                i <= n,
                self.wf(),
                n == self.size,
                cnt == grid_count(self.board().take(i as int), v),
                cnt <= i * n,
            decreases n - i,
        {
            let mut row_cnt: usize = 0;
            let mut j: usize = 0;
            proof {
                assert(self.board()[i as int] == self.grid@[i as int]@);
                assert(self.board()[i as int].take(0) =~= Seq::<Cell>::empty());
            }
            while j < n
                invariant
                    j <= n,
                    i < n,
                    self.wf(),
                    n == self.size,
                    row_cnt == row_count(self.board()[i as int].take(j as int), v),
                    row_cnt <= j,
                decreases n - j,
            {
                proof {
                    assert(self.board()[i as int] == self.grid@[i as int]@);
                    assert(self.board()[i as int].take(j + 1).drop_last() =~= self.board()[
                        i as int
                    ].take(j as int));
                    assert(self.board()[i as int].take(j + 1).last() == self.board()[i as int][
                        j as int
                    ]);
                }
                if self.grid[i][j] == v {
                    row_cnt = row_cnt + 1;
                }
                j = j + 1;
            }
            proof {
                assert(self.board()[i as int].take(n as int) =~= self.board()[i as int]);
                assert(self.board().take(i + 1).drop_last() =~= self.board().take(i as int));
                assert(self.board().take(i + 1).last() == self.board()[i as int]);
                assert(cnt + row_cnt <= i * n + n);
                assert(i * n + n == (i + 1) * n) by (nonlinear_arith);
                assert((i + 1) * n <= n * n) by (nonlinear_arith)
                    requires
                        i < n,
                ;
                assert(n * n <= MAX_SIZE * MAX_SIZE) by (nonlinear_arith)
                    requires
                        n <= MAX_SIZE,
                ;
            }
            cnt = cnt + row_cnt;
            i = i + 1;
        }
        proof {
            assert(self.board().take(n as int) =~= self.board());
        }
        cnt
    }

    /// The display symbol of the color whose move is next, as a string.
    pub fn which_turn(&self) -> (s: String)
        ensures
            s@ == seq![piece_char(self.player())],
    {
        if self.white_turn {
            let s = "○".to_owned();
            proof {
                reveal_strlit("○");
                assert(s@ =~= seq![piece_char(Cell::Light)]);
            }
            s
        } else {
            let s = "●".to_owned();
            proof {
                reveal_strlit("●");
                assert(s@ =~= seq![piece_char(Cell::Dark)]);
            }
            s
        }
    }

    /// The final (or running) score: each color's display symbol beside
    /// the number of its disks on the board, dark first.
    pub fn count_pieces(&self) -> (res: ((char, usize), (char, usize)))
        requires
            self.wf(),
        ensures
            res.0.0 == piece_char(Cell::Dark),
            res.0.1 == grid_count(self.board(), Cell::Dark),
            res.1.0 == piece_char(Cell::Light),
            res.1.1 == grid_count(self.board(), Cell::Light),
    {
        (
            (Self::black_piece(), self.count_color(Cell::Dark)),
            (Self::white_piece(), self.count_color(Cell::Light)),
        )
    }

    /// Whether the color `p` has any legal square on the current board.
    fn any_move(&self, p: Cell) -> (b: bool)
        requires
            self.wf(),
            is_player(p),
        ensures
            b == has_move(self.board(), self.n(), p),
    {
        let n = self.size;
        let mut i: usize = 0;
        while i < n
            invariant
                i <= n,
                self.wf(),
                is_player(p),
                n == self.size,
                forall|r: int, c: int|
                    0 <= r < i && 0 <= c < n ==> #[trigger] capture_count(
                        self.board(),
                        self.n(),
                        p,
                        r,
                        c,
                    ) == 0,
            decreases n - i,
        {
            let mut j: usize = 0;
            while j < n
                invariant
                    j <= n,
                    i < n,
                    self.wf(),
                    is_player(p),
                    n == self.size,
                    forall|r: int, c: int|
                        0 <= r < i && 0 <= c < n ==> #[trigger] capture_count(
                            self.board(),
                            self.n(),
                            p,
                            r,
                            c,
                        ) == 0,
                    forall|c: int|
                        0 <= c < j ==> #[trigger] capture_count(
                            self.board(),
                            self.n(),
                            p,
                            i as int,
                            c,
                        ) == 0,
                decreases n - j,
            {
                let k = self.count_at(p, i, j);
                if k > 0 {
                    return true;
                }
                j = j + 1;
            }
            i = i + 1;
        }
        false
    }
}

} // verus!
