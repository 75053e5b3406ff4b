//! The game board: a row-major grid of cells with its counters and state.

use vstd::prelude::*;

verus! {

use crate::cell::{Cell, CellState, GameState};
use crate::counting::{count_cells, lemma_count_cells_zero};
use crate::pos::Pos;
use vstd::string::*;

/// Number of opened cells.
pub open spec fn count_open(s: Seq<Cell>) -> nat {
    count_cells(s, |c: Cell| c.is_open())
}

/// Number of flagged cells.
pub open spec fn count_flagged(s: Seq<Cell>) -> nat {
    count_cells(s, |c: Cell| c.is_flagged())
}

/// Number of mined cells, hidden or exposed.
pub open spec fn count_mined(s: Seq<Cell>) -> nat {
    count_cells(s, |c: Cell| c.is_mined())
}

/// Number of correctly flagged mines.
pub open spec fn count_flagged_mines(s: Seq<Cell>) -> nat {
    count_cells(s, |c: Cell| c.is_flagged_mine())
}

/// Number of cells that hold no mine.
pub open spec fn count_safe(s: Seq<Cell>) -> nat {
    count_cells(s, |c: Cell| !c.is_mined())
}

/// Every cell that is not a mine has been opened.
pub open spec fn all_safe_open(s: Seq<Cell>) -> bool {
    forall|i: int| 0 <= i < s.len() && !(#[trigger] s[i]).is_mined() ==> s[i].is_open()
}

/// There is at least one mine, and every mine is flagged.
pub open spec fn all_mines_flagged(s: Seq<Cell>) -> bool {
    &&& count_mined(s) > 0
    &&& forall|i: int| 0 <= i < s.len() && (#[trigger] s[i]).is_mined() ==> s[i].is_flagged_mine()
}

/// The board is won: every safe cell opened, or every mine flagged.
pub open spec fn win_condition(s: Seq<Cell>) -> bool {
    all_safe_open(s) || all_mines_flagged(s)
}

/// Contribution of grid square `(x, y)` to a neighbour's mine count: one if
/// it lies on the grid and holds a mine, zero otherwise.
pub open spec fn mined_neighbour(s: Seq<Cell>, columns: u8, rows: u8, x: int, y: int) -> nat {
    if 1 <= x <= columns && 1 <= y <= rows && s[(y - 1) * (columns as int) + (x - 1)].is_mined() {
        1nat
    } else {
        0nat
    }
}

/// Exact number of mined cells among the up-to-eight neighbours of `p`.
pub open spec fn adjacent_mine_count(s: Seq<Cell>, columns: u8, rows: u8, p: Pos) -> nat {
    let x = p.x as int;
    let y = p.y as int;
    mined_neighbour(s, columns, rows, x - 1, y - 1) + mined_neighbour(s, columns, rows, x, y - 1)
        + mined_neighbour(s, columns, rows, x + 1, y - 1) + mined_neighbour(
        s,
        columns,
        rows,
        x - 1,
        y,
    ) + mined_neighbour(s, columns, rows, x + 1, y) + mined_neighbour(
        s,
        columns,
        rows,
        x - 1,
        y + 1,
    ) + mined_neighbour(s, columns, rows, x, y + 1) + mined_neighbour(s, columns, rows, x + 1, y + 1)
}

/// Every adjacency count on the grid is exact: the cell at each position
/// records precisely the number of its mined neighbours.
pub open spec fn adjacent_counts_exact(s: Seq<Cell>, columns: u8, rows: u8) -> bool {
    forall|p: Pos|
        p.in_grid(columns, rows) ==> s[grid_index(columns, p.x as int, p.y as int)].adjacent_mines
            == #[trigger] adjacent_mine_count(s, columns, rows, p)
}

/// No cell is mined, opened or exposed: the grid of a board not yet in play.
pub open spec fn pristine_cells(s: Seq<Cell>) -> bool {
    forall|i: int|
        0 <= i < s.len() ==> !(#[trigger] s[i]).is_mined() && !s[i].is_open() && !(s[i].state
            is ExposedMine)
}

/// Every mined cell has been revealed: the grid of a lost board.
pub open spec fn mines_exposed(s: Seq<Cell>) -> bool {
    forall|i: int| 0 <= i < s.len() && (#[trigger] s[i]).is_mined() ==> s[i].state is ExposedMine
}

/// A fresh cell: closed, unflagged, unmined, no mined neighbours.
pub open spec fn fresh_cell() -> Cell {
    Cell { state: CellState::Closed { flagged: false, mined: false }, adjacent_mines: 0u8 }
}

/// Row-major grid index of `(x, y)` on a grid with `columns` columns.
pub open spec fn grid_index(columns: u8, x: int, y: int) -> int {
    (y - 1) * (columns as int) + (x - 1)
}

/// Position of a row-major grid index.
pub open spec fn pos_of_index(columns: u8, i: int) -> Pos {
    Pos { x: (i % (columns as int) + 1) as u8, y: (i / (columns as int) + 1) as u8 }
}

/// Grid indices of on-grid squares lie within the grid sequence.
pub proof fn lemma_grid_index_bounds(columns: u8, rows: u8, x: int, y: int)
    requires
        1 <= x <= columns,
        1 <= y <= rows,
    ensures
        0 <= grid_index(columns, x, y) < rows as int * columns as int,
        grid_index(columns, x, y) < 0x10000,
{
    assert(0 <= (y - 1) * (columns as int) + (x - 1) < rows as int * columns as int <= 0x10000)
        by (nonlinear_arith)
        requires
            1 <= x <= columns,
            1 <= y <= rows,
            columns <= 255,
            rows <= 255,
    ;
}

/// Distinct on-grid positions have distinct grid indices.
pub proof fn lemma_grid_index_injective(columns: u8, rows: u8, p: Pos, q: Pos)
    requires
        p.in_grid(columns, rows),
        q.in_grid(columns, rows),
        grid_index(columns, p.x as int, p.y as int) == grid_index(columns, q.x as int, q.y as int),
    ensures
        p == q,
{
    assert(p.x == q.x && p.y == q.y) by (nonlinear_arith)
        requires
            1 <= p.x <= columns,
            1 <= p.y <= rows,
            1 <= q.x <= columns,
            1 <= q.y <= rows,
            (p.y - 1) * (columns as int) + (p.x - 1) == (q.y - 1) * (columns as int) + (q.x - 1),
    ;
}

/// Every index below `rows × columns` is the grid index of exactly the
/// position `pos_of_index` names, and that position lies on the grid.
pub proof fn lemma_pos_of_index(columns: u8, rows: u8, i: int)
    requires
        columns >= 1,
        rows >= 1,
        0 <= i < rows as int * columns as int,
    ensures
        pos_of_index(columns, i).in_grid(columns, rows),
        grid_index(
            columns,
            pos_of_index(columns, i).x as int,
            pos_of_index(columns, i).y as int,
        ) == i,
{
    let c = columns as int;
    vstd::arithmetic::div_mod::lemma_fundamental_div_mod(i, c);
    vstd::arithmetic::div_mod::lemma_mod_bound(i, c);
    assert(0 <= i / c < rows) by (nonlinear_arith)
        requires
            c >= 1,
            0 <= i < rows as int * c,
            i == c * (i / c) + (i % c),
            0 <= i % c < c,
    ;
    assert(1 <= i % c + 1 <= columns && 1 <= i / c + 1 <= rows);
    let p = pos_of_index(columns, i);
    assert(p.x == i % c + 1 && p.y == i / c + 1);
    assert((i / c) * c + i % c == i) by (nonlinear_arith)
        requires
            c >= 1,
            i == c * (i / c) + (i % c),
    ;
}

/// Game board.
#[derive(Debug)]
pub struct Board {
    /// One cell per grid square, row-major: index `(y-1)*columns + (x-1)`.
    pub cells: Vec<Cell>,
    pub columns: u8,
    pub rows: u8,
    pub state: GameState,
    /// Number of cells with state `Open`.
    pub opened: usize,
    /// Number of flagged cells.
    pub flagged: usize,
    /// Total number of mines; zero until mines are placed, fixed afterwards.
    pub mined: usize,
}

impl Board {
    /// Number of grid squares.
    pub open spec fn total_cells(self) -> int {
        self.rows as int * self.columns as int
    }

    /// The position lies on this board.
    pub open spec fn spec_in_grid(self, p: Pos) -> bool {
        p.in_grid(self.columns, self.rows)
    }

    /// Row-major index of a position.
    pub open spec fn spec_idx(self, p: Pos) -> int {
        grid_index(self.columns, p.x as int, p.y as int)
    }

    /// The cell at a position.
    pub open spec fn spec_cell(self, p: Pos) -> Cell {
        self.cells@[self.spec_idx(p)]
    }

    /// Well-formed board: dimensions positive, one cell per grid square,
    /// counters exact, every adjacency count exact, a new board unmined and
    /// unopened, and a lost board with every mine exposed.
    pub open spec fn wf(self) -> bool {
        &&& self.columns >= 1
        &&& self.rows >= 1
        &&& self.cells@.len() == self.total_cells()
        &&& self.opened == count_open(self.cells@)
        &&& self.flagged == count_flagged(self.cells@)
        &&& self.mined == count_mined(self.cells@)
        &&& adjacent_counts_exact(self.cells@, self.columns, self.rows)
        &&& self.state is New ==> self.mined == 0 && self.opened == 0 && pristine_cells(
            self.cells@,
        )
        &&& self.state is Loss ==> mines_exposed(self.cells@)
    }

    /// Create a new board with the given columns and rows: every cell fresh,
    /// no mines placed, all counters zero.
    pub fn new(columns: u8, rows: u8) -> (b: Board)
        requires
            columns >= 1,
            rows >= 1,
        ensures
            b.wf(),
            b.columns == columns,
            b.rows == rows,
            b.state is New,
            b.opened == 0,
            b.flagged == 0,
            b.mined == 0,
            b.cells@.len() == rows as int * columns as int,
            forall|i: int| 0 <= i < b.cells@.len() ==> #[trigger] b.cells@[i] == fresh_cell(),
    {
        broadcast use lemma_count_cells_zero;

        proof {
            assert(rows as int * columns as int <= 0x10000) by (nonlinear_arith)
                requires
                    rows <= 255,
                    columns <= 255,
            ;
        }
        let total = rows as usize * columns as usize;
        let cells: Vec<Cell> = vec![Cell::default(); total];
        let b = Board {
            cells,
            columns,
            rows,
            state: GameState::New,
            opened: 0,
            flagged: 0,
            mined: 0,
        };
        proof {
            assert(forall|i: int| 0 <= i < b.cells@.len() ==> #[trigger] b.cells@[i] == fresh_cell());
            lemma_adjacent_counts_no_mines(b.cells@, columns, rows);
            assert forall|p: Pos|
                p.in_grid(columns, rows) implies b.cells@[grid_index(
                columns,
                p.x as int,
                p.y as int,
            )].adjacent_mines == #[trigger] adjacent_mine_count(b.cells@, columns, rows, p) by {
                lemma_grid_index_bounds(columns, rows, p.x as int, p.y as int);
            }
        }
        b
    }

    /// Get the state of the board.
    pub fn state(&self) -> (s: GameState)
        ensures
            s == self.state,
    {
        self.state
    }

    /// Get the number of board cells.
    pub fn board_size(&self) -> (n: usize)
        requires
            self.wf(),
        ensures
            n == self.total_cells(),
    {
        self.cells.len()
    }

    pub fn total_rows(&self) -> (r: u8)
        ensures
            r == self.rows,
    {
        self.rows
    }

    pub fn total_columns(&self) -> (c: u8)
        ensures
            c == self.columns,
    {
        self.columns
    }

    /// Number of cells opened so far.
    pub fn opened(&self) -> (n: usize)
        requires
            self.wf(),
        ensures
            n == count_open(self.cells@),
    {
        self.opened
    }

    /// Number of cells currently flagged.
    pub fn flagged(&self) -> (n: usize)
        requires
            self.wf(),
        ensures
            n == count_flagged(self.cells@),
    {
        self.flagged
    }

    /// Total number of mines on the board.
    pub fn mined(&self) -> (n: usize)
        requires
            self.wf(),
        ensures
            n == count_mined(self.cells@),
    {
        self.mined
    }

    /// Row-major index of an on-grid position.
    pub(crate) fn index_of(&self, p: Pos) -> (i: usize)
        requires
            self.cells@.len() == self.total_cells(),
            self.spec_in_grid(p),
        ensures
            i == self.spec_idx(p),
            i < self.cells@.len(),
    {
        proof {
            lemma_grid_index_bounds(self.columns, self.rows, p.x as int, p.y as int);
        }
        (p.y as usize - 1) * (self.columns as usize) + (p.x as usize - 1)
    }

    /// Look up the cell at a position; `None` off the grid.
    pub fn get_pos(&self, pos: &Pos) -> (r: Option<Cell>)
        requires
            self.wf(),
        ensures
            self.spec_in_grid(*pos) ==> r == Some(self.spec_cell(*pos)),
            !self.spec_in_grid(*pos) ==> r is None,
    {
        if 1 <= pos.x && pos.x <= self.columns && 1 <= pos.y && pos.y <= self.rows {
            let i = self.index_of(*pos);
            Some(self.cells[i])
        } else {
            None
        }
    }

    /// All positions with their cells, in row-major order: one entry per
    /// grid square, pairwise distinct positions.
    pub fn positions(&self) -> (r: Vec<(Pos, Cell)>)
        requires
            self.wf(),
        ensures
            r@.len() == self.total_cells(),
            forall|i: int|
                0 <= i < r@.len() ==> #[trigger] r@[i] == (
                    pos_of_index(self.columns, i),
                    self.cells@[i],
                ),
            forall|i: int|
                0 <= i < r@.len() ==> (#[trigger] r@[i]).0.in_grid(self.columns, self.rows)
                    && self.spec_idx(r@[i].0) == i,
            forall|i: int, j: int|
                0 <= i < r@.len() && 0 <= j < r@.len() && i != j ==> (#[trigger] r@[i]).0 != (
                #[trigger] r@[j]).0,
    {
        let mut r: Vec<(Pos, Cell)> = Vec::new();
        let total = self.cells.len();
        let cols = self.columns as usize;
        let mut i: usize = 0;
        while i < total
            invariant
                self.wf(),
                cols == self.columns,
                total == self.cells@.len(),
                i <= total,
                r@.len() == i,
                forall|k: int|
                    0 <= k < i ==> #[trigger] r@[k] == (
                        pos_of_index(self.columns, k),
                        self.cells@[k],
                    ),
                forall|k: int|
                    0 <= k < i ==> (#[trigger] r@[k]).0.in_grid(self.columns, self.rows)
                        && self.spec_idx(r@[k].0) == k,
            decreases total - i,
        {
            proof {
                lemma_pos_of_index(self.columns, self.rows, i as int);
            }
            let x = (i % cols) + 1;
            let y = (i / cols) + 1;
            let p = Pos { x: x as u8, y: y as u8 };
            r.push((p, self.cells[i]));
            i += 1;
        }
        proof {
            assert forall|a: int, b: int|
                0 <= a < r@.len() && 0 <= b < r@.len() && a != b implies (#[trigger] r@[a]).0 != (
            #[trigger] r@[b]).0 by {
                if r@[a].0 == r@[b].0 {
                    assert(self.spec_idx(r@[a].0) == a && self.spec_idx(r@[b].0) == b);
                }
            }
        }
        r
    }

    /// The board as text, one character per cell in row-major order with a
    /// newline after each row: the adjacency count or a space for open
    /// cells, `F` for flagged, `.` for closed, `X` for an exposed mine.
    pub fn render(&self) -> (s: String)
        requires
            self.wf(),
        ensures
            s@ == grid_chars(self.cells@, self.columns as int, self.cells@.len() as int),
    {
        let mut s = String::new();
        let total = self.cells.len();
        let cols = self.columns as usize;
        let mut i: usize = 0;
        while i < total
            invariant
                self.wf(),
                total == self.cells@.len(),
                cols == self.columns,
                i <= total,
                s@ == grid_chars(self.cells@, self.columns as int, i as int),
            decreases total - i,
        {
            let c = self.cells[i];
            proof {
                lemma_pos_of_index(self.columns, self.rows, i as int);
                let p = pos_of_index(self.columns, i as int);
                assert(self.cells@[grid_index(self.columns, p.x as int, p.y as int)].adjacent_mines
                    == adjacent_mine_count(self.cells@, self.columns, self.rows, p));
                assert(c.adjacent_mines <= 8);
            }
            let t = cell_string(&c);
            s.append(t.as_str());
            if (i + 1) % cols == 0 {
                s.append("\n");
            }
            i += 1;
            proof {
                reveal_strlit("\n");
                assert(s@ =~= grid_chars(self.cells@, self.columns as int, i as int));
            }
        }
        s
    }

    /// Count the mined cells on the board, exposed mines included.
    pub fn total_mines(&self) -> (n: usize)
        requires
            self.wf(),
        ensures
            n == count_mined(self.cells@),
    {
        let mut n: usize = 0;
        let mut i: usize = 0;
        let total = self.cells.len();
        while i < total
            invariant
                self.wf(),
                total == self.cells@.len(),
                i <= total,
                n == count_mined(self.cells@.take(i as int)),
                n <= i,
            decreases total - i,
        {
            let c = self.cells[i];
            proof {
                assert(self.cells@.take(i as int + 1).drop_last() =~= self.cells@.take(i as int));
                assert(self.cells@.take(i as int + 1).last() == self.cells@[i as int]);
            }
            if c.mined_cell() {
                n += 1;
            }
            i += 1;
        }
        proof {
            assert(self.cells@.take(total as int) =~= self.cells@);
        }
        n
    }
}

/// The one-character rendering of a cell: its adjacency count when open,
/// a space for an open cell clear of mines, `F` when flagged, `.` when
/// closed, `X` for an exposed mine.
pub open spec fn cell_char(c: Cell) -> char {
    match c.state {
        CellState::Open => if c.adjacent_mines == 0 {
            ' '
        } else {
            crate::text::digit_char(c.adjacent_mines as int)
        },
        CellState::Closed { flagged, .. } => if flagged {
            'F'
        } else {
            '.'
        },
        CellState::ExposedMine => 'X',
    }
}

/// The first `i` cells of the grid as text: one character per cell, a
/// newline after each full row.
pub open spec fn grid_chars(s: Seq<Cell>, columns: int, i: int) -> Seq<char>
    decreases i,
{
    if i <= 0 {
        Seq::empty()
    } else {
        grid_chars(s, columns, i - 1) + seq![cell_char(s[i - 1])] + (if i % columns == 0 {
            seq!['\n']
        } else {
            Seq::<char>::empty()
        })
    }
}

/// Replacing the cell at `p` changes the adjacency count of each of `p`'s
/// neighbours by the change in `p`'s own mined-ness, and no other adjacency
/// count.
pub proof fn lemma_adjacent_counts_update(s: Seq<Cell>, columns: u8, rows: u8, p: Pos, c: Cell)
    requires
        columns >= 1,
        rows >= 1,
        s.len() == rows as int * columns as int,
        p.in_grid(columns, rows),
    ensures
        forall|q: Pos|
            q.in_grid(columns, rows) ==> #[trigger] adjacent_mine_count(
                s.update(grid_index(columns, p.x as int, p.y as int), c),
                columns,
                rows,
                q,
            ) == adjacent_mine_count(s, columns, rows, q) + (if crate::pos::is_adjacent(p, q) {
                (if c.is_mined() {
                    1int
                } else {
                    0int
                }) - (if s[grid_index(columns, p.x as int, p.y as int)].is_mined() {
                    1int
                } else {
                    0int
                })
            } else {
                0int
            }),
{
    let s2 = s.update(grid_index(columns, p.x as int, p.y as int), c);
    assert forall|q: Pos| q.in_grid(columns, rows) implies #[trigger] adjacent_mine_count(
        s2,
        columns,
        rows,
        q,
    ) == adjacent_mine_count(s, columns, rows, q) + (if crate::pos::is_adjacent(p, q) {
        (if c.is_mined() {
            1int
        } else {
            0int
        }) - (if s[grid_index(columns, p.x as int, p.y as int)].is_mined() {
            1int
        } else {
            0int
        })
    } else {
        0int
    }) by {
        lemma_mined_neighbour_update(s, columns, rows, p, c, q.x - 1, q.y - 1);
        lemma_mined_neighbour_update(s, columns, rows, p, c, q.x as int, q.y - 1);
        lemma_mined_neighbour_update(s, columns, rows, p, c, q.x + 1, q.y - 1);
        lemma_mined_neighbour_update(s, columns, rows, p, c, q.x - 1, q.y as int);
        lemma_mined_neighbour_update(s, columns, rows, p, c, q.x + 1, q.y as int);
        lemma_mined_neighbour_update(s, columns, rows, p, c, q.x - 1, q.y + 1);
        lemma_mined_neighbour_update(s, columns, rows, p, c, q.x as int, q.y + 1);
        lemma_mined_neighbour_update(s, columns, rows, p, c, q.x + 1, q.y + 1);
    }
}

proof fn lemma_mined_neighbour_update(s: Seq<Cell>, columns: u8, rows: u8, p: Pos, c: Cell, x: int, y: int)
    requires
        columns >= 1,
        rows >= 1,
        s.len() == rows as int * columns as int,
        p.in_grid(columns, rows),
    ensures
        mined_neighbour(
            s.update(grid_index(columns, p.x as int, p.y as int), c),
            columns,
            rows,
            x,
            y,
        ) == if x == p.x && y == p.y {
            (if c.is_mined() {
                1nat
            } else {
                0nat
            })
        } else {
            mined_neighbour(s, columns, rows, x, y)
        },
{
    let pi = grid_index(columns, p.x as int, p.y as int);
    lemma_grid_index_bounds(columns, rows, p.x as int, p.y as int);
    if 1 <= x <= columns && 1 <= y <= rows {
        lemma_grid_index_bounds(columns, rows, x, y);
        if !(x == p.x && y == p.y) {
            if grid_index(columns, x, y) == pi {
                lemma_grid_index_injective(columns, rows, Pos { x: x as u8, y: y as u8 }, p);
            }
            assert(s.update(pi, c)[grid_index(columns, x, y)] == s[grid_index(columns, x, y)]);
        }
    }
}

/// The one-character string a cell renders to.
fn cell_string(c: &Cell) -> (s: String)
    requires
        c.adjacent_mines <= 8,
    ensures
        s@ == seq![cell_char(*c)],
{
    let s = match c.state {
        CellState::Open => {
            if c.adjacent_mines == 0 {
                let sp = " ".to_owned();
                proof {
                    reveal_strlit(" ");
                    assert(sp@ =~= seq![cell_char(*c)]);
                }
                sp
            } else {
                crate::text::digit_string(c.adjacent_mines as u64)
            }
        },
        CellState::Closed { flagged: true, .. } => {
            let f = "F".to_owned();
            proof {
                reveal_strlit("F");
                assert(f@ =~= seq![cell_char(*c)]);
            }
            f
        },
        CellState::Closed { flagged: false, .. } => {
            let d = ".".to_owned();
            proof {
                reveal_strlit(".");
                assert(d@ =~= seq![cell_char(*c)]);
            }
            d
        },
        CellState::ExposedMine => {
            let x = "X".to_owned();
            proof {
                reveal_strlit("X");
                assert(x@ =~= seq![cell_char(*c)]);
            }
            x
        },
    };
    s
}

/// On a grid without mines every adjacency count is zero.
pub proof fn lemma_adjacent_counts_no_mines(s: Seq<Cell>, columns: u8, rows: u8)
    requires
        columns >= 1,
        rows >= 1,
        s.len() == rows as int * columns as int,
        forall|i: int| 0 <= i < s.len() ==> !(#[trigger] s[i]).is_mined(),
    ensures
        forall|p: Pos| #[trigger] adjacent_mine_count(s, columns, rows, p) == 0,
{
    assert forall|p: Pos| #[trigger] adjacent_mine_count(s, columns, rows, p) == 0 by {
        lemma_mined_neighbour_no_mine(s, columns, rows, p.x - 1, p.y - 1);
        lemma_mined_neighbour_no_mine(s, columns, rows, p.x as int, p.y - 1);
        lemma_mined_neighbour_no_mine(s, columns, rows, p.x + 1, p.y - 1);
        lemma_mined_neighbour_no_mine(s, columns, rows, p.x - 1, p.y as int);
        lemma_mined_neighbour_no_mine(s, columns, rows, p.x + 1, p.y as int);
        lemma_mined_neighbour_no_mine(s, columns, rows, p.x - 1, p.y + 1);
        lemma_mined_neighbour_no_mine(s, columns, rows, p.x as int, p.y + 1);
        lemma_mined_neighbour_no_mine(s, columns, rows, p.x + 1, p.y + 1);
    }
}

proof fn lemma_mined_neighbour_no_mine(s: Seq<Cell>, columns: u8, rows: u8, x: int, y: int)
    requires
        columns >= 1,
        rows >= 1,
        s.len() == rows as int * columns as int,
        forall|i: int| 0 <= i < s.len() ==> !(#[trigger] s[i]).is_mined(),
    ensures
        mined_neighbour(s, columns, rows, x, y) == 0,
{
    if 1 <= x <= columns && 1 <= y <= rows {
        lemma_grid_index_bounds(columns, rows, x, y);
    }
}

} // verus!
