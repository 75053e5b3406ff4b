//! Cell and game state types.

use vstd::prelude::*;

verus! {

/// State of a single cell.
#[derive(Debug, Copy, Clone, PartialEq, Eq, Structural)]
pub enum CellState {
    /// Revealed and not a mine.
    Open,
    /// Unrevealed; `mined` is hidden from the player, `flagged` toggles freely.
    Closed { flagged: bool, mined: bool },
    /// A revealed mine, reached only through a losing move.
    ExposedMine,
}

impl Default for CellState {
    /// A fresh cell is closed, unflagged and unmined.
    fn default() -> (s: Self)
        ensures
            s == (CellState::Closed { flagged: false, mined: false }),
    {
        CellState::Closed { flagged: false, mined: false }
    }
}

/// Board cell: its state together with the number of mined neighbours.
#[derive(Debug, Copy, Clone, PartialEq, Eq, Structural)]
pub struct Cell {
    pub state: CellState,
    pub adjacent_mines: u8,
}

impl Cell {
    /// The cell holds a mine, whether still hidden or already exposed.
    pub open spec fn is_mined(self) -> bool {
        ||| self.state matches CellState::Closed { mined: true, .. }
        ||| self.state is ExposedMine
    }

    /// The cell has been revealed as safe.
    pub open spec fn is_open(self) -> bool {
        self.state is Open
    }

    /// The cell is closed and carries a flag.
    pub open spec fn is_flagged(self) -> bool {
        self.state matches CellState::Closed { flagged: true, .. }
    }

    /// The cell may be opened: closed, unflagged and unmined.
    pub open spec fn is_openable(self) -> bool {
        self.state == (CellState::Closed { flagged: false, mined: false })
    }

    /// The cell is a still-hidden mine.
    pub open spec fn is_closed_and_mined(self) -> bool {
        self.state matches CellState::Closed { mined: true, .. }
    }

    /// The cell is a correctly flagged mine.
    pub open spec fn is_flagged_mine(self) -> bool {
        self.state == (CellState::Closed { flagged: true, mined: true })
    }
}

impl Cell {
    /// Whether the cell holds a mine, hidden or exposed.
    pub fn mined_cell(&self) -> (b: bool)
        ensures
            b == self.is_mined(),
    {
        match self.state {
            CellState::Closed { mined, .. } => mined,
            CellState::ExposedMine => true,
            CellState::Open => false,
        }
    }
}

impl Default for Cell {
    /// A fresh cell is closed, unflagged, unmined, with no mined neighbours.
    fn default() -> (c: Self)
        ensures
            c == (Cell { state: CellState::Closed { flagged: false, mined: false }, adjacent_mines: 0u8 }),
    {
        Cell { state: CellState::default(), adjacent_mines: 0 }
    }
}

/// State of the game.
#[derive(Debug, PartialEq, Eq, Copy, Clone, Structural)]
pub enum GameState {
    /// No mines placed yet; the first open places them.
    New,
    /// Mines placed, game in progress.
    Active,
    /// A hidden mine was opened. Terminal.
    Loss,
    /// Every safe cell opened, or every mine flagged. Terminal.
    Win,
}

} // verus!
