use vstd::prelude::*;

verus! {

/// Visibility of one grid cell.
#[derive(Clone, Copy, PartialEq, Eq, Structural, Debug)]
pub enum CellState {
    Hidden,
    Revealed,
    Flagged,
}

/// One grid position: mine status, visibility state, and the precomputed
/// count of mine-bearing neighbors (meaningful only for mine-free cells).
#[derive(Clone, Copy, PartialEq, Eq, Structural, Debug)]
pub struct Cell {
    pub is_mine: bool,
    pub state: CellState,
    pub adjacent_mines: u8,
}

/// The state every cell starts in: hidden, mine-free, no adjacency count.
pub open spec fn default_cell() -> Cell {
    Cell { is_mine: false, state: CellState::Hidden, adjacent_mines: 0 }
}

impl Default for Cell {
    fn default() -> (c: Cell)
        ensures
            c == default_cell(),
    {
        Cell { is_mine: false, state: CellState::Hidden, adjacent_mines: 0 }
    }
}

/// Board dimensions and mine count, fixed for the lifetime of one game.
#[derive(Clone, Copy, PartialEq, Eq, Structural, Debug)]
pub struct GameConfig {
    pub width: usize,
    pub height: usize,
    pub mine_count: usize,
}

/// A configuration the game accepts: both sides at least 6, at least one
/// mine, and room for all mines outside a full 3x3 first-move exclusion
/// zone.  The product bound keeps flat grid indices within `usize`.
pub open spec fn valid_config(c: GameConfig) -> bool {
    &&& 6 <= c.width
    &&& 6 <= c.height
    &&& 1 <= c.mine_count
    &&& c.mine_count + 9 <= c.width * c.height
    &&& c.width * c.height <= usize::MAX
}

impl Default for GameConfig {
    fn default() -> (c: GameConfig)
        ensures
            c == (GameConfig { width: 10, height: 10, mine_count: 15 }),
            valid_config(c),
    {
        GameConfig { width: 10, height: 10, mine_count: 15 }
    }
}

/// Why an operation or a construction was refused.
#[derive(Clone, Copy, PartialEq, Eq, Structural, Debug)]
pub enum GameError {
    /// Width or height below the minimum, or a mine count outside the
    /// valid range for the grid size.
    InvalidConfiguration,
    /// Coordinates outside the grid; the operation was a no-op.
    OutOfBounds,
}

/// A read-only projection of one cell for a caller that renders the board.
/// Mine status is visible only for revealed cells.
#[derive(Clone, Copy, PartialEq, Eq, Structural, Debug)]
pub enum CellView {
    Hidden,
    Flagged,
    RevealedMine,
    RevealedSafe { adjacent_mines: u8 },
}

} // verus!
