use vstd::prelude::*;

use crate::cell::Cell;
use crate::cell::CellState;
use crate::cell::CellView;
use crate::cell::GameConfig;
use crate::cell::GameError;
use crate::cell::default_cell;
use crate::cell::valid_config;
use crate::model::adjacent_mine_count;
use crate::model::all_clear;
use crate::model::all_mines_flagged;
use crate::model::cell;
use crate::model::count_mines;
use crate::model::win_condition;
use crate::model::flagged_neighbor_count;
use crate::model::unrevealed_neighbor_count;
use crate::model::zero_cell;
use crate::model::no_hidden_safe_neighbor;
use crate::model::flood_reachable;
use crate::model::is_neighbor;
use crate::model::contains_pos;
use crate::model::lemma_flood_reachable_self;
use crate::model::lemma_flood_reachable_step;
use crate::model::lemma_flood_reachable_widen;
use crate::model::base_grid;
use crate::model::count_hidden;
use crate::model::lemma_count_hidden_update;
use crate::model::lemma_count_hidden_bounds;
use crate::model::flat;
use crate::model::in_grid;
use crate::model::near;
use crate::model::lemma_flat_bounds;
use crate::model::lemma_flat_injective;
use crate::model::lemma_adjacent_count_congruent;
use crate::model::all_on_grid;
use crate::model::distinct_cells;
use crate::model::placed_in;
use crate::model::lemma_count_mines_none;
use crate::model::lemma_count_mines_update;
use crate::model::lemma_count_mines_congruent;
use crate::rng::sample_indices;

verus! {

/// The mathematical content of a game: the grid as a sequence of cells in
/// row-major order, the configuration, and the game-level flags.
pub struct GameView {
    pub cells: Seq<Cell>,
    pub config: GameConfig,
    pub over: bool,
    pub won: bool,
    pub pending: bool,
}

/// Every mine-free cell carries its exact adjacent-mine count; mine cells
/// keep the count at 0, unused.
pub open spec fn adj_ok_at(g: Seq<Cell>, w: int, h: int, x: int, y: int) -> bool {
    if cell(g, w, x, y).is_mine {
        cell(g, w, x, y).adjacent_mines == 0
    } else {
        cell(g, w, x, y).adjacent_mines == adjacent_mine_count(g, w, h, x, y)
    }
}

pub open spec fn adjacency_ok(g: Seq<Cell>, w: int, h: int) -> bool {
    forall|x: int, y: int| in_grid(w, h, x, y) ==> #[trigger] adj_ok_at(g, w, h, x, y)
}

impl GameView {
    pub open spec fn w(self) -> int {
        self.config.width as int
    }

    pub open spec fn h(self) -> int {
        self.config.height as int
    }

    /// The grid has exactly one cell per position of a valid configuration.
    pub open spec fn sized(self) -> bool {
        valid_config(self.config) && self.cells.len() == self.w() * self.h()
    }

    /// The invariant every public operation preserves: a valid
    /// configuration, a full grid, at most one terminal flag, an untouched
    /// all-default grid while the first move is pending, and afterwards
    /// exactly `mine_count` mines with correct adjacency counts everywhere.
    pub open spec fn wf(self) -> bool {
        &&& valid_config(self.config)
        &&& self.cells.len() == self.w() * self.h()
        &&& !(self.over && self.won)
        &&& (self.pending ==> !self.over && !self.won && (forall|i: int|
            0 <= i < self.cells.len() ==> (#[trigger] self.cells[i]) == default_cell()))
        &&& (!self.pending ==> count_mines(self.cells) == self.config.mine_count
            && adjacency_ok(self.cells, self.w(), self.h()))
    }
}

/// Mine layout and adjacency counts agree between two views.
pub open spec fn layout_unchanged(a: GameView, b: GameView) -> bool {
    &&& b.cells.len() == a.cells.len()
    &&& forall|i: int|
        0 <= i < a.cells.len() ==> (#[trigger] b.cells[i]).is_mine == a.cells[i].is_mine
            && b.cells[i].adjacent_mines == a.cells[i].adjacent_mines
}

/// Visibility states agree between two views.
pub open spec fn states_unchanged(a: GameView, b: GameView) -> bool {
    &&& b.cells.len() == a.cells.len()
    &&& forall|i: int| 0 <= i < a.cells.len() ==> (#[trigger] b.cells[i]).state == a.cells[i].state
}

/// What holds of every outcome of mine placement triggered by a first move
/// at (sx, sy): the flags and visibility states are untouched, exactly
/// `mine_count` mines lie on the board, none of them inside the 3x3
/// exclusion zone around the first move, and every cell carries its exact
/// adjacency count.
pub open spec fn placement_ok(a: GameView, b: GameView, sx: int, sy: int) -> bool {
    &&& b.config == a.config
    &&& b.over == a.over
    &&& b.won == a.won
    &&& !b.pending
    &&& b.cells.len() == a.cells.len()
    &&& states_unchanged(a, b)
    &&& count_mines(b.cells) == b.config.mine_count
    &&& forall|x: int, y: int|
        in_grid(b.w(), b.h(), x, y) && #[trigger] near(sx, sy, x, y) ==> !cell(
            b.cells,
            b.w(),
            x,
            y,
        ).is_mine
    &&& adjacency_ok(b.cells, b.w(), b.h())
}

/// The projection of one cell that `cell_view` hands to a renderer.
pub open spec fn view_of(c: Cell) -> CellView {
    match c.state {
        CellState::Hidden => CellView::Hidden,
        CellState::Flagged => CellView::Flagged,
        CellState::Revealed => if c.is_mine {
            CellView::RevealedMine
        } else {
            CellView::RevealedSafe { adjacent_mines: c.adjacent_mines }
        },
    }
}

/// The game state machine: the grid, the configuration it was built from,
/// and the game-level flags.  Mines are placed lazily on the first move.
pub struct Minesweeper {
    grid: Vec<Cell>,
    config: GameConfig,
    game_over: bool,
    game_won: bool,
    first_click: bool,
}

impl View for Minesweeper {
    type V = GameView;

    closed spec fn view(&self) -> GameView {
        GameView {
            cells: self.grid@,
            config: self.config,
            over: self.game_over,
            won: self.game_won,
            pending: self.first_click,
        }
    }
}

impl Minesweeper {
    /// A fresh hidden grid for an already validated configuration.
    pub fn new(config: GameConfig) -> (g: Minesweeper)
        requires
            valid_config(config),
        ensures
            g@.wf(),
            g@.config == config,
            g@.pending,
            !g@.over,
            !g@.won,
    {
        let grid = fresh_grid(config);
        Minesweeper { grid, config, game_over: false, game_won: false, first_click: true }
    }

    /// Validates a configuration and builds the game, as the construction
    /// interface for callers that have not checked the bounds themselves.
    pub fn create(width: usize, height: usize, mine_count: usize) -> (r: Result<
        Minesweeper,
        GameError,
    >)
        ensures
            valid_config(GameConfig { width, height, mine_count }) <==> r is Ok,
            r matches Ok(g) ==> g@.wf() && g@.config == (GameConfig { width, height, mine_count })
                && g@.pending && !g@.over && !g@.won,
            r matches Err(e) ==> e == GameError::InvalidConfiguration,
    {
        let config = GameConfig { width, height, mine_count };
        if width < 6 || height < 6 || mine_count < 1 {
            return Err(GameError::InvalidConfiguration);
        }
        let limit = usize::MAX / width;
        proof {
            vstd::arithmetic::div_mod::lemma_fundamental_div_mod(usize::MAX as int, width as int);
        }
        let ghost q = usize::MAX as int / width as int;
        let ghost r = usize::MAX as int % width as int;
        if height > limit {
            assert(width * height > usize::MAX) by (nonlinear_arith)
                requires
                    usize::MAX == width * q + r,
                    0 <= r < width,
                    height >= q + 1,
                    width >= 6,
            ;
            return Err(GameError::InvalidConfiguration);
        }
        assert(width * height <= usize::MAX) by (nonlinear_arith)
            requires
                usize::MAX == width * q + r,
                0 <= r < width,
                height <= q,
                width >= 6,
        ;
        let total = width * height;
        assert(total >= 36) by (nonlinear_arith)
            requires
                width >= 6,
                height >= 6,
                total == width * height,
        ;
        if mine_count > total - 9 {
            return Err(GameError::InvalidConfiguration);
        }
        Ok(Self::new(config))
    }

    /// Rebuilds the grid from the stored configuration: a whole new game
    /// with a mine layout to be redrawn on the next first move.
    pub fn reset(&mut self)
        requires
            old(self)@.wf(),
        ensures
            final(self)@.wf(),
            final(self)@.config == old(self)@.config,
            final(self)@.pending,
            !final(self)@.over,
            !final(self)@.won,
    {
        self.grid = fresh_grid(self.config);
        self.game_over = false;
        self.game_won = false;
        self.first_click = true;
    }

    pub fn is_over(&self) -> (r: bool)
        ensures
            r == self@.over,
    {
        self.game_over
    }

    pub fn is_won(&self) -> (r: bool)
        ensures
            r == self@.won,
    {
        self.game_won
    }

    pub fn dimensions(&self) -> (r: (usize, usize))
        ensures
            r.0 == self@.config.width,
            r.1 == self@.config.height,
    {
        (self.config.width, self.config.height)
    }

    /// The read-only projection of one cell.  A hidden or flagged cell
    /// never tells whether it hides a mine.
    pub fn cell_view(&self, x: usize, y: usize) -> (r: Result<CellView, GameError>)
        requires
            self@.sized(),
        ensures
            !in_grid(self@.w(), self@.h(), x as int, y as int) ==> r == Err::<CellView, GameError>(
                GameError::OutOfBounds,
            ),
            in_grid(self@.w(), self@.h(), x as int, y as int) ==> r == Ok::<CellView, GameError>(
                view_of(cell(self@.cells, self@.w(), x as int, y as int)),
            ),
    {
        if x >= self.config.width || y >= self.config.height {
            return Err(GameError::OutOfBounds);
        }
        let c = self.grid[self.idx(x, y)];
        match c.state {
            CellState::Hidden => Ok(CellView::Hidden),
            CellState::Flagged => Ok(CellView::Flagged),
            CellState::Revealed => if c.is_mine {
                Ok(CellView::RevealedMine)
            } else {
                Ok(CellView::RevealedSafe { adjacent_mines: c.adjacent_mines })
            },
        }
    }

    /// Flat row-major index of (x, y).
    fn idx(&self, x: usize, y: usize) -> (i: usize)
        requires
            self@.sized(),
            in_grid(self@.w(), self@.h(), x as int, y as int),
        ensures
            i == flat(self@.w(), x as int, y as int),
            i < self@.cells.len(),
    {
        proof {
            lemma_flat_bounds(self@.w(), self@.h(), x as int, y as int);
        }
        y * self.config.width + x
    }

    /// Whether the cell at (x, y) holds a mine.
    fn is_mine_at(&self, x: usize, y: usize) -> (r: bool)
        requires
            self@.sized(),
            in_grid(self@.w(), self@.h(), x as int, y as int),
        ensures
            r == cell(self@.cells, self@.w(), x as int, y as int).is_mine,
    {
        self.grid[self.idx(x, y)].is_mine
    }

    /// Whether the cell at (x, y) is flagged.
    fn is_flagged_at(&self, x: usize, y: usize) -> (r: bool)
        requires
            self@.sized(),
            in_grid(self@.w(), self@.h(), x as int, y as int),
        ensures
            r == (cell(self@.cells, self@.w(), x as int, y as int).state == CellState::Flagged),
    {
        matches!(self.grid[self.idx(x, y)].state, CellState::Flagged)
    }

    /// Whether the cell at (x, y) is not revealed (hidden or flagged).
    fn is_unrevealed_at(&self, x: usize, y: usize) -> (r: bool)
        requires
            self@.sized(),
            in_grid(self@.w(), self@.h(), x as int, y as int),
        ensures
            r == (cell(self@.cells, self@.w(), x as int, y as int).state != CellState::Revealed),
    {
        !matches!(self.grid[self.idx(x, y)].state, CellState::Revealed)
    }

    /// Exact count of flagged neighbors of (x, y).
    fn count_flagged_neighbors(&self, x: usize, y: usize) -> (c: u8)
        requires
            self@.sized(),
            in_grid(self@.w(), self@.h(), x as int, y as int),
        ensures
            c as int == flagged_neighbor_count(
                self@.cells,
                self@.w(),
                self@.h(),
                x as int,
                y as int,
            ),
    {
        let w = self.config.width;
        let h = self.config.height;
        let mut c: u8 = 0;
        if x > 0 && y > 0 && self.is_flagged_at(x - 1, y - 1) {
            c = c + 1;
        }
        if y > 0 && self.is_flagged_at(x, y - 1) {
            c = c + 1;
        }
        if x + 1 < w && y > 0 && self.is_flagged_at(x + 1, y - 1) {
            c = c + 1;
        }
        if x > 0 && self.is_flagged_at(x - 1, y) {
            c = c + 1;
        }
        if x + 1 < w && self.is_flagged_at(x + 1, y) {
            c = c + 1;
        }
        if x > 0 && y + 1 < h && self.is_flagged_at(x - 1, y + 1) {
            c = c + 1;
        }
        if y + 1 < h && self.is_flagged_at(x, y + 1) {
            c = c + 1;
        }
        if x + 1 < w && y + 1 < h && self.is_flagged_at(x + 1, y + 1) {
            c = c + 1;
        }
        c
    }

    /// Exact count of neighbors of (x, y) that are not revealed.
    fn count_unrevealed_neighbors(&self, x: usize, y: usize) -> (c: u8)
        requires
            self@.sized(),
            in_grid(self@.w(), self@.h(), x as int, y as int),
        ensures
            c as int == unrevealed_neighbor_count(
                self@.cells,
                self@.w(),
                self@.h(),
                x as int,
                y as int,
            ),
    {
        let w = self.config.width;
        let h = self.config.height;
        let mut c: u8 = 0;
        if x > 0 && y > 0 && self.is_unrevealed_at(x - 1, y - 1) {
            c = c + 1;
        }
        if y > 0 && self.is_unrevealed_at(x, y - 1) {
            c = c + 1;
        }
        if x + 1 < w && y > 0 && self.is_unrevealed_at(x + 1, y - 1) {
            c = c + 1;
        }
        if x > 0 && self.is_unrevealed_at(x - 1, y) {
            c = c + 1;
        }
        if x + 1 < w && self.is_unrevealed_at(x + 1, y) {
            c = c + 1;
        }
        if x > 0 && y + 1 < h && self.is_unrevealed_at(x - 1, y + 1) {
            c = c + 1;
        }
        if y + 1 < h && self.is_unrevealed_at(x, y + 1) {
            c = c + 1;
        }
        if x + 1 < w && y + 1 < h && self.is_unrevealed_at(x + 1, y + 1) {
            c = c + 1;
        }
        c
    }

    /// Exact count of mine-bearing neighbors of (x, y).
    pub fn count_adjacent_mines(&self, x: usize, y: usize) -> (c: u8)
        requires
            self@.sized(),
            in_grid(self@.w(), self@.h(), x as int, y as int),
        ensures
            c as int == adjacent_mine_count(self@.cells, self@.w(), self@.h(), x as int, y as int),
    {
        let w = self.config.width;
        let h = self.config.height;
        let mut c: u8 = 0;
        if x > 0 && y > 0 && self.is_mine_at(x - 1, y - 1) {
            c = c + 1;
        }
        if y > 0 && self.is_mine_at(x, y - 1) {
            c = c + 1;
        }
        if x + 1 < w && y > 0 && self.is_mine_at(x + 1, y - 1) {
            c = c + 1;
        }
        if x > 0 && self.is_mine_at(x - 1, y) {
            c = c + 1;
        }
        if x + 1 < w && self.is_mine_at(x + 1, y) {
            c = c + 1;
        }
        if x > 0 && y + 1 < h && self.is_mine_at(x - 1, y + 1) {
            c = c + 1;
        }
        if y + 1 < h && self.is_mine_at(x, y + 1) {
            c = c + 1;
        }
        if x + 1 < w && y + 1 < h && self.is_mine_at(x + 1, y + 1) {
            c = c + 1;
        }
        c
    }
}

impl Minesweeper {
    /// Evaluates the two winning conditions — every mine-free cell
    /// revealed, or every mine and nothing else flagged — and, on a win,
    /// flags every mine.  Skipped while the first move is pending and in a
    /// terminal state.
    pub fn check_win_condition(&mut self)
        requires
            old(self)@.wf(),
        ensures
            final(self)@.wf(),
            final(self)@.config == old(self)@.config,
            final(self)@.over == old(self)@.over,
            final(self)@.pending == old(self)@.pending,
            old(self)@.pending || old(self)@.over || old(self)@.won ==> final(self)@ == old(self)@,
            !old(self)@.pending && !old(self)@.over && !old(self)@.won ==> {
                &&& final(self)@.won == win_condition(old(self)@.cells)
                &&& final(self)@.won == win_condition(final(self)@.cells)
                &&& layout_unchanged(old(self)@, final(self)@)
                &&& if win_condition(old(self)@.cells) {
                    forall|i: int|
                        0 <= i < old(self)@.cells.len() ==> (#[trigger] final(self)@.cells[i]).state
                            == (if old(self)@.cells[i].is_mine {
                            CellState::Flagged
                        } else {
                            old(self)@.cells[i].state
                        })
                } else {
                    final(self)@ == old(self)@
                }
            },
    {
        if self.first_click || self.game_over || self.game_won {
            return ;
        }
        let ghost g0 = self@.cells;
        let n = self.grid.len();
        let mut clear = true;
        let mut flagged = true;
        let mut i: usize = 0;
        while i < n
            invariant
                i <= n,
                n == self@.cells.len(),
                self@ == old(self)@,
                clear <==> (forall|j: int|
                    0 <= j < i && !(#[trigger] self@.cells[j]).is_mine ==> self@.cells[j].state
                        == CellState::Revealed),
                flagged <==> (forall|j: int|
                    0 <= j < i ==> ((#[trigger] self@.cells[j]).is_mine <==> self@.cells[j].state
                        == CellState::Flagged)),
            decreases n - i,
        {
            let c = self.grid[i];
            if !c.is_mine && !matches!(c.state, CellState::Revealed) {
                clear = false;
            }
            if c.is_mine != matches!(c.state, CellState::Flagged) {
                flagged = false;
            }
            i = i + 1;
        }
        if !clear && !flagged {
            return ;
        }
        self.game_won = true;
        let mut k: usize = 0;
        while k < n
            invariant
                k <= n,
                n == g0.len(),
                self@.cells.len() == g0.len(),
                self@.config == old(self)@.config,
                self@.over == old(self)@.over,
                self@.pending == old(self)@.pending,
                self@.won,
                forall|i2: int|
                    0 <= i2 < g0.len() ==> (#[trigger] self@.cells[i2]).is_mine == g0[i2].is_mine
                        && self@.cells[i2].adjacent_mines == g0[i2].adjacent_mines,
                forall|i2: int|
                    0 <= i2 < k ==> (#[trigger] self@.cells[i2]).state == (if g0[i2].is_mine {
                        CellState::Flagged
                    } else {
                        g0[i2].state
                    }),
                forall|i2: int|
                    k <= i2 < g0.len() ==> (#[trigger] self@.cells[i2]).state == g0[i2].state,
            decreases n - k,
        {
            if self.grid[k].is_mine {
                let mut c = self.grid[k];
                c.state = CellState::Flagged;
                self.grid[k] = c;
            }
            k = k + 1;
        }
        proof {
            lemma_count_mines_congruent(self@.cells, g0);
            assert forall|x: int, y: int|
                in_grid(old(self)@.w(), old(self)@.h(), x, y) implies #[trigger] adj_ok_at(
                self@.cells,
                old(self)@.w(),
                old(self)@.h(),
                x,
                y,
            ) by {
                lemma_flat_bounds(old(self)@.w(), old(self)@.h(), x, y);
                assert(adj_ok_at(g0, old(self)@.w(), old(self)@.h(), x, y));
                lemma_adjacent_count_congruent(
                    g0,
                    self@.cells,
                    old(self)@.w(),
                    old(self)@.h(),
                    x,
                    y,
                );
            }
            assert(win_condition(self@.cells)) by {
                if all_clear(g0) {
                    assert(all_mines_flagged(self@.cells));
                } else {
                    assert(all_mines_flagged(self@.cells));
                }
            }
        }
    }
}

impl Minesweeper {
    /// Toggles hidden <-> flagged on (x, y).  Out-of-grid coordinates are
    /// refused; a terminal game or a revealed target makes it a no-op.  A
    /// first such move places the mines, and the winning conditions are
    /// evaluated afterwards.
    pub fn toggle_flag(&mut self, x: usize, y: usize) -> (r: Result<(), GameError>)
        requires
            old(self)@.wf(),
        ensures
            final(self)@.wf(),
            final(self)@.config == old(self)@.config,
            !in_grid(old(self)@.w(), old(self)@.h(), x as int, y as int) ==> r == Err::<(),
                GameError,
            >(GameError::OutOfBounds) && final(self)@ == old(self)@,
            in_grid(old(self)@.w(), old(self)@.h(), x as int, y as int) ==> r == Ok::<(),
                GameError,
            >(()),
            in_grid(old(self)@.w(), old(self)@.h(), x as int, y as int) && (old(self)@.over || old(
                self,
            )@.won || cell(old(self)@.cells, old(self)@.w(), x as int, y as int).state
                == CellState::Revealed) ==> final(self)@ == old(self)@,
            in_grid(old(self)@.w(), old(self)@.h(), x as int, y as int) && !old(self)@.over && !old(
                self,
            )@.won && cell(old(self)@.cells, old(self)@.w(), x as int, y as int).state
                != CellState::Revealed ==> {
                &&& !final(self)@.over
                &&& !final(self)@.pending
                &&& (old(self)@.pending ==> {
                    &&& !final(self)@.won
                    &&& count_mines(final(self)@.cells) == old(self)@.config.mine_count
                    &&& (forall|a: int, b: int|
                        in_grid(old(self)@.w(), old(self)@.h(), a, b) && #[trigger] near(
                            x as int,
                            y as int,
                            a,
                            b,
                        ) ==> !cell(final(self)@.cells, old(self)@.w(), a, b).is_mine)
                    &&& cell(final(self)@.cells, old(self)@.w(), x as int, y as int).state
                        == CellState::Flagged
                    &&& (forall|i: int|
                        0 <= i < final(self)@.cells.len() && i != flat(
                            old(self)@.w(),
                            x as int,
                            y as int,
                        ) ==> (#[trigger] final(self)@.cells[i]).state == CellState::Hidden)
                })
                &&& (!old(self)@.pending ==> {
                    &&& layout_unchanged(old(self)@, final(self)@)
                    &&& final(self)@.won == win_condition(final(self)@.cells)
                    &&& cell(final(self)@.cells, old(self)@.w(), x as int, y as int).state == (
                    if final(self)@.won && cell(
                        old(self)@.cells,
                        old(self)@.w(),
                        x as int,
                        y as int,
                    ).is_mine {
                        CellState::Flagged
                    } else if cell(
                        old(self)@.cells,
                        old(self)@.w(),
                        x as int,
                        y as int,
                    ).state == CellState::Hidden {
                        CellState::Flagged
                    } else {
                        CellState::Hidden
                    })
                    &&& (forall|i: int|
                        0 <= i < final(self)@.cells.len() && i != flat(
                            old(self)@.w(),
                            x as int,
                            y as int,
                        ) ==> (#[trigger] final(self)@.cells[i]).state == (if final(self)@.won
                            && old(self)@.cells[i].is_mine {
                            CellState::Flagged
                        } else {
                            old(self)@.cells[i].state
                        }))
                })
            },
    {
        if x >= self.config.width || y >= self.config.height {
            return Err(GameError::OutOfBounds);
        }
        if self.game_over || self.game_won {
            return Ok(());
        }
        let i = self.idx(x, y);
        if matches!(self.grid[i].state, CellState::Revealed) {
            return Ok(());
        }
        if self.first_click {
            self.place_mines(x, y);
            self.first_click = false;
        }
        let ghost gplaced = self@;
        let mut c = self.grid[i];
        c.state = if matches!(c.state, CellState::Hidden) {
            CellState::Flagged
        } else {
            CellState::Hidden
        };
        self.grid[i] = c;
        let ghost gmid = self@;
        proof {
            assert(gmid.cells == gplaced.cells.update(i as int, c));
            lemma_count_mines_congruent(gmid.cells, gplaced.cells);
            assert forall|a: int, b: int|
                in_grid(gmid.w(), gmid.h(), a, b) implies #[trigger] adj_ok_at(
                gmid.cells,
                gmid.w(),
                gmid.h(),
                a,
                b,
            ) by {
                lemma_flat_bounds(gmid.w(), gmid.h(), a, b);
                assert(adj_ok_at(gplaced.cells, gmid.w(), gmid.h(), a, b));
                lemma_adjacent_count_congruent(gplaced.cells, gmid.cells, gmid.w(), gmid.h(), a, b);
            }
            assert(gmid.wf());
            if old(self)@.pending {
                assert forall|a: int, b: int|
                    in_grid(gmid.w(), gmid.h(), a, b) && #[trigger] near(x as int, y as int, a, b)
                    implies !cell(gmid.cells, gmid.w(), a, b).is_mine by {
                    lemma_flat_bounds(gmid.w(), gmid.h(), a, b);
                    assert(!cell(gplaced.cells, gplaced.w(), a, b).is_mine);
                }
                // with all cells hidden but one flagged mine-free cell,
                // neither winning condition can hold yet
                if forall|j: int| 0 <= j < gmid.cells.len() ==> !(#[trigger] gmid.cells[j]).is_mine {
                    lemma_count_mines_none(gmid.cells);
                    assert(false);
                }
                let j = choose|j: int|
                    0 <= j < gmid.cells.len() && (#[trigger] gmid.cells[j]).is_mine;
                assert(!all_mines_flagged(gmid.cells));
                assert(cell(gmid.cells, gmid.w(), x as int, y as int).state != CellState::Revealed);
                assert(near(x as int, y as int, x as int, y as int));
                assert(!all_clear(gmid.cells));
            }
        }
        self.check_win_condition();
        Ok(())
    }
}

/// x-offset of the k-th neighbor probe of the flood fill.
spec fn nbr_dx(k: int) -> int {
    if k == 0 || k == 3 || k == 5 {
        -1
    } else if k == 1 || k == 6 {
        0
    } else {
        1
    }
}

/// y-offset of the k-th neighbor probe of the flood fill.
spec fn nbr_dy(k: int) -> int {
    if 0 <= k < 3 {
        -1
    } else if 3 <= k < 5 {
        0
    } else {
        1
    }
}

/// What holds at every turn of the flood-fill worklist loop started at
/// (sx, sy): `g0` is the grid as the flood found it, the layout is
/// untouched, states only go hidden -> revealed and only for mine-free
/// cells reachable from the start, worklist entries are revealed zero
/// cells, and every revealed-by-this-flood zero cell off the worklist
/// already has no hidden mine-free neighbor.
spec fn flood_inv(v: GameView, g0: Seq<Cell>, st: Seq<(usize, usize)>, sx: int, sy: int) -> bool {
    &&& v.sized()
    &&& g0.len() == v.cells.len()
    &&& adjacency_ok(g0, v.w(), v.h())
    &&& forall|i: int|
        0 <= i < g0.len() ==> (#[trigger] v.cells[i]).is_mine == g0[i].is_mine
            && v.cells[i].adjacent_mines == g0[i].adjacent_mines
    &&& forall|a: int, b: int|
        in_grid(v.w(), v.h(), a, b) ==> ((#[trigger] cell(v.cells, v.w(), a, b)).state == cell(
            g0,
            v.w(),
            a,
            b,
        ).state || (cell(g0, v.w(), a, b).state == CellState::Hidden && !cell(
            g0,
            v.w(),
            a,
            b,
        ).is_mine && cell(v.cells, v.w(), a, b).state == CellState::Revealed && flood_reachable(
            g0,
            v.w(),
            v.h(),
            sx,
            sy,
            a,
            b,
        )))
    &&& forall|k: int|
        0 <= k < st.len() ==> in_grid(
            v.w(),
            v.h(),
            (#[trigger] st[k]).0 as int,
            st[k].1 as int,
        ) && zero_cell(g0, v.w(), v.h(), st[k].0 as int, st[k].1 as int) && cell(
            v.cells,
            v.w(),
            st[k].0 as int,
            st[k].1 as int,
        ).state == CellState::Revealed && flood_reachable(
            g0,
            v.w(),
            v.h(),
            sx,
            sy,
            st[k].0 as int,
            st[k].1 as int,
        ) && ((st[k].0 as int == sx && st[k].1 as int == sy) || cell(
            g0,
            v.w(),
            st[k].0 as int,
            st[k].1 as int,
        ).state == CellState::Hidden)
    &&& forall|a: int, b: int|
        in_grid(v.w(), v.h(), a, b) && #[trigger] zero_cell(g0, v.w(), v.h(), a, b) && ((a == sx
            && b == sy) || (cell(g0, v.w(), a, b).state == CellState::Hidden && cell(
            v.cells,
            v.w(),
            a,
            b,
        ).state == CellState::Revealed)) && !contains_pos(st, a, b) ==> no_hidden_safe_neighbor(
            v.cells,
            v.w(),
            v.h(),
            a,
            b,
        )
}

impl Minesweeper {
    /// One probe of the flood fill: neighbor (nx, ny) of the popped zero
    /// cell `from` is revealed if it is still hidden and mine-free, and
    /// joins the worklist if it is itself a zero cell.
    #[verifier::rlimit(100)]
    fn flood_step(
        &mut self,
        stack: &mut Vec<(usize, usize)>,
        nx: usize,
        ny: usize,
        Ghost(g0): Ghost<Seq<Cell>>,
        Ghost(start): Ghost<(int, int)>,
        Ghost(from): Ghost<(usize, usize)>,
    )
        requires
            flood_inv(old(self)@, g0, old(stack)@.push(from), start.0, start.1),
            in_grid(old(self)@.w(), old(self)@.h(), nx as int, ny as int),
            zero_cell(g0, old(self)@.w(), old(self)@.h(), from.0 as int, from.1 as int),
            flood_reachable(
                g0,
                old(self)@.w(),
                old(self)@.h(),
                start.0,
                start.1,
                from.0 as int,
                from.1 as int,
            ),
            is_neighbor(from.0 as int, from.1 as int, nx as int, ny as int),
        ensures
            flood_inv(final(self)@, g0, final(stack)@.push(from), start.0, start.1),
            final(self)@.config == old(self)@.config,
            final(self)@.over == old(self)@.over,
            final(self)@.won == old(self)@.won,
            final(self)@.pending == old(self)@.pending,
            count_hidden(final(self)@.cells) <= count_hidden(old(self)@.cells),
            count_hidden(final(self)@.cells) == count_hidden(old(self)@.cells) ==> final(self)@
                == old(self)@ && final(stack)@ == old(stack)@,
            !((#[trigger] final(self)@.cells[flat(old(self)@.w(), nx as int, ny as int)]).state
                == CellState::Hidden && !final(self)@.cells[flat(
                old(self)@.w(),
                nx as int,
                ny as int,
            )].is_mine),
            forall|i: int|
                0 <= i < old(self)@.cells.len() && i != flat(old(self)@.w(), nx as int, ny as int)
                    ==> (#[trigger] final(self)@.cells[i]) == old(self)@.cells[i],
            forall|i: int|
                0 <= i < old(self)@.cells.len() && !((#[trigger] old(self)@.cells[i]).state
                    == CellState::Hidden && !old(self)@.cells[i].is_mine)
                    ==> !(final(self)@.cells[i].state == CellState::Hidden
                    && !final(self)@.cells[i].is_mine),
            forall|k: int| 0 <= k < old(stack)@.len() ==> final(stack)@[k] == old(stack)@[k],
            final(stack)@.len() >= old(stack)@.len(),
    {
        let ghost w = old(self)@.w();
        let ghost h = old(self)@.h();
        let i = self.idx(nx, ny);
        let c = self.grid[i];
        if matches!(c.state, CellState::Hidden) && !c.is_mine {
            let ghost gpre = self@.cells;
            let mut c2 = c;
            c2.state = CellState::Revealed;
            proof {
                lemma_count_hidden_update(gpre, i as int, c2);
            }
            self.grid[i] = c2;
            if c.adjacent_mines == 0 {
                stack.push((nx, ny));
            }
            proof {
                assert(self@.cells == gpre.update(i as int, c2));
                lemma_flat_bounds(w, h, nx as int, ny as int);
                assert(cell(gpre, w, nx as int, ny as int) == c);
                assert(cell(g0, w, nx as int, ny as int).state == CellState::Hidden);
                assert(!cell(g0, w, nx as int, ny as int).is_mine);
                lemma_flood_reachable_step(
                    g0,
                    w,
                    h,
                    start.0,
                    start.1,
                    from.0 as int,
                    from.1 as int,
                    nx as int,
                    ny as int,
                );
                assert(adj_ok_at(g0, w, h, nx as int, ny as int));
                assert forall|a: int, b: int|
                    in_grid(w, h, a, b) implies ((#[trigger] cell(self@.cells, w, a, b)).state
                    == cell(g0, w, a, b).state || (cell(g0, w, a, b).state == CellState::Hidden
                    && !cell(g0, w, a, b).is_mine && cell(self@.cells, w, a, b).state
                    == CellState::Revealed && flood_reachable(g0, w, h, start.0, start.1, a, b))) by {
                    lemma_flat_bounds(w, h, a, b);
                    if flat(w, a, b) == i as int {
                        lemma_flat_injective(w, h, a, b, nx as int, ny as int);
                    } else {
                        assert(cell(self@.cells, w, a, b) == cell(gpre, w, a, b));
                    }
                }
                assert forall|a: int, b: int|
                    in_grid(w, h, a, b) && #[trigger] zero_cell(g0, w, h, a, b) && ((a == start.0
                        && b == start.1) || (cell(g0, w, a, b).state == CellState::Hidden && cell(
                        self@.cells,
                        w,
                        a,
                        b,
                    ).state == CellState::Revealed)) && !contains_pos(
                        stack@.push(from),
                        a,
                        b,
                    ) implies no_hidden_safe_neighbor(self@.cells, w, h, a, b) by {
                    if cell(gpre, w, a, b).state == CellState::Revealed || (a == start.0 && b
                        == start.1) {
                        if c.adjacent_mines == 0 {
                            assert(old(stack)@.push(from) =~= stack@.push(from).remove(
                                stack@.push(from).len() - 2,
                            )) by {
                                assert(stack@ == old(stack)@.push((nx, ny)));
                            }
                            assert(!contains_pos(old(stack)@.push(from), a, b)) by {
                                if contains_pos(old(stack)@.push(from), a, b) {
                                    let k = choose|k: int|
                                        0 <= k < old(stack)@.push(from).len() && (#[trigger] old(
                                            stack,
                                        )@.push(from)[k]).0 == a && old(stack)@.push(from)[k].1
                                            == b;
                                    if k < old(stack)@.len() {
                                        assert(stack@.push(from)[k] == old(stack)@.push(from)[k]);
                                    } else {
                                        assert(stack@.push(from)[stack@.push(from).len() - 1]
                                            == from);
                                    }
                                    assert(contains_pos(stack@.push(from), a, b));
                                }
                            }
                        } else {
                            assert(!contains_pos(old(stack)@.push(from), a, b)) by {
                                if contains_pos(old(stack)@.push(from), a, b) {
                                    let k = choose|k: int|
                                        0 <= k < old(stack)@.push(from).len() && (#[trigger] old(
                                            stack,
                                        )@.push(from)[k]).0 == a && old(stack)@.push(from)[k].1
                                            == b;
                                    assert(contains_pos(stack@.push(from), a, b));
                                }
                            }
                        }
                        assert(no_hidden_safe_neighbor(gpre, w, h, a, b));
                        assert forall|a2: int, b2: int|
                            #[trigger] is_neighbor(a, b, a2, b2) && in_grid(w, h, a2, b2) && !cell(
                                self@.cells,
                                w,
                                a2,
                                b2,
                            ).is_mine implies cell(self@.cells, w, a2, b2).state
                            != CellState::Hidden by {
                            lemma_flat_bounds(w, h, a2, b2);
                            if flat(w, a2, b2) == i as int {
                                lemma_flat_injective(w, h, a2, b2, nx as int, ny as int);
                            } else {
                                assert(cell(self@.cells, w, a2, b2) == cell(gpre, w, a2, b2));
                            }
                        }
                    } else {
                        // the cell was revealed by this very step: it is on
                        // the worklist now, so it is exempt
                        if cell(self@.cells, w, a, b).state == CellState::Revealed && cell(
                            gpre,
                            w,
                            a,
                            b,
                        ).state != CellState::Revealed {
                            lemma_flat_bounds(w, h, a, b);
                            if flat(w, a, b) != i as int {
                                assert(cell(self@.cells, w, a, b) == cell(gpre, w, a, b));
                            }
                            lemma_flat_injective(w, h, a, b, nx as int, ny as int);
                            assert(adjacent_mine_count(g0, w, h, nx as int, ny as int) == 0);
                            assert(cell(g0, w, nx as int, ny as int).adjacent_mines == 0);
                            assert(c.adjacent_mines == 0);
                            assert(stack@ == old(stack)@.push((nx, ny)));
                            assert((#[trigger] stack@.push(from)[old(stack)@.len() as int]).0
                                == nx && stack@.push(from)[old(stack)@.len() as int].1 == ny);
                            assert(contains_pos(stack@.push(from), a, b));
                        }
                    }
                }
                let ghost stp = stack@.push(from);
                assert forall|k: int| 0 <= k < stp.len() implies in_grid(
                    w,
                    h,
                    (#[trigger] stp[k]).0 as int,
                    stp[k].1 as int,
                ) && zero_cell(g0, w, h, stp[k].0 as int, stp[k].1 as int) && cell(
                    self@.cells,
                    w,
                    stp[k].0 as int,
                    stp[k].1 as int,
                ).state == CellState::Revealed && flood_reachable(
                    g0,
                    w,
                    h,
                    start.0,
                    start.1,
                    stp[k].0 as int,
                    stp[k].1 as int,
                ) && ((stp[k].0 as int == start.0 && stp[k].1 as int == start.1) || cell(
                    g0,
                    w,
                    stp[k].0 as int,
                    stp[k].1 as int,
                ).state == CellState::Hidden) by {
                    if c.adjacent_mines == 0 {
                        assert(stack@ == old(stack)@.push((nx, ny)));
                        if k < old(stack)@.len() {
                            assert(stp[k] == old(stack)@.push(from)[k]);
                            lemma_flat_bounds(w, h, stp[k].0 as int, stp[k].1 as int);
                        } else if k == old(stack)@.len() {
                            assert(stp[k] == (nx, ny));
                        } else {
                            assert(stp[k] == from);
                            assert(old(stack)@.push(from)[old(stack)@.len() as int] == from);
                            lemma_flat_bounds(w, h, from.0 as int, from.1 as int);
                        }
                    } else {
                        assert(stp[k] == old(stack)@.push(from)[k]);
                        lemma_flat_bounds(w, h, stp[k].0 as int, stp[k].1 as int);
                    }
                }
            }
        } else {
            proof {
                assert(final(stack)@ == old(stack)@);
            }
        }
    }
}

/// How many integers of [0, hi) fall in the closed interval [a, b].
spec fn overlap(hi: int, a: int, b: int) -> int {
    let l = if a > 0 {
        a
    } else {
        0
    };
    let r = if hi < b + 1 {
        hi
    } else {
        b + 1
    };
    if r > l {
        r - l
    } else {
        0
    }
}

impl Minesweeper {
    /// The positions outside the 3x3 exclusion zone around (sx, sy), in
    /// row-major order.  At most 9 cells are excluded, so at least
    /// `width * height - 9` positions come back.
    fn eligible_cells(&self, sx: usize, sy: usize) -> (space: Vec<(usize, usize)>)
        requires
            self@.sized(),
            in_grid(self@.w(), self@.h(), sx as int, sy as int),
        ensures
            space@.len() + 9 >= self@.w() * self@.h(),
            space@.len() <= self@.w() * self@.h(),
            all_on_grid(space@, self@.w(), self@.h()),
            distinct_cells(space@, self@.w()),
            forall|k: int|
                0 <= k < space@.len() ==> !near(
                    sx as int,
                    sy as int,
                    (#[trigger] space@[k]).0 as int,
                    space@[k].1 as int,
                ),
    {
        let w = self.config.width;
        let h = self.config.height;
        let ghost cc = overlap(w as int, sx as int - 1, sx as int + 1);
        let mut space: Vec<(usize, usize)> = Vec::new();
        let mut y: usize = 0;
        while y < h
            invariant
                y <= h,
                space@.len() == y as int * w as int - overlap(
                    y as int,
                    sy as int - 1,
                    sy as int + 1,
                ) * cc,
                all_on_grid(space@, w as int, h as int),
                forall|k: int|
                    0 <= k < space@.len() ==> flat(
                        w as int,
                        (#[trigger] space@[k]).0 as int,
                        space@[k].1 as int,
                    ) < y as int * w as int,
                distinct_cells(space@, w as int),
                forall|k: int|
                    0 <= k < space@.len() ==> !near(
                        sx as int,
                        sy as int,
                        (#[trigger] space@[k]).0 as int,
                        space@[k].1 as int,
                    ),
            decreases h - y,
        {
            let ghost ry = overlap(y as int, sy as int - 1, sy as int + 1);
            let mut x: usize = 0;
            while x < w
                invariant
                    x <= w,
                    y < h,
                    space@.len() == y as int * w as int + x as int - ry * cc - (if -1 <= y as int
                        - sy as int <= 1 {
                        overlap(x as int, sx as int - 1, sx as int + 1)
                    } else {
                        0int
                    }),
                    all_on_grid(space@, w as int, h as int),
                    forall|k: int|
                        0 <= k < space@.len() ==> flat(
                            w as int,
                            (#[trigger] space@[k]).0 as int,
                            space@[k].1 as int,
                        ) < y as int * w as int + x as int,
                    distinct_cells(space@, w as int),
                    forall|k: int|
                        0 <= k < space@.len() ==> !near(
                            sx as int,
                            sy as int,
                            (#[trigger] space@[k]).0 as int,
                            space@[k].1 as int,
                        ),
                decreases w - x,
            {
                let near_cell = x + 1 >= sx && x <= sx + 1 && y + 1 >= sy && y <= sy + 1;
                if !near_cell {
                    space.push((x, y));
                }
                x = x + 1;
                proof {
                    let a = sx as int - 1;
                    let b = sx as int + 1;
                    if a <= x as int - 1 <= b {
                        assert(overlap(x as int, a, b) == overlap(x as int - 1, a, b) + 1);
                    } else {
                        assert(overlap(x as int, a, b) == overlap(x as int - 1, a, b));
                    }
                }
            }
            proof {
                assert((y as int + 1) * (w as int) == y as int * w as int + w as int)
                    by (nonlinear_arith);
                assert((ry + 1) * cc == ry * cc + cc) by (nonlinear_arith);
                let a = sy as int - 1;
                let b = sy as int + 1;
                if a <= y as int <= b {
                    assert(overlap(y as int + 1, a, b) == ry + 1);
                } else {
                    assert(overlap(y as int + 1, a, b) == ry);
                }
            }
            y = y + 1;
        }
        proof {
            let rr = overlap(h as int, sy as int - 1, sy as int + 1);
            assert(0 <= rr <= 3);
            assert(0 <= cc <= 3);
            assert(0 <= rr * cc <= 9) by (nonlinear_arith)
                requires
                    0 <= rr <= 3,
                    0 <= cc <= 3,
            ;
            assert(h as int * w as int == w as int * h as int) by (nonlinear_arith);
        }
        space
    }

    /// Marks every listed cell as a mine.  States and adjacency counts are
    /// untouched; afterwards the mines are exactly the listed cells.
    fn apply_mines(&mut self, coords: &Vec<(usize, usize)>)
        requires
            old(self)@.sized(),
            forall|i: int|
                0 <= i < old(self)@.cells.len() ==> !(#[trigger] old(self)@.cells[i]).is_mine,
            all_on_grid(coords@, old(self)@.w(), old(self)@.h()),
            distinct_cells(coords@, old(self)@.w()),
        ensures
            final(self)@.config == old(self)@.config,
            final(self)@.over == old(self)@.over,
            final(self)@.won == old(self)@.won,
            final(self)@.pending == old(self)@.pending,
            final(self)@.cells.len() == old(self)@.cells.len(),
            forall|i: int|
                0 <= i < old(self)@.cells.len() ==> (#[trigger] final(self)@.cells[i]).state == old(
                    self,
                )@.cells[i].state && final(self)@.cells[i].adjacent_mines
                    == old(self)@.cells[i].adjacent_mines,
            forall|i: int|
                0 <= i < old(self)@.cells.len() ==> ((#[trigger] final(self)@.cells[i]).is_mine
                    <==> placed_in(coords@, old(self)@.w(), coords@.len() as int, i)),
            count_mines(final(self)@.cells) == coords@.len(),
    {
        let ghost w = old(self)@.w();
        let ghost g0 = old(self)@.cells;
        proof {
            lemma_count_mines_none(g0);
        }
        let n = coords.len();
        let mut k: usize = 0;
        while k < n
            invariant
                k <= n,
                n == coords@.len(),
                self@.sized(),
                self@.config == old(self)@.config,
                self@.over == old(self)@.over,
                self@.won == old(self)@.won,
                self@.pending == old(self)@.pending,
                self@.cells.len() == g0.len(),
                forall|i: int|
                    0 <= i < g0.len() ==> (#[trigger] self@.cells[i]).state == g0[i].state
                        && self@.cells[i].adjacent_mines == g0[i].adjacent_mines,
                forall|i: int|
                    0 <= i < g0.len() ==> ((#[trigger] self@.cells[i]).is_mine <==> placed_in(
                        coords@,
                        w,
                        k as int,
                        i,
                    )),
                count_mines(self@.cells) == k,
            decreases n - k,
        {
            let cx = coords[k].0;
            let cy = coords[k].1;
            let i = self.idx(cx, cy);
            let ghost gpre = self@.cells;
            proof {
                assert(in_grid(w, old(self)@.h(), cx as int, cy as int));
                if placed_in(coords@, w, k as int, i as int) {
                    let k2 = choose|k2: int|
                        0 <= k2 < k && flat(w, (#[trigger] coords@[k2]).0 as int, coords@[k2].1 as int)
                            == i;
                    assert(flat(w, coords@[k2].0 as int, coords@[k2].1 as int) == flat(
                        w,
                        coords@[k as int].0 as int,
                        coords@[k as int].1 as int,
                    ));
                    assert(false);
                }
            }
            let mut c = self.grid[i];
            c.is_mine = true;
            proof {
                lemma_count_mines_update(gpre, i as int, c);
            }
            self.grid[i] = c;
            proof {
                assert(self@.cells == gpre.update(i as int, c));
                assert forall|i2: int| 0 <= i2 < g0.len() implies ((
                #[trigger] self@.cells[i2]).is_mine <==> placed_in(
                    coords@,
                    w,
                    k as int + 1,
                    i2,
                )) by {
                    if i2 == i as int {
                        assert(flat(w, (coords@[k as int]).0 as int, coords@[k as int].1 as int)
                            == i2);
                        assert(placed_in(coords@, w, k as int + 1, i2));
                    } else {
                        if placed_in(coords@, w, k as int + 1, i2) {
                            let k2 = choose|k2: int|
                                0 <= k2 < k as int + 1 && flat(
                                    w,
                                    (#[trigger] coords@[k2]).0 as int,
                                    coords@[k2].1 as int,
                                ) == i2;
                            assert(k2 < k as int);
                            assert(placed_in(coords@, w, k as int, i2));
                        }
                        if placed_in(coords@, w, k as int, i2) {
                            let k2 = choose|k2: int|
                                0 <= k2 < k as int && flat(
                                    w,
                                    (#[trigger] coords@[k2]).0 as int,
                                    coords@[k2].1 as int,
                                ) == i2;
                            assert(placed_in(coords@, w, k as int + 1, i2));
                        }
                    }
                }
            }
            k = k + 1;
        }
    }

    /// Fills in the adjacency count of every mine-free cell; mine cells are
    /// left untouched.
    #[verifier::rlimit(60)]
    fn compute_adjacency(&mut self)
        requires
            old(self)@.sized(),
        ensures
            final(self)@.config == old(self)@.config,
            final(self)@.over == old(self)@.over,
            final(self)@.won == old(self)@.won,
            final(self)@.pending == old(self)@.pending,
            final(self)@.cells.len() == old(self)@.cells.len(),
            forall|i: int|
                0 <= i < old(self)@.cells.len() ==> (#[trigger] final(self)@.cells[i]).is_mine
                    == old(self)@.cells[i].is_mine && final(self)@.cells[i].state
                    == old(self)@.cells[i].state,
            forall|i: int|
                0 <= i < old(self)@.cells.len() && old(self)@.cells[i].is_mine ==> (
                #[trigger] final(self)@.cells[i]) == old(self)@.cells[i],
            forall|x: int, y: int|
                in_grid(old(self)@.w(), old(self)@.h(), x, y) && !(#[trigger] cell(
                    final(self)@.cells,
                    old(self)@.w(),
                    x,
                    y,
                )).is_mine ==> cell(final(self)@.cells, old(self)@.w(), x, y).adjacent_mines
                    == adjacent_mine_count(final(self)@.cells, old(self)@.w(), old(self)@.h(), x, y),
    {
        let w = self.config.width;
        let h = self.config.height;
        let ghost g0 = old(self)@.cells;
        let mut y: usize = 0;
        while y < h
            invariant
                y <= h,
                self@.sized(),
                self@.config == old(self)@.config,
                self@.over == old(self)@.over,
                self@.won == old(self)@.won,
                self@.pending == old(self)@.pending,
                self@.cells.len() == g0.len(),
                forall|i: int|
                    0 <= i < g0.len() ==> (#[trigger] self@.cells[i]).is_mine == g0[i].is_mine
                        && self@.cells[i].state == g0[i].state,
                forall|i: int|
                    0 <= i < g0.len() && g0[i].is_mine ==> (#[trigger] self@.cells[i]) == g0[i],
                forall|x2: int, y2: int|
                    in_grid(w as int, h as int, x2, y2) && flat(w as int, x2, y2) < y as int
                        * w as int && !(#[trigger] cell(self@.cells, w as int, x2, y2)).is_mine
                        ==> cell(self@.cells, w as int, x2, y2).adjacent_mines
                        == adjacent_mine_count(g0, w as int, h as int, x2, y2),
            decreases h - y,
        {
            let mut x: usize = 0;
            while x < w
                invariant
                    x <= w,
                    y < h,
                    self@.sized(),
                    self@.config == old(self)@.config,
                    self@.over == old(self)@.over,
                    self@.won == old(self)@.won,
                    self@.pending == old(self)@.pending,
                    self@.cells.len() == g0.len(),
                    forall|i: int|
                        0 <= i < g0.len() ==> (#[trigger] self@.cells[i]).is_mine == g0[i].is_mine
                            && self@.cells[i].state == g0[i].state,
                    forall|i: int|
                        0 <= i < g0.len() && g0[i].is_mine ==> (#[trigger] self@.cells[i]) == g0[i],
                    forall|x2: int, y2: int|
                        in_grid(w as int, h as int, x2, y2) && flat(w as int, x2, y2) < y as int
                            * w as int + x as int && !(#[trigger] cell(
                            self@.cells,
                            w as int,
                            x2,
                            y2,
                        )).is_mine ==> cell(self@.cells, w as int, x2, y2).adjacent_mines
                            == adjacent_mine_count(g0, w as int, h as int, x2, y2),
                decreases w - x,
            {
                let i = self.idx(x, y);
                if !self.grid[i].is_mine {
                    let a = self.count_adjacent_mines(x, y);
                    let ghost gpre = self@.cells;
                    let mut c = self.grid[i];
                    c.adjacent_mines = a;
                    self.grid[i] = c;
                    proof {
                        assert(self@.cells == gpre.update(i as int, c));
                        lemma_adjacent_count_congruent(
                            gpre,
                            g0,
                            w as int,
                            h as int,
                            x as int,
                            y as int,
                        );
                        assert(cell(self@.cells, w as int, x as int, y as int).adjacent_mines
                            == adjacent_mine_count(g0, w as int, h as int, x as int, y as int));
                        assert forall|x2: int, y2: int|
                            in_grid(w as int, h as int, x2, y2) && flat(w as int, x2, y2) < y as int
                                * w as int + x as int + 1 && !(#[trigger] cell(
                                self@.cells,
                                w as int,
                                x2,
                                y2,
                            )).is_mine implies cell(self@.cells, w as int, x2, y2).adjacent_mines
                            == adjacent_mine_count(g0, w as int, h as int, x2, y2) by {
                            if flat(w as int, x2, y2) == i as int {
                                lemma_flat_injective(w as int, h as int, x2, y2, x as int, y as int);
                            } else {
                                assert(cell(self@.cells, w as int, x2, y2) == cell(
                                    gpre,
                                    w as int,
                                    x2,
                                    y2,
                                ));
                            }
                        }
                    }
                }
                x = x + 1;
            }
            proof {
                assert((y as int + 1) * (w as int) == y as int * w as int + w as int)
                    by (nonlinear_arith);
            }
            y = y + 1;
        }
        proof {
            assert forall|x: int, y: int|
                in_grid(old(self)@.w(), old(self)@.h(), x, y) && !(#[trigger] cell(
                    self@.cells,
                    old(self)@.w(),
                    x,
                    y,
                )).is_mine implies cell(self@.cells, old(self)@.w(), x, y).adjacent_mines
                == adjacent_mine_count(self@.cells, old(self)@.w(), old(self)@.h(), x, y) by {
                lemma_flat_bounds(w as int, h as int, x, y);
                assert(h as int * w as int == w as int * h as int) by (nonlinear_arith);
                lemma_adjacent_count_congruent(g0, self@.cells, w as int, h as int, x, y);
            }
        }
    }

    /// Draws the mine layout for a first move at (safe_x, safe_y): exactly
    /// `mine_count` mines go to cells chosen at random outside the 3x3
    /// exclusion zone, and every mine-free cell gets its adjacency count.
    fn place_mines(&mut self, safe_x: usize, safe_y: usize)
        requires
            old(self)@.wf(),
            old(self)@.pending,
            in_grid(old(self)@.w(), old(self)@.h(), safe_x as int, safe_y as int),
        ensures
            final(self)@.wf(),
            placement_ok(old(self)@, final(self)@, safe_x as int, safe_y as int),
    {
        let ghost w = old(self)@.w();
        let ghost h = old(self)@.h();
        let space = self.eligible_cells(safe_x, safe_y);
        let mc = self.config.mine_count;
        let picks = sample_indices(space.len(), mc);
        let mut chosen: Vec<(usize, usize)> = Vec::new();
        let mut k: usize = 0;
        while k < mc
            invariant
                k <= mc,
                mc == old(self)@.config.mine_count,
                picks@.len() == mc,
                chosen@.len() == k,
                forall|j: int| 0 <= j < picks@.len() ==> (#[trigger] picks@[j]) < space@.len(),
                forall|j1: int, j2: int|
                    0 <= j1 < j2 < picks@.len() ==> picks@[j1] != picks@[j2],
                forall|j: int|
                    0 <= j < k ==> (#[trigger] chosen@[j]) == space@[picks@[j] as int],
                all_on_grid(chosen@, w, h),
                distinct_cells(chosen@, w),
                forall|j: int|
                    0 <= j < k ==> !near(
                        safe_x as int,
                        safe_y as int,
                        (#[trigger] chosen@[j]).0 as int,
                        chosen@[j].1 as int,
                    ),
            decreases mc - k,
        {
            let pi = picks[k];
            let e = space[pi];
            chosen.push(e);
            proof {
                assert forall|j1: int, j2: int|
                    0 <= j1 < j2 < chosen@.len() implies flat(
                    w,
                    (#[trigger] chosen@[j1]).0 as int,
                    chosen@[j1].1 as int,
                ) != flat(w, (#[trigger] chosen@[j2]).0 as int, chosen@[j2].1 as int) by {
                    if j2 == chosen@.len() - 1 {
                        let a = picks@[j1] as int;
                        let b = picks@[j2] as int;
                        assert(chosen@[j1] == space@[a]);
                        assert(chosen@[j2] == space@[b]);
                        assert(a != b);
                        if a < b {
                            assert(flat(w, space@[a].0 as int, space@[a].1 as int) != flat(
                                w,
                                space@[b].0 as int,
                                space@[b].1 as int,
                            ));
                        } else {
                            assert(flat(w, space@[b].0 as int, space@[b].1 as int) != flat(
                                w,
                                space@[a].0 as int,
                                space@[a].1 as int,
                            ));
                        }
                    }
                }
            }
            k = k + 1;
        }
        self.apply_mines(&chosen);
        let ghost gplaced = self@.cells;
        self.compute_adjacency();
        self.first_click = false;
        proof {
            lemma_count_mines_congruent(self@.cells, gplaced);
            assert(count_mines(self@.cells) == mc);
            assert forall|x: int, y: int|
                in_grid(w, h, x, y) && #[trigger] near(safe_x as int, safe_y as int, x, y)
                implies !cell(self@.cells, w, x, y).is_mine by {
                lemma_flat_bounds(w, h, x, y);
                if cell(self@.cells, w, x, y).is_mine {
                    let i = flat(w, x, y);
                    let k2 = choose|k2: int|
                        0 <= k2 < chosen@.len() && flat(
                            w,
                            (#[trigger] chosen@[k2]).0 as int,
                            chosen@[k2].1 as int,
                        ) == i;
                    lemma_flat_injective(
                        w,
                        h,
                        chosen@[k2].0 as int,
                        chosen@[k2].1 as int,
                        x,
                        y,
                    );
                    assert(false);
                }
            }
            assert forall|x: int, y: int| in_grid(w, h, x, y) implies #[trigger] adj_ok_at(
                self@.cells,
                w,
                h,
                x,
                y,
            ) by {
                lemma_flat_bounds(w, h, x, y);
            }
        }
    }

    /// Places an explicit mine layout for the pending first move, so that a
    /// caller — a test bench above all — can pin the layout the random draw
    /// would otherwise pick.  Refused unless the game is untouched and the
    /// layout lists exactly `mine_count` distinct on-grid cells.
    pub fn set_mines(&mut self, mines: &Vec<(usize, usize)>) -> (r: Result<(), GameError>)
        requires
            old(self)@.wf(),
        ensures
            final(self)@.wf(),
            r is Ok <==> (old(self)@.pending && mines@.len() == old(self)@.config.mine_count
                && all_on_grid(mines@, old(self)@.w(), old(self)@.h()) && distinct_cells(
                mines@,
                old(self)@.w(),
            )),
            r is Err ==> final(self)@ == old(self)@ && r == Err::<(), GameError>(
                GameError::InvalidConfiguration,
            ),
            r is Ok ==> final(self)@.config == old(self)@.config && !final(self)@.pending
                && !final(self)@.over && !final(self)@.won && states_unchanged(
                old(self)@,
                final(self)@,
            ) && (forall|i: int|
                0 <= i < final(self)@.cells.len() ==> ((#[trigger] final(self)@.cells[i]).is_mine
                    <==> placed_in(mines@, old(self)@.w(), mines@.len() as int, i))),
    {
        let ghost w = old(self)@.w();
        let ghost h = old(self)@.h();
        if !self.first_click {
            return Err(GameError::InvalidConfiguration);
        }
        if mines.len() != self.config.mine_count {
            return Err(GameError::InvalidConfiguration);
        }
        let n = mines.len();
        let mut k: usize = 0;
        while k < n
            invariant
                k <= n,
                n == mines@.len(),
                forall|j: int|
                    0 <= j < k ==> in_grid(
                        w,
                        h,
                        (#[trigger] mines@[j]).0 as int,
                        mines@[j].1 as int,
                    ),
            decreases n - k,
        {
            if mines[k].0 >= self.config.width || mines[k].1 >= self.config.height {
                return Err(GameError::InvalidConfiguration);
            }
            k = k + 1;
        }
        let mut a: usize = 0;
        while a < n
            invariant
                a <= n,
                n == mines@.len(),
                all_on_grid(mines@, w, h),
                forall|j1: int, j2: int|
                    0 <= j1 < j2 < n && j1 < a ==> (#[trigger] mines@[j1]).0 != (
                    #[trigger] mines@[j2]).0 || mines@[j1].1 != mines@[j2].1,
            decreases n - a,
        {
            let mut b: usize = a + 1;
            while b < n
                invariant
                    a < b || a + 1 == b,
                    a < n,
                    b <= n,
                    n == mines@.len(),
                    all_on_grid(mines@, w, h),
                    forall|j1: int, j2: int|
                        0 <= j1 < j2 < n && j1 < a ==> (#[trigger] mines@[j1]).0 != (
                        #[trigger] mines@[j2]).0 || mines@[j1].1 != mines@[j2].1,
                    forall|j2: int|
                        a < j2 < b ==> (#[trigger] mines@[j2]).0 != mines@[a as int].0
                            || mines@[j2].1 != mines@[a as int].1,
                decreases n - b,
            {
                if mines[b].0 == mines[a].0 && mines[b].1 == mines[a].1 {
                    return Err(GameError::InvalidConfiguration);
                }
                b = b + 1;
            }
            a = a + 1;
        }
        proof {
            assert forall|j1: int, j2: int| 0 <= j1 < j2 < mines@.len() implies flat(
                w,
                (#[trigger] mines@[j1]).0 as int,
                mines@[j1].1 as int,
            ) != flat(w, (#[trigger] mines@[j2]).0 as int, mines@[j2].1 as int) by {
                if flat(w, mines@[j1].0 as int, mines@[j1].1 as int) == flat(
                    w,
                    mines@[j2].0 as int,
                    mines@[j2].1 as int,
                ) {
                    lemma_flat_injective(
                        w,
                        h,
                        mines@[j1].0 as int,
                        mines@[j1].1 as int,
                        mines@[j2].0 as int,
                        mines@[j2].1 as int,
                    );
                }
            }
        }
        self.apply_mines(mines);
        let ghost gplaced = self@.cells;
        self.compute_adjacency();
        self.first_click = false;
        proof {
            lemma_count_mines_congruent(self@.cells, gplaced);
            assert forall|x: int, y: int| in_grid(w, h, x, y) implies #[trigger] adj_ok_at(
                self@.cells,
                w,
                h,
                x,
                y,
            ) by {
                lemma_flat_bounds(w, h, x, y);
            }
        }
        Ok(())
    }
}

impl Minesweeper {
    /// One round of the flood fill: probes the 8 neighbors of the popped
    /// zero cell (cx, cy) and re-establishes the worklist invariant.
    #[verifier::rlimit(100)]
    fn flood_round(
        &mut self,
        stack: &mut Vec<(usize, usize)>,
        cx: usize,
        cy: usize,
        Ghost(g0): Ghost<Seq<Cell>>,
        Ghost(start): Ghost<(int, int)>,
    )
        requires
            flood_inv(old(self)@, g0, old(stack)@.push((cx, cy)), start.0, start.1),
            in_grid(old(self)@.w(), old(self)@.h(), cx as int, cy as int),
            zero_cell(g0, old(self)@.w(), old(self)@.h(), cx as int, cy as int),
            flood_reachable(
                g0,
                old(self)@.w(),
                old(self)@.h(),
                start.0,
                start.1,
                cx as int,
                cy as int,
            ),
            in_grid(old(self)@.w(), old(self)@.h(), start.0, start.1),
        ensures
            flood_inv(final(self)@, g0, final(stack)@, start.0, start.1),
            final(self)@.config == old(self)@.config,
            final(self)@.over == old(self)@.over,
            final(self)@.won == old(self)@.won,
            final(self)@.pending == old(self)@.pending,
            count_hidden(final(self)@.cells) <= count_hidden(old(self)@.cells),
            count_hidden(final(self)@.cells) == count_hidden(old(self)@.cells)
                ==> final(stack)@.len() == old(stack)@.len(),
    {
        let ghost top = (cx, cy);
        let w = self.config.width;
        let h = self.config.height;
        let mut k: usize = 0;
        while k < 8
            invariant
                k <= 8,
                flood_inv(self@, g0, stack@.push((cx, cy)), start.0, start.1),
                self@.config == old(self)@.config,
                self@.over == old(self)@.over,
                self@.won == old(self)@.won,
                self@.pending == old(self)@.pending,
                count_hidden(self@.cells) <= count_hidden(old(self)@.cells),
                count_hidden(self@.cells) == count_hidden(old(self)@.cells) ==> stack@ == old(
                    stack,
                )@ && self@ == old(self)@,
                forall|k2: int| #![trigger nbr_dx(k2)]
                    0 <= k2 < k ==> {
                        let a = cx as int + nbr_dx(k2);
                        let b = cy as int + nbr_dy(k2);
                        !in_grid(self@.w(), self@.h(), a, b) || !(cell(
                            self@.cells,
                            self@.w(),
                            a,
                            b,
                        ).state == CellState::Hidden && !cell(self@.cells, self@.w(), a, b).is_mine)
                    },
            decreases 8 - k,
        {
            let dx: i8 = if k == 0 || k == 3 || k == 5 {
                -1
            } else if k == 1 || k == 6 {
                0
            } else {
                1
            };
            let dy: i8 = if k < 3 {
                -1
            } else if k < 5 {
                0
            } else {
                1
            };
            proof {
                assert(dx as int == nbr_dx(k as int));
                assert(dy as int == nbr_dy(k as int));
            }
            let xok = (dx >= 0 || cx > 0) && (dx <= 0 || cx + 1 < w);
            let yok = (dy >= 0 || cy > 0) && (dy <= 0 || cy + 1 < h);
            if xok && yok {
                let nx = if dx < 0 {
                    cx - 1
                } else if dx > 0 {
                    cx + 1
                } else {
                    cx
                };
                let ny = if dy < 0 {
                    cy - 1
                } else if dy > 0 {
                    cy + 1
                } else {
                    cy
                };
                self.flood_step(stack, nx, ny, Ghost(g0), Ghost(start), Ghost(top));
                proof {
                    lemma_flat_bounds(w as int, h as int, nx as int, ny as int);
                    assert(!(cell(self@.cells, self@.w(), nx as int, ny as int).state
                        == CellState::Hidden && !cell(
                        self@.cells,
                        self@.w(),
                        nx as int,
                        ny as int,
                    ).is_mine));
                }
            }
            proof {
                assert forall|k2: int| #![trigger nbr_dx(k2)] 0 <= k2 < k + 1 implies {
                    let a = cx as int + nbr_dx(k2);
                    let b = cy as int + nbr_dy(k2);
                    !in_grid(self@.w(), self@.h(), a, b) || !(cell(
                        self@.cells,
                        self@.w(),
                        a,
                        b,
                    ).state == CellState::Hidden && !cell(self@.cells, self@.w(), a, b).is_mine)
                } by {
                    let a = cx as int + nbr_dx(k2);
                    let b = cy as int + nbr_dy(k2);
                    if in_grid(w as int, h as int, a, b) {
                        lemma_flat_bounds(w as int, h as int, a, b);
                    }
                }
            }
            k = k + 1;
        }
        proof {
            assert(no_hidden_safe_neighbor(self@.cells, w as int, h as int, cx as int, cy as int))
                by {
                assert forall|a: int, b: int|
                    #[trigger] is_neighbor(cx as int, cy as int, a, b) && in_grid(
                        w as int,
                        h as int,
                        a,
                        b,
                    ) && !cell(self@.cells, w as int, a, b).is_mine implies cell(
                    self@.cells,
                    w as int,
                    a,
                    b,
                ).state != CellState::Hidden by {
                    let dx = a - cx as int;
                    let dy = b - cy as int;
                    assert(exists|k2: int| 0 <= k2 < 8 && nbr_dx(k2) == dx && nbr_dy(k2) == dy)
                        by {
                        if dy == -1 {
                            if dx == -1 {
                                assert(nbr_dx(0) == dx && nbr_dy(0) == dy);
                            } else if dx == 0 {
                                assert(nbr_dx(1) == dx && nbr_dy(1) == dy);
                            } else {
                                assert(nbr_dx(2) == dx && nbr_dy(2) == dy);
                            }
                        } else if dy == 0 {
                            if dx == -1 {
                                assert(nbr_dx(3) == dx && nbr_dy(3) == dy);
                            } else {
                                assert(nbr_dx(4) == dx && nbr_dy(4) == dy);
                            }
                        } else {
                            if dx == -1 {
                                assert(nbr_dx(5) == dx && nbr_dy(5) == dy);
                            } else if dx == 0 {
                                assert(nbr_dx(6) == dx && nbr_dy(6) == dy);
                            } else {
                                assert(nbr_dx(7) == dx && nbr_dy(7) == dy);
                            }
                        }
                    }
                }
            }
            assert forall|a: int, b: int|
                in_grid(w as int, h as int, a, b) && #[trigger] zero_cell(
                    g0,
                    w as int,
                    h as int,
                    a,
                    b,
                ) && ((a == start.0 && b == start.1) || (cell(g0, w as int, a, b).state
                    == CellState::Hidden && cell(self@.cells, w as int, a, b).state
                    == CellState::Revealed)) && !contains_pos(stack@, a, b) implies
                no_hidden_safe_neighbor(self@.cells, w as int, h as int, a, b) by {
                if !(a == cx as int && b == cy as int) {
                    assert(!contains_pos(stack@.push(top), a, b)) by {
                        if contains_pos(stack@.push(top), a, b) {
                            let k = choose|k: int|
                                0 <= k < stack@.push(top).len() && (#[trigger] stack@.push(
                                    top,
                                )[k]).0 == a && stack@.push(top)[k].1 == b;
                            assert(k < stack@.len());
                            assert(contains_pos(stack@, a, b));
                        }
                    }
                }
            }
            assert forall|k: int| 0 <= k < stack@.len() implies in_grid(
                w as int,
                h as int,
                (#[trigger] stack@[k]).0 as int,
                stack@[k].1 as int,
            ) && zero_cell(g0, w as int, h as int, stack@[k].0 as int, stack@[k].1 as int)
                && cell(self@.cells, w as int, stack@[k].0 as int, stack@[k].1 as int).state
                == CellState::Revealed && flood_reachable(
                g0,
                w as int,
                h as int,
                start.0,
                start.1,
                stack@[k].0 as int,
                stack@[k].1 as int,
            ) && ((stack@[k].0 as int == start.0 && stack@[k].1 as int == start.1) || cell(
                g0,
                w as int,
                stack@[k].0 as int,
                stack@[k].1 as int,
            ).state == CellState::Hidden) by {
                assert(stack@.push(top)[k] == stack@[k]);
            }
            assert(flood_inv(self@, g0, stack@, start.0, start.1));
        }
    }

    /// The flood fill: starting from a revealed zero cell (x, y), reveals
    /// all transitively connected hidden mine-free cells, stopping at (but
    /// revealing) numbered cells and leaving flagged and mine cells alone.
    /// Every cell it reveals is flood-reachable from the start, and when it
    /// returns no revealed zero cell of the flood still has a hidden
    /// mine-free neighbor.
    #[verifier::rlimit(100)]
    pub fn expand_safe_zone(&mut self, x: usize, y: usize)
        requires
            old(self)@.wf(),
            !old(self)@.pending,
            !old(self)@.over,
            !old(self)@.won,
            in_grid(old(self)@.w(), old(self)@.h(), x as int, y as int),
            !cell(old(self)@.cells, old(self)@.w(), x as int, y as int).is_mine,
            cell(old(self)@.cells, old(self)@.w(), x as int, y as int).adjacent_mines == 0,
            cell(old(self)@.cells, old(self)@.w(), x as int, y as int).state == CellState::Revealed,
        ensures
            final(self)@.wf(),
            final(self)@.config == old(self)@.config,
            final(self)@.over == old(self)@.over,
            final(self)@.won == old(self)@.won,
            final(self)@.pending == old(self)@.pending,
            layout_unchanged(old(self)@, final(self)@),
            forall|a: int, b: int|
                in_grid(old(self)@.w(), old(self)@.h(), a, b) ==> ((#[trigger] cell(
                    final(self)@.cells,
                    old(self)@.w(),
                    a,
                    b,
                )).state == cell(old(self)@.cells, old(self)@.w(), a, b).state || (cell(
                    old(self)@.cells,
                    old(self)@.w(),
                    a,
                    b,
                ).state == CellState::Hidden && !cell(old(self)@.cells, old(self)@.w(), a, b).is_mine
                    && cell(final(self)@.cells, old(self)@.w(), a, b).state == CellState::Revealed
                    && flood_reachable(
                    old(self)@.cells,
                    old(self)@.w(),
                    old(self)@.h(),
                    x as int,
                    y as int,
                    a,
                    b,
                ))),
            forall|a: int, b: int|
                in_grid(old(self)@.w(), old(self)@.h(), a, b) && #[trigger] zero_cell(
                    old(self)@.cells,
                    old(self)@.w(),
                    old(self)@.h(),
                    a,
                    b,
                ) && ((a == x as int && b == y as int) || (cell(
                    old(self)@.cells,
                    old(self)@.w(),
                    a,
                    b,
                ).state == CellState::Hidden && cell(final(self)@.cells, old(self)@.w(), a, b).state
                    == CellState::Revealed)) ==> no_hidden_safe_neighbor(
                    final(self)@.cells,
                    old(self)@.w(),
                    old(self)@.h(),
                    a,
                    b,
                ),
    {
        let ghost g0 = self@.cells;
        let ghost start = (x as int, y as int);
        let w = self.config.width;
        let h = self.config.height;
        let mut stack: Vec<(usize, usize)> = Vec::new();
        stack.push((x, y));
        proof {
            lemma_flood_reachable_self(g0, w as int, h as int, x as int, y as int);
            lemma_flat_bounds(w as int, h as int, x as int, y as int);
            assert(adj_ok_at(g0, w as int, h as int, x as int, y as int));
            assert(stack@[0] == (x, y));
            assert(flood_inv(self@, g0, stack@, x as int, y as int));
        }
        #[verifier::loop_isolation(true)]
        while stack.len() > 0
            invariant
                flood_inv(self@, g0, stack@, x as int, y as int),
                g0 == old(self)@.cells,
                self@.config == old(self)@.config,
                self@.over == old(self)@.over,
                self@.won == old(self)@.won,
                self@.pending == old(self)@.pending,
                w == self@.config.width,
                h == self@.config.height,
                in_grid(w as int, h as int, x as int, y as int),
                start == (x as int, y as int),
            decreases count_hidden(self@.cells), stack@.len(),
        {
            let ghost st0 = stack@;
            let ghost hid0 = count_hidden(self@.cells);
            proof {
                lemma_count_hidden_bounds(self@.cells);
            }
            let top = stack.pop().unwrap();
            let cx = top.0;
            let cy = top.1;
            proof {
                assert(st0 =~= stack@.push(top));
                assert(st0[st0.len() - 1] == top);
            }
            self.flood_round(&mut stack, top.0, top.1, Ghost(g0), Ghost(start));
            proof {
                lemma_count_hidden_bounds(self@.cells);
                if count_hidden(self@.cells) == hid0 {
                    assert(stack@.len() == st0.len() - 1);
                }
            }
        }
        proof {
            assert forall|a: int, b: int|
                in_grid(old(self)@.w(), old(self)@.h(), a, b) && #[trigger] zero_cell(
                    old(self)@.cells,
                    old(self)@.w(),
                    old(self)@.h(),
                    a,
                    b,
                ) && ((a == x as int && b == y as int) || (cell(
                    old(self)@.cells,
                    old(self)@.w(),
                    a,
                    b,
                ).state == CellState::Hidden && cell(self@.cells, old(self)@.w(), a, b).state
                    == CellState::Revealed)) implies no_hidden_safe_neighbor(
                self@.cells,
                old(self)@.w(),
                old(self)@.h(),
                a,
                b,
            ) by {
                assert(!contains_pos(stack@, a, b));
            }
            lemma_count_mines_congruent(self@.cells, g0);
            assert forall|a: int, b: int|
                in_grid(old(self)@.w(), old(self)@.h(), a, b) implies #[trigger] adj_ok_at(
                self@.cells,
                old(self)@.w(),
                old(self)@.h(),
                a,
                b,
            ) by {
                lemma_flat_bounds(old(self)@.w(), old(self)@.h(), a, b);
                assert(adj_ok_at(g0, old(self)@.w(), old(self)@.h(), a, b));
                lemma_adjacent_count_congruent(
                    g0,
                    self@.cells,
                    old(self)@.w(),
                    old(self)@.h(),
                    a,
                    b,
                );
            }
        }
    }
}

impl Minesweeper {
    /// The mine-free reveal: uncovers (x, y), floods when it is a zero
    /// cell, and evaluates the winning conditions.
    #[verifier::rlimit(100)]
    fn reveal_safe(&mut self, x: usize, y: usize)
        requires
            old(self)@.wf(),
            !old(self)@.pending,
            !old(self)@.over,
            !old(self)@.won,
            in_grid(old(self)@.w(), old(self)@.h(), x as int, y as int),
            cell(old(self)@.cells, old(self)@.w(), x as int, y as int).state
                != CellState::Revealed,
            !cell(old(self)@.cells, old(self)@.w(), x as int, y as int).is_mine,
        ensures
            final(self)@.wf(),
            final(self)@.config == old(self)@.config,
            final(self)@.pending == old(self)@.pending,
            !final(self)@.over,
            layout_unchanged(old(self)@, final(self)@),
            final(self)@.won == win_condition(final(self)@.cells),
            cell(final(self)@.cells, old(self)@.w(), x as int, y as int).state
                == CellState::Revealed,
            forall|a: int, b: int|
                in_grid(old(self)@.w(), old(self)@.h(), a, b) && !(a == x as int && b == y as int)
                    ==> {
                    ||| (#[trigger] cell(final(self)@.cells, old(self)@.w(), a, b)).state == cell(
                        old(self)@.cells,
                        old(self)@.w(),
                        a,
                        b,
                    ).state
                    ||| (cell(old(self)@.cells, old(self)@.w(), a, b).state == CellState::Hidden
                        && !cell(old(self)@.cells, old(self)@.w(), a, b).is_mine && cell(
                        final(self)@.cells,
                        old(self)@.w(),
                        a,
                        b,
                    ).state == CellState::Revealed && flood_reachable(
                        old(self)@.cells,
                        old(self)@.w(),
                        old(self)@.h(),
                        x as int,
                        y as int,
                        a,
                        b,
                    ))
                    ||| (final(self)@.won && cell(old(self)@.cells, old(self)@.w(), a, b).is_mine
                        && cell(final(self)@.cells, old(self)@.w(), a, b).state
                        == CellState::Flagged)
                },
            forall|a: int, b: int|
                in_grid(old(self)@.w(), old(self)@.h(), a, b) && #[trigger] zero_cell(
                    old(self)@.cells,
                    old(self)@.w(),
                    old(self)@.h(),
                    a,
                    b,
                ) && ((a == x as int && b == y as int) || (cell(
                    old(self)@.cells,
                    old(self)@.w(),
                    a,
                    b,
                ).state == CellState::Hidden && cell(final(self)@.cells, old(self)@.w(), a, b).state
                    == CellState::Revealed)) ==> no_hidden_safe_neighbor(
                    final(self)@.cells,
                    old(self)@.w(),
                    old(self)@.h(),
                    a,
                    b,
                ),
    {
        let ghost gplaced = old(self)@;
        let ghost w = old(self)@.w();
        let ghost h = old(self)@.h();
        let i = self.idx(x, y);
        let mut c = self.grid[i];
        c.state = CellState::Revealed;
        self.grid[i] = c;
        let ghost grev = self@;
        proof {
            assert(grev.cells == gplaced.cells.update(i as int, c));
            lemma_count_mines_congruent(grev.cells, gplaced.cells);
            assert forall|a: int, b: int| in_grid(w, h, a, b) implies #[trigger] adj_ok_at(
                grev.cells,
                w,
                h,
                a,
                b,
            ) by {
                lemma_flat_bounds(w, h, a, b);
                assert(adj_ok_at(gplaced.cells, w, h, a, b));
                lemma_adjacent_count_congruent(gplaced.cells, grev.cells, w, h, a, b);
            }
            assert(grev.wf());
        }
        if c.adjacent_mines == 0 {
            self.expand_safe_zone(x, y);
        }
        let ghost gflood = self@;
        self.check_win_condition();
        proof {
            let base = gplaced.cells;
            lemma_flat_bounds(w, h, x as int, y as int);
            assert(cell(grev.cells, w, x as int, y as int).state == CellState::Revealed);
            assert(!cell(grev.cells, w, x as int, y as int).is_mine);
            assert(cell(gflood.cells, w, x as int, y as int).state == CellState::Revealed);
            assert(!cell(gflood.cells, w, x as int, y as int).is_mine);
            assert(cell(self@.cells, w, x as int, y as int).state == CellState::Revealed);
            assert forall|a: int, b: int|
                in_grid(w, h, a, b) && !(a == x as int && b == y as int) implies {
                ||| (#[trigger] cell(self@.cells, w, a, b)).state == cell(base, w, a, b).state
                ||| (cell(base, w, a, b).state == CellState::Hidden && !cell(base, w, a, b).is_mine
                    && cell(self@.cells, w, a, b).state == CellState::Revealed && flood_reachable(
                    base,
                    w,
                    h,
                    x as int,
                    y as int,
                    a,
                    b,
                ))
                ||| (self@.won && cell(base, w, a, b).is_mine && cell(self@.cells, w, a, b).state
                    == CellState::Flagged)
            } by {
                lemma_flat_bounds(w, h, a, b);
                if flat(w, a, b) == i as int {
                    lemma_flat_injective(w, h, a, b, x as int, y as int);
                }
                assert(cell(base, w, a, b) == cell(gplaced.cells, w, a, b));
                assert(cell(grev.cells, w, a, b) == cell(gplaced.cells, w, a, b));
                if cell(gflood.cells, w, a, b).state != cell(grev.cells, w, a, b).state {
                    assert(cell(grev.cells, w, a, b).state == CellState::Hidden);
                    assert(!cell(grev.cells, w, a, b).is_mine);
                    assert(cell(gflood.cells, w, a, b).state == CellState::Revealed);
                    assert(flood_reachable(grev.cells, w, h, x as int, y as int, a, b));
                    lemma_flood_reachable_widen(
                        grev.cells,
                        gplaced.cells,
                        w,
                        h,
                        x as int,
                        y as int,
                        a,
                        b,
                    );
                    assert(flood_reachable(base, w, h, x as int, y as int, a, b));
                    assert(cell(self@.cells, w, a, b).state == CellState::Revealed);
                } else {
                    assert(cell(gflood.cells, w, a, b) == cell(gplaced.cells, w, a, b));
                    if self@.cells[flat(w, a, b)].state != gflood.cells[flat(w, a, b)].state {
                        assert(self@.won && cell(gflood.cells, w, a, b).is_mine);
                        assert(cell(self@.cells, w, a, b).state == CellState::Flagged);
                    }
                }
            }
            assert forall|a: int, b: int|
                in_grid(w, h, a, b) && #[trigger] zero_cell(base, w, h, a, b) && ((a == x as int && b
                    == y as int) || (cell(base, w, a, b).state == CellState::Hidden && cell(
                    self@.cells,
                    w,
                    a,
                    b,
                ).state == CellState::Revealed)) implies no_hidden_safe_neighbor(
                self@.cells,
                w,
                h,
                a,
                b,
            ) by {
                lemma_flat_bounds(w, h, a, b);
                if flat(w, a, b) == i as int {
                    lemma_flat_injective(w, h, a, b, x as int, y as int);
                }
                lemma_adjacent_count_congruent(base, grev.cells, w, h, a, b);
                assert(zero_cell(grev.cells, w, h, a, b));
                if c.adjacent_mines == 0 {
                    if !(a == x as int && b == y as int) {
                        assert(cell(grev.cells, w, a, b) == cell(gplaced.cells, w, a, b));
                        assert(cell(gflood.cells, w, a, b).state == cell(
                            self@.cells,
                            w,
                            a,
                            b,
                        ).state);
                    }
                    assert(no_hidden_safe_neighbor(gflood.cells, w, h, a, b));
                } else {
                    assert(adj_ok_at(gplaced.cells, w, h, x as int, y as int));
                    if a == x as int && b == y as int {
                        assert(adjacent_mine_count(base, w, h, a, b) != 0);
                        assert(false);
                    } else {
                        assert(cell(grev.cells, w, a, b) == cell(gplaced.cells, w, a, b));
                        assert(cell(gflood.cells, w, a, b) == cell(grev.cells, w, a, b));
                        assert(cell(gflood.cells, w, a, b).state == cell(
                            self@.cells,
                            w,
                            a,
                            b,
                        ).state);
                        assert(false);
                    }
                }
                assert forall|a2: int, b2: int|
                    #[trigger] is_neighbor(a, b, a2, b2) && in_grid(w, h, a2, b2) && !cell(
                        self@.cells,
                        w,
                        a2,
                        b2,
                    ).is_mine implies cell(self@.cells, w, a2, b2).state != CellState::Hidden by {
                    lemma_flat_bounds(w, h, a2, b2);
                    assert(cell(self@.cells, w, a2, b2).is_mine == cell(
                        gflood.cells,
                        w,
                        a2,
                        b2,
                    ).is_mine);
                }
            }
        }
    }

    /// Reveals the cell at (x, y).  Out-of-grid coordinates are refused; a
    /// terminal game or an already revealed target makes it a no-op.  The
    /// first move places the mines, so it never hits one.  Revealing a mine
    /// ends the game and uncovers the whole board except wrongly flagged
    /// cells; revealing a zero cell floods its connected safe region; any
    /// other reveal uncovers just the target.  Afterwards the winning
    /// conditions are evaluated.
    #[verifier::rlimit(100)]
    #[verifier::spinoff_prover]
    pub fn reveal_cell(&mut self, x: usize, y: usize) -> (r: Result<(), GameError>)
        requires
            old(self)@.wf(),
        ensures
            final(self)@.wf(),
            final(self)@.config == old(self)@.config,
            !in_grid(old(self)@.w(), old(self)@.h(), x as int, y as int) ==> r == Err::<(),
                GameError,
            >(GameError::OutOfBounds) && final(self)@ == old(self)@,
            in_grid(old(self)@.w(), old(self)@.h(), x as int, y as int) ==> r == Ok::<(),
                GameError,
            >(()),
            in_grid(old(self)@.w(), old(self)@.h(), x as int, y as int) && (old(self)@.over || old(
                self,
            )@.won || cell(old(self)@.cells, old(self)@.w(), x as int, y as int).state
                == CellState::Revealed) ==> final(self)@ == old(self)@,
            in_grid(old(self)@.w(), old(self)@.h(), x as int, y as int) && !old(self)@.over && !old(
                self,
            )@.won && cell(old(self)@.cells, old(self)@.w(), x as int, y as int).state
                != CellState::Revealed ==> {
                &&& !final(self)@.pending
                &&& (old(self)@.pending ==> !final(self)@.over && count_mines(final(self)@.cells)
                    == old(self)@.config.mine_count && (forall|a: int, b: int|
                    in_grid(old(self)@.w(), old(self)@.h(), a, b) && #[trigger] near(
                        x as int,
                        y as int,
                        a,
                        b,
                    ) ==> !cell(final(self)@.cells, old(self)@.w(), a, b).is_mine))
                &&& (!old(self)@.pending ==> layout_unchanged(old(self)@, final(self)@))
                &&& (!old(self)@.pending && cell(
                    old(self)@.cells,
                    old(self)@.w(),
                    x as int,
                    y as int,
                ).is_mine ==> final(self)@.over && final(self)@.won == old(self)@.won && (forall|
                    i: int,
                |
                    0 <= i < old(self)@.cells.len() ==> (#[trigger] final(self)@.cells[i]).state
                        == (if old(self)@.cells[i].state == CellState::Flagged && !old(
                        self,
                    )@.cells[i].is_mine {
                        CellState::Flagged
                    } else {
                        CellState::Revealed
                    })))
                &&& ((old(self)@.pending || !cell(
                    old(self)@.cells,
                    old(self)@.w(),
                    x as int,
                    y as int,
                ).is_mine) ==> {
                    &&& !final(self)@.over
                    &&& final(self)@.won == win_condition(final(self)@.cells)
                    &&& cell(final(self)@.cells, old(self)@.w(), x as int, y as int).state
                        == CellState::Revealed
                    &&& (forall|a: int, b: int|
                        in_grid(old(self)@.w(), old(self)@.h(), a, b) && !(a == x as int && b
                            == y as int) ==> {
                            let base = base_grid(old(self)@.cells, final(self)@.cells);
                            ||| (#[trigger] cell(final(self)@.cells, old(self)@.w(), a, b)).state
                                == cell(base, old(self)@.w(), a, b).state
                            ||| (cell(base, old(self)@.w(), a, b).state == CellState::Hidden
                                && !cell(base, old(self)@.w(), a, b).is_mine && cell(
                                final(self)@.cells,
                                old(self)@.w(),
                                a,
                                b,
                            ).state == CellState::Revealed && flood_reachable(
                                base,
                                old(self)@.w(),
                                old(self)@.h(),
                                x as int,
                                y as int,
                                a,
                                b,
                            ))
                            ||| (final(self)@.won && cell(base, old(self)@.w(), a, b).is_mine
                                && cell(final(self)@.cells, old(self)@.w(), a, b).state
                                == CellState::Flagged)
                        })
                    &&& (forall|a: int, b: int|
                        in_grid(old(self)@.w(), old(self)@.h(), a, b) && #[trigger] zero_cell(
                            base_grid(old(self)@.cells, final(self)@.cells),
                            old(self)@.w(),
                            old(self)@.h(),
                            a,
                            b,
                        ) && ((a == x as int && b == y as int) || (cell(
                            base_grid(old(self)@.cells, final(self)@.cells),
                            old(self)@.w(),
                            a,
                            b,
                        ).state == CellState::Hidden && cell(
                            final(self)@.cells,
                            old(self)@.w(),
                            a,
                            b,
                        ).state == CellState::Revealed)) ==> no_hidden_safe_neighbor(
                            final(self)@.cells,
                            old(self)@.w(),
                            old(self)@.h(),
                            a,
                            b,
                        ))
                })
            },
    {
        if x >= self.config.width || y >= self.config.height {
            return Err(GameError::OutOfBounds);
        }
        if self.game_over || self.game_won {
            return Ok(());
        }
        let i = self.idx(x, y);
        if matches!(self.grid[i].state, CellState::Revealed) {
            return Ok(());
        }
        if self.first_click {
            self.place_mines(x, y);
            self.first_click = false;
        }
        let ghost gplaced = self@;
        let ghost w = old(self)@.w();
        let ghost h = old(self)@.h();
        if self.grid[i].is_mine {
            proof {
                if old(self)@.pending {
                    assert(near(x as int, y as int, x as int, y as int));
                    assert(!cell(gplaced.cells, w, x as int, y as int).is_mine);
                }
            }
            self.game_over = true;
            let n = self.grid.len();
            let mut k: usize = 0;
            #[verifier::loop_isolation(true)]
            while k < n
                invariant
                    k <= n,
                    n == self@.cells.len(),
                    self@.cells.len() == gplaced.cells.len(),
                    self@.config == gplaced.config,
                    self@.over,
                    self@.won == gplaced.won,
                    self@.pending == gplaced.pending,
                    forall|j: int|
                        0 <= j < gplaced.cells.len() ==> (#[trigger] self@.cells[j]).is_mine
                            == gplaced.cells[j].is_mine && self@.cells[j].adjacent_mines
                            == gplaced.cells[j].adjacent_mines,
                    forall|j: int|
                        0 <= j < k ==> (#[trigger] self@.cells[j]).state == (
                        if gplaced.cells[j].state == CellState::Flagged
                            && !gplaced.cells[j].is_mine {
                            CellState::Flagged
                        } else {
                            CellState::Revealed
                        }),
                    forall|j: int|
                        k <= j < gplaced.cells.len() ==> (#[trigger] self@.cells[j])
                            == gplaced.cells[j],
                decreases n - k,
            {
                let c = self.grid[k];
                if !(matches!(c.state, CellState::Flagged) && !c.is_mine) {
                    let mut c2 = c;
                    c2.state = CellState::Revealed;
                    self.grid[k] = c2;
                }
                k = k + 1;
            }
            proof {
                lemma_count_mines_congruent(self@.cells, gplaced.cells);
                assert forall|a: int, b: int| in_grid(w, h, a, b) implies #[trigger] adj_ok_at(
                    self@.cells,
                    w,
                    h,
                    a,
                    b,
                ) by {
                    lemma_flat_bounds(w, h, a, b);
                    assert(adj_ok_at(gplaced.cells, w, h, a, b));
                    lemma_adjacent_count_congruent(gplaced.cells, self@.cells, w, h, a, b);
                }
            }
            return Ok(());
        }
        self.reveal_safe(x, y);
        proof {
            assert(base_grid(old(self)@.cells, self@.cells) =~= gplaced.cells);
            if old(self)@.pending {
                assert forall|a: int, b: int|
                    in_grid(w, h, a, b) && #[trigger] near(x as int, y as int, a, b) implies !cell(
                    self@.cells,
                    w,
                    a,
                    b,
                ).is_mine by {
                    lemma_flat_bounds(w, h, a, b);
                    assert(!cell(gplaced.cells, w, a, b).is_mine);
                }
            }
        }
        Ok(())
    }
}

/// How one mid-chord game state may relate to an earlier one: same
/// configuration and layout, terminal flags only ever set, and each cell
/// either kept its state, went hidden -> revealed, was uncovered by a
/// loss, or is a mine flagged by a win.
pub open spec fn chord_rel(a: GameView, b: GameView) -> bool {
    &&& b.config == a.config
    &&& b.pending == a.pending
    &&& b.cells.len() == a.cells.len()
    &&& layout_unchanged(a, b)
    &&& (a.over ==> b.over)
    &&& (a.won ==> b.won)
    &&& !(b.over && b.won)
    &&& (b.won && !a.won ==> win_condition(b.cells))
    &&& forall|i: int|
        0 <= i < a.cells.len() ==> ((#[trigger] b.cells[i]).state == a.cells[i].state || (
        a.cells[i].state == CellState::Hidden && b.cells[i].state == CellState::Revealed) || (b.over
            && !a.over && b.cells[i].state == CellState::Revealed) || (b.won
            && a.cells[i].is_mine && b.cells[i].state == CellState::Flagged))
}

impl Minesweeper {
    /// One probe of a chord-reveal: reveals the neighbor (nx, ny) unless it
    /// is currently flagged.
    #[verifier::rlimit(100)]
    fn chord_step(&mut self, nx: usize, ny: usize, Ghost(g0): Ghost<GameView>)
        requires
            old(self)@.wf(),
            g0.wf(),
            !g0.pending,
            chord_rel(g0, old(self)@),
            in_grid(g0.w(), g0.h(), nx as int, ny as int),
        ensures
            final(self)@.wf(),
            chord_rel(g0, final(self)@),
            chord_rel(old(self)@, final(self)@),
            old(self)@.over ==> final(self)@ == old(self)@,
            old(self)@.won ==> final(self)@ == old(self)@,
            !final(self)@.over && !final(self)@.won ==> (cell(
                g0.cells,
                g0.w(),
                nx as int,
                ny as int,
            ).state == CellState::Flagged || cell(
                final(self)@.cells,
                g0.w(),
                nx as int,
                ny as int,
            ).state == CellState::Revealed),
    {
        let ghost w = g0.w();
        let ghost h = g0.h();
        let j = self.idx(nx, ny);
        proof {
            lemma_flat_bounds(w, h, nx as int, ny as int);
        }
        if !matches!(self.grid[j].state, CellState::Flagged) {
            let ghost pre = self@;
            let r = self.reveal_cell(nx, ny);
            proof {
                let base = base_grid(pre.cells, self@.cells);
                if !pre.over && !pre.won && cell(pre.cells, w, nx as int, ny as int).state
                    != CellState::Revealed {
                    assert(base =~= pre.cells);
                }
                assert forall|i: int|
                    0 <= i < pre.cells.len() implies ((#[trigger] self@.cells[i]).state
                    == pre.cells[i].state || (pre.cells[i].state == CellState::Hidden
                    && self@.cells[i].state == CellState::Revealed) || (self@.over && !pre.over
                    && self@.cells[i].state == CellState::Revealed) || (self@.won
                    && pre.cells[i].is_mine && self@.cells[i].state == CellState::Flagged)) by {
                    let a = i % (w as int);
                    let b = i / (w as int);
                    vstd::arithmetic::div_mod::lemma_fundamental_div_mod(i, w as int);
                    assert(w > 0);
                    vstd::arithmetic::div_mod::lemma_mod_bound(i, w as int);
                    vstd::arithmetic::div_mod::lemma_div_pos_is_pos(i, w as int);
                    vstd::arithmetic::div_mod::lemma_div_is_ordered_by_denominator(i, 1, w as int);
                    assert(i == flat(w, a, b)) by (nonlinear_arith)
                        requires
                            i == w * b + a || i == b * w + a,
                    ;
                    assert(b < h) by (nonlinear_arith)
                        requires
                            0 <= i < w * h,
                            i == b * w + a,
                            0 <= a < w,
                            0 <= b,
                            w > 0,
                    ;
                    assert(in_grid(w, h, a, b));
                    assert(cell(self@.cells, w, a, b) == self@.cells[i]);
                }
            }
        }
    }

    /// Chord-reveal on a revealed numbered cell (x, y): when exactly as
    /// many neighbors are flagged as the cell's adjacency count, every
    /// non-flagged neighbor is revealed with full reveal semantics — a
    /// wrong flag layout can lose the game, and a completed board can win
    /// it.  Anything else is a no-op.
    #[verifier::rlimit(100)]
    pub fn chord_reveal(&mut self, x: usize, y: usize) -> (r: Result<(), GameError>)
        requires
            old(self)@.wf(),
        ensures
            final(self)@.wf(),
            final(self)@.config == old(self)@.config,
            !in_grid(old(self)@.w(), old(self)@.h(), x as int, y as int) ==> r == Err::<(),
                GameError,
            >(GameError::OutOfBounds) && final(self)@ == old(self)@,
            in_grid(old(self)@.w(), old(self)@.h(), x as int, y as int) ==> r == Ok::<(),
                GameError,
            >(()),
            in_grid(old(self)@.w(), old(self)@.h(), x as int, y as int) && (old(self)@.over || old(
                self,
            )@.won || cell(old(self)@.cells, old(self)@.w(), x as int, y as int).state
                != CellState::Revealed || cell(
                old(self)@.cells,
                old(self)@.w(),
                x as int,
                y as int,
            ).adjacent_mines == 0 || flagged_neighbor_count(
                old(self)@.cells,
                old(self)@.w(),
                old(self)@.h(),
                x as int,
                y as int,
            ) != cell(
                old(self)@.cells,
                old(self)@.w(),
                x as int,
                y as int,
            ).adjacent_mines as int) ==> final(self)@ == old(self)@,
            in_grid(old(self)@.w(), old(self)@.h(), x as int, y as int) && !old(self)@.over && !old(
                self,
            )@.won && cell(old(self)@.cells, old(self)@.w(), x as int, y as int).state
                == CellState::Revealed && cell(
                old(self)@.cells,
                old(self)@.w(),
                x as int,
                y as int,
            ).adjacent_mines > 0 && flagged_neighbor_count(
                old(self)@.cells,
                old(self)@.w(),
                old(self)@.h(),
                x as int,
                y as int,
            ) == cell(
                old(self)@.cells,
                old(self)@.w(),
                x as int,
                y as int,
            ).adjacent_mines as int ==> {
                &&& chord_rel(old(self)@, final(self)@)
                &&& !final(self)@.over && !final(self)@.won ==> (forall|a: int, b: int|
                    #[trigger] is_neighbor(x as int, y as int, a, b) && in_grid(
                        old(self)@.w(),
                        old(self)@.h(),
                        a,
                        b,
                    ) && cell(old(self)@.cells, old(self)@.w(), a, b).state != CellState::Flagged
                        ==> cell(final(self)@.cells, old(self)@.w(), a, b).state
                        == CellState::Revealed)
            },
    {
        if x >= self.config.width || y >= self.config.height {
            return Err(GameError::OutOfBounds);
        }
        if self.game_over || self.game_won {
            return Ok(());
        }
        let i = self.idx(x, y);
        let c = self.grid[i];
        if !matches!(c.state, CellState::Revealed) {
            return Ok(());
        }
        if c.adjacent_mines == 0 {
            return Ok(());
        }
        let fc = self.count_flagged_neighbors(x, y);
        if (fc as usize) != (c.adjacent_mines as usize) {
            return Ok(());
        }
        let ghost g0 = self@;
        let w = self.config.width;
        let h = self.config.height;
        if x > 0 && y > 0 {
            self.chord_step(x - 1, y - 1, Ghost(g0));
        }
        if y > 0 {
            self.chord_step(x, y - 1, Ghost(g0));
        }
        if x + 1 < w && y > 0 {
            self.chord_step(x + 1, y - 1, Ghost(g0));
        }
        if x > 0 {
            self.chord_step(x - 1, y, Ghost(g0));
        }
        if x + 1 < w {
            self.chord_step(x + 1, y, Ghost(g0));
        }
        if x > 0 && y + 1 < h {
            self.chord_step(x - 1, y + 1, Ghost(g0));
        }
        if y + 1 < h {
            self.chord_step(x, y + 1, Ghost(g0));
        }
        if x + 1 < w && y + 1 < h {
            self.chord_step(x + 1, y + 1, Ghost(g0));
        }
        proof {
            if !self@.over && !self@.won {
                assert forall|a: int, b: int|
                    #[trigger] is_neighbor(x as int, y as int, a, b) && in_grid(
                        g0.w(),
                        g0.h(),
                        a,
                        b,
                    ) && cell(g0.cells, g0.w(), a, b).state != CellState::Flagged implies cell(
                    self@.cells,
                    g0.w(),
                    a,
                    b,
                ).state == CellState::Revealed by {
                    lemma_flat_bounds(g0.w(), g0.h(), a, b);
                }
            }
        }
        Ok(())
    }
}

/// How one mid-chord-flag game state may relate to an earlier one: same
/// configuration, layout and loss flag, winning only ever set, and each
/// cell either kept its state, was flagged while hidden, or is a mine
/// flagged by a win.
pub open spec fn chord_flag_rel(a: GameView, b: GameView) -> bool {
    &&& b.config == a.config
    &&& b.pending == a.pending
    &&& b.cells.len() == a.cells.len()
    &&& layout_unchanged(a, b)
    &&& b.over == a.over
    &&& (a.won ==> b.won)
    &&& !(b.over && b.won)
    &&& (b.won && !a.won ==> win_condition(b.cells))
    &&& forall|i: int|
        0 <= i < a.cells.len() ==> ((#[trigger] b.cells[i]).state == a.cells[i].state || (
        a.cells[i].state == CellState::Hidden && b.cells[i].state == CellState::Flagged) || (b.won
            && a.cells[i].is_mine && b.cells[i].state == CellState::Flagged))
}

impl Minesweeper {
    /// One probe of a chord-flag: flags the neighbor (nx, ny) if it is
    /// still hidden.
    #[verifier::rlimit(100)]
    fn chord_flag_step(&mut self, nx: usize, ny: usize, Ghost(g0): Ghost<GameView>)
        requires
            old(self)@.wf(),
            g0.wf(),
            !g0.pending,
            chord_flag_rel(g0, old(self)@),
            in_grid(g0.w(), g0.h(), nx as int, ny as int),
        ensures
            final(self)@.wf(),
            chord_flag_rel(g0, final(self)@),
            chord_flag_rel(old(self)@, final(self)@),
            old(self)@.over ==> final(self)@ == old(self)@,
            old(self)@.won ==> final(self)@ == old(self)@,
            !final(self)@.won && !final(self)@.over ==> (cell(
                g0.cells,
                g0.w(),
                nx as int,
                ny as int,
            ).state != CellState::Hidden || cell(
                final(self)@.cells,
                g0.w(),
                nx as int,
                ny as int,
            ).state == CellState::Flagged),
    {
        let ghost w = g0.w();
        let ghost h = g0.h();
        let j = self.idx(nx, ny);
        proof {
            lemma_flat_bounds(w, h, nx as int, ny as int);
        }
        if matches!(self.grid[j].state, CellState::Hidden) {
            let ghost pre = self@;
            let r = self.toggle_flag(nx, ny);
            proof {
                assert(cell(pre.cells, w, nx as int, ny as int).state == CellState::Hidden);
                assert forall|i: int|
                    0 <= i < pre.cells.len() implies ((#[trigger] self@.cells[i]).state
                    == pre.cells[i].state || (pre.cells[i].state == CellState::Hidden
                    && self@.cells[i].state == CellState::Flagged) || (self@.won
                    && pre.cells[i].is_mine && self@.cells[i].state == CellState::Flagged)) by {
                    if !pre.over && !pre.won {
                        if i == flat(w, nx as int, ny as int) {
                            assert(cell(self@.cells, w, nx as int, ny as int) == self@.cells[i]);
                        }
                    }
                }
            }
        }
    }

    /// Chord-flag on a revealed numbered cell (x, y): when exactly as many
    /// neighbors are unrevealed as the cell's adjacency count, every still
    /// hidden neighbor is flagged, each flag following the usual toggle
    /// semantics.  Anything else is a no-op.
    #[verifier::rlimit(100)]
    pub fn chord_flag(&mut self, x: usize, y: usize) -> (r: Result<(), GameError>)
        requires
            old(self)@.wf(),
        ensures
            final(self)@.wf(),
            final(self)@.config == old(self)@.config,
            !in_grid(old(self)@.w(), old(self)@.h(), x as int, y as int) ==> r == Err::<(),
                GameError,
            >(GameError::OutOfBounds) && final(self)@ == old(self)@,
            in_grid(old(self)@.w(), old(self)@.h(), x as int, y as int) ==> r == Ok::<(),
                GameError,
            >(()),
            in_grid(old(self)@.w(), old(self)@.h(), x as int, y as int) && (old(self)@.over || old(
                self,
            )@.won || cell(old(self)@.cells, old(self)@.w(), x as int, y as int).state
                != CellState::Revealed || cell(
                old(self)@.cells,
                old(self)@.w(),
                x as int,
                y as int,
            ).adjacent_mines == 0 || unrevealed_neighbor_count(
                old(self)@.cells,
                old(self)@.w(),
                old(self)@.h(),
                x as int,
                y as int,
            ) != cell(
                old(self)@.cells,
                old(self)@.w(),
                x as int,
                y as int,
            ).adjacent_mines as int) ==> final(self)@ == old(self)@,
            in_grid(old(self)@.w(), old(self)@.h(), x as int, y as int) && !old(self)@.over && !old(
                self,
            )@.won && cell(old(self)@.cells, old(self)@.w(), x as int, y as int).state
                == CellState::Revealed && cell(
                old(self)@.cells,
                old(self)@.w(),
                x as int,
                y as int,
            ).adjacent_mines > 0 && unrevealed_neighbor_count(
                old(self)@.cells,
                old(self)@.w(),
                old(self)@.h(),
                x as int,
                y as int,
            ) == cell(
                old(self)@.cells,
                old(self)@.w(),
                x as int,
                y as int,
            ).adjacent_mines as int ==> {
                &&& chord_flag_rel(old(self)@, final(self)@)
                &&& !final(self)@.won ==> (forall|a: int, b: int|
                    #[trigger] is_neighbor(x as int, y as int, a, b) && in_grid(
                        old(self)@.w(),
                        old(self)@.h(),
                        a,
                        b,
                    ) && cell(old(self)@.cells, old(self)@.w(), a, b).state == CellState::Hidden
                        ==> cell(final(self)@.cells, old(self)@.w(), a, b).state
                        == CellState::Flagged)
            },
    {
        if x >= self.config.width || y >= self.config.height {
            return Err(GameError::OutOfBounds);
        }
        if self.game_over || self.game_won {
            return Ok(());
        }
        let i = self.idx(x, y);
        let c = self.grid[i];
        if !matches!(c.state, CellState::Revealed) {
            return Ok(());
        }
        if c.adjacent_mines == 0 {
            return Ok(());
        }
        let uc = self.count_unrevealed_neighbors(x, y);
        if (uc as usize) != (c.adjacent_mines as usize) {
            return Ok(());
        }
        let ghost g0 = self@;
        let w = self.config.width;
        let h = self.config.height;
        if x > 0 && y > 0 {
            self.chord_flag_step(x - 1, y - 1, Ghost(g0));
        }
        if y > 0 {
            self.chord_flag_step(x, y - 1, Ghost(g0));
        }
        if x + 1 < w && y > 0 {
            self.chord_flag_step(x + 1, y - 1, Ghost(g0));
        }
        if x > 0 {
            self.chord_flag_step(x - 1, y, Ghost(g0));
        }
        if x + 1 < w {
            self.chord_flag_step(x + 1, y, Ghost(g0));
        }
        if x > 0 && y + 1 < h {
            self.chord_flag_step(x - 1, y + 1, Ghost(g0));
        }
        if y + 1 < h {
            self.chord_flag_step(x, y + 1, Ghost(g0));
        }
        if x + 1 < w && y + 1 < h {
            self.chord_flag_step(x + 1, y + 1, Ghost(g0));
        }
        proof {
            if !self@.won {
                assert forall|a: int, b: int|
                    #[trigger] is_neighbor(x as int, y as int, a, b) && in_grid(
                        g0.w(),
                        g0.h(),
                        a,
                        b,
                    ) && cell(g0.cells, g0.w(), a, b).state == CellState::Hidden implies cell(
                    self@.cells,
                    g0.w(),
                    a,
                    b,
                ).state == CellState::Flagged by {
                    lemma_flat_bounds(g0.w(), g0.h(), a, b);
                }
            }
        }
        Ok(())
    }
}

/// A grid of `width * height` default cells.
fn fresh_grid(config: GameConfig) -> (grid: Vec<Cell>)
    requires
        valid_config(config),
    ensures
        grid@.len() == config.width * config.height,
        forall|i: int| 0 <= i < grid@.len() ==> (#[trigger] grid@[i]) == default_cell(),
{
    let total = config.width * config.height;
    let mut grid: Vec<Cell> = Vec::new();
    let mut i: usize = 0;
    while i < total
        invariant
            i <= total,
            grid@.len() == i,
            forall|j: int| 0 <= j < i ==> (#[trigger] grid@[j]) == default_cell(),
        decreases total - i,
    {
        grid.push(Cell::default());
        i = i + 1;
    }
    grid
}

} // verus!
