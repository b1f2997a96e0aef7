#![verifier::loop_isolation(false)]

mod cell;
mod game;
mod model;
mod rng;

pub use cell::Cell;
pub use cell::CellState;
pub use cell::CellView;
pub use cell::GameConfig;
pub use cell::GameError;
pub use game::GameView;
pub use game::Minesweeper;
