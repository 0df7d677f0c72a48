pub mod cell;
pub mod game;

pub use cell::{Cell, CellValue};
pub use game::{Game, OutOfBounds, Pos, Status};
