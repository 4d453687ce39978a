//! The state behind the playing grid: what each cell shows, where the focus
//! goes, and what a key or a click does to the board.

pub mod board;
pub mod cell;
pub mod gridcell;
pub mod keys;

pub use board::Board;
pub use cell::CellValue;
pub use gridcell::{Arrow, CellEvent, CellPosition, CellShade, FocusChange};
pub use keys::Keys;
