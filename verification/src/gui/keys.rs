//! The names under which the theme is kept in the environment.

use vstd::prelude::*;

verus! {

/// The names of the theme's entries.
pub struct Keys;

impl Keys {
    /// The width of the border of a cell.
    pub const CELL_BORDER_WIDTH: &'static str = "dev.config.gui.cell-border-width";

    /// The background of the window.
    pub const THEME_BG: &'static str = "dev.config.theme.bg";

    /// The background of the grid.
    pub const THEME_GRID_BG: &'static str = "dev.config.theme.grid-bg";

    /// The colour of the digits.
    pub const THEME_CELL_FG: &'static str = "dev.config.theme.cell-fg";

    /// The background of a cell.
    pub const THEME_CELL_BG: &'static str = "dev.config.theme.cell-bg";

    /// The background of the cell that has the focus.
    pub const THEME_CELL_BG_FOCUSED: &'static str = "dev.config.theme.cell-bg-focused";

    /// The background of a cell that the puzzle gives.
    pub const THEME_CELL_BG_FIXED: &'static str = "dev.config.theme.cell-bg-fixed";

    /// The colour of the border of a cell.
    pub const THEME_CELL_BORDER: &'static str = "dev.config.theme.cell-border";
}

} // verus!
