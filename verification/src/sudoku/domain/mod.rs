pub mod cell;
pub mod cell_grid;
pub mod consts;
pub mod game;
pub mod puzzle;
pub mod units;
pub mod validatable_units;
