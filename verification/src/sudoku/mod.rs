pub mod domain;
pub mod draw;
pub mod format;
pub mod solution;
pub mod solver;
pub mod techniques;
