pub mod color;
pub mod rules;
pub mod solver;
pub mod tilebox;

pub use color::Color;
pub use solver::Solver;
pub use tilebox::TileBox;
