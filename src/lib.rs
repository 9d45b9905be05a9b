pub mod position;
pub mod solver;

pub use position::Position6;
pub use solver::AlphaBetaLevel6Solver;
