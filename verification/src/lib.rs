//! A verified core for a lambda-calculus puzzle game: directions on a grid,
//! lambda terms with combinator factories and reduction, their printed form,
//! and the block layout ("mino") that draws a term.

pub mod helper;
pub mod term;
pub mod lambda;
pub mod laws;
pub mod show;
pub mod colmap;
pub mod mino;
pub mod placement;
pub mod constants;
pub mod board;
