//! Solver library for "The Artisan of Glimmith" grid-division puzzles:
//! grid geometry, polyomino shapes, a parity union-find, the puzzle text
//! format, and the solver's edge state with its constraint propagators.
pub mod ascii;
pub mod types;
pub mod grid;
pub mod uf;
pub mod polyomino;
pub mod orientations;
pub mod text;
pub mod parser;
pub mod solver;
pub mod formatter;
pub mod parse_output;
pub mod dlx;
