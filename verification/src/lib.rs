//! A solver of nonograms: puzzles in which the runs of colors in every row
//! and column of a picture are given, and the picture is to be found.
//!
//! A line is solved by skimming and by scrubbing (`line_solve`); a grid by
//! running the two on the line that promises most until nothing more is to be
//! had (`grid_solve`). What an arrangement of clues in a line is, and what the
//! two deductions make of a line, is told in `arrangement`; that they lose no
//! arrangement, in `deduction`; what a whole solve makes of a grid, in
//! `schedule`. `laws` holds what follows for the solver as a whole.

pub mod ambiguity;
pub mod arrangement;
pub mod bits;
pub mod deduction;
pub mod document;
pub mod formats;
pub mod grid;
pub mod grid_solve;
pub mod import;
pub mod laws;
pub mod line_solve;
pub mod measure;
pub mod puzzle;
pub mod quality;
pub mod schedule;
