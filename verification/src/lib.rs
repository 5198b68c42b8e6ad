//! A two-dimensional grid container with pluggable backing storage, plus a
//! text-map loader that populates a grid from an ASCII map description.
//!
//! The [`grid::Grid`] trait is the capability contract for addressable,
//! iterable 2D storage; [`grid1::Grid1`] realizes it over one contiguous
//! row-major buffer; [`game::populate_grid`] builds any conforming grid from
//! newline-separated map text.

pub mod game;
pub mod grid;
pub mod grid1;
