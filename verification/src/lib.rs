//! A solver for square-of-squares number-place puzzles.
//!
//! A puzzle of block size `k` is played on a grid of `k * k` by `k * k` cells;
//! every row, every column and every `k` by `k` block must hold each number
//! from `1` to `k * k` exactly once. The block size is a `u8` type parameter,
//! so the number of cells of a grid always fits in a `usize`.

pub mod cell;
pub mod error;
pub mod grid;
mod private;
pub mod size;
pub mod text;
