//! Maze graphs and the solvers that search them.
//!
//! A [`maze::Maze`] is a graph of the traversable cells of a bitmap, with one
//! entrance and one exit. Every solver in [`algorithms`] reads such a maze and
//! returns a route between the two together with a count of the search effort.

pub mod node;
pub mod maze;
pub mod grid;
pub mod algorithms;
pub mod cli;
pub mod utils;
