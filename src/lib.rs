//! Perfect grid mazes: a grid of cells with static neighbours, six generators that carve
//! a spanning tree of passages through it, breadth-first distances and a shortest-path
//! solver, and text and pixel drawings of the result.

pub mod cell;
pub mod distances;
pub mod generators;
pub mod grid;
pub mod image;
pub mod mask;
pub mod maze;
pub mod pattern;
pub mod random;
pub mod render;
pub mod solvers;

pub use cell::{Cell, CellHandle};
pub use distances::{distances, Distances};
pub use grid::Grid;
pub use mask::Mask;
