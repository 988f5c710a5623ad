//! Mazes over triangular, quadrilateral and hexagonal rooms, with exact
//! integer geometry and a weighted Voronoi initialiser.
//!
//! - `matrix`: positions and dense matrices.
//! - `physical`: physical positions on the integer lattice of a shape.
//! - `shape`: the wall tables of each shape, backs, opposites, centres,
//!   the room and the wall at a physical position, view boxes and rings.
//! - `maze`: rooms whose walls are opened and closed together with their
//!   backs, and connectivity between neighbours.
//! - `follow`: walking along the boundary of open areas, and the walls that
//!   meet at a corner.
//! - `touch`: the rooms that a rectangle touches.
//! - `initialize`: generation methods and the source of randomness.
//! - `voronoi`: the weighted Voronoi initialiser that gives every method a
//!   region and connects the regions.
//! - `walk`: paths between rooms and heat maps of them.

pub mod matrix;
pub mod physical;
pub mod shape;
pub mod maze;
pub mod initialize;
pub mod voronoi;
pub mod follow;
pub mod touch;
pub mod walk;

pub use crate::maze::{Maze, MazeType};
pub use crate::shape::Shape;
