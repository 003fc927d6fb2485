//! Conway's Game of Life on a finite square board with hard edges.
//!
//! A [`World`] holds one generation of [`Tile`]s, and [`World::tick`]
//! replaces it by the next: a live cell stays alive with two or three live
//! neighbours, a dead cell comes alive with exactly three, and the positions
//! beyond the edge of the board count as empty. [`Generation`] is the
//! mathematical model that the contracts speak of, and [`loader`] reads a
//! board from its text form.

pub mod cell;
pub mod generation;
pub mod loader;
pub mod world;

pub use cell::Tile;
pub use generation::Generation;
pub use world::World;
