//! A grid-based sokoban-style puzzle engine: a player pushes tagged crates
//! onto matching tagged target cells on a bounded 2-D grid. The level
//! generator and the movement engine are verified; window setup, textures and
//! keyboard capture are outside collaborators that talk to the core through
//! plain values.


pub mod entity;
pub mod game;
pub(crate) mod gen;
pub mod matrix;
pub mod position;
pub(crate) mod rng;
pub mod score;
