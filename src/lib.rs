//! Level generation and turn sequencing for a turn-based dungeon crawler.
//!
//! The grid, its distance maps, the layout strategies, the prefab overlay,
//! spawn placement, the level builder and the turn state machine are
//! verified; randomness comes from `bevy_turborand` through the trusted
//! wrappers in `rng`.

pub mod position;
pub mod grid;
pub mod distance;
pub mod rng;
pub mod architect;
pub mod prefab;
pub mod spawn;
pub mod level;
pub mod turn;
pub mod monsters;
