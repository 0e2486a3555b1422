//! Per-turn decision engine for a grid-conquest game: a distance field to
//! the contestable territory, a movement planner and a spawn planner.

pub mod grid;
pub mod distance;
pub mod actions;
pub mod movement;
pub mod rng;
pub mod spawn;
pub mod turn;
