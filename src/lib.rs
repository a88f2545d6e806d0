//! Simulation core of a grid-based dungeon crawler: maze generation, the
//! room grid, entities and the turn engine.
pub mod cell;
pub mod dungeon;
pub mod chest;
pub mod entity;
pub mod error;
pub mod maze;
pub mod pathfinding;
pub mod player;
mod rng;
mod text;
