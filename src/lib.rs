//! Ant-colony clustering on a toroidal grid.
//!
//! Agents wander a wrapping grid, picking up and dropping labelled items so
//! that similar items gather into clusters. Coordinates of items are integers
//! in a fixed unit chosen by the caller, and densities and probabilities are
//! fixed-point values where `UNIT` stands for one.
//!
//! - `item`: items, cell positions and the distance between items.
//! - `grid`: the toroidal grid, its windows, and the multiset of items it holds.
//! - `density`: how tightly similar items crowd around a reference item.
//! - `agent`: the agents' decisions (pick up, drop) and their moves.
//! - `sim`: rounds over all agents, the drain at the end of a run, and the
//!   conservation of items.

pub mod agent;
pub mod density;
pub mod grid;
pub mod item;
mod random;
pub mod sim;

pub use agent::{Agent, AgentConfig, AgentStates, MAX_K};
pub use density::get_density;
pub use grid::{Grid, MAX_RADIUS};
pub use item::{Item, Point, UNIT};
pub use sim::{Sim, SimConfig, SimState};
