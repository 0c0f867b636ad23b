//! The parts of set-based particle swarm optimization that decide on sets
//! and item counts: positions, velocities and the tournament that adds aisles.

pub mod position;
pub mod sampling;
pub mod tournament;
pub mod velocity;
