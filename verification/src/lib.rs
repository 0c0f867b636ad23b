//! Order batching: the instance format, the greedy order selection and the
//! set operations of set-based particle swarm optimization.

pub mod entries;
pub mod error;
pub mod laws;
pub mod methods;
pub mod number;
pub mod parse;
pub mod problem;
pub mod seeds;
pub mod supply;
pub mod text;

pub use problem::Problem;
