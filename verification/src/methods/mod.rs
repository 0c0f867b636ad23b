//! The optimization methods.

use vstd::prelude::*;

pub mod sbpso;

verus! {

/// Method errors.
#[derive(Debug)]
pub enum SolverError {
    /// A parameter is out of its range; the text says which and why.
    InvalidParameters(String),
}

} // verus!
