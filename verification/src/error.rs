//! The single failure value surfaced by a run.

use vstd::prelude::*;

verus! {

/// A descriptive, fatal error: the input could not be accepted, or a
/// resource could not be obtained. No partial results accompany it.
#[derive(Debug)]
pub struct BrcError {
    pub message: String,
}

impl BrcError {
    pub fn new(message: String) -> (r: BrcError)
        ensures
            r.message == message,
    {
        BrcError { message }
    }

    /// The human-readable description, for the embedding program to print.
    pub fn message(&self) -> (r: &String)
        ensures
            r == &self.message,
    {
        &self.message
    }
}

/// Result alias used by the run-level entry points.
pub type BrcResult<T> = Result<T, BrcError>;

} // verus!
