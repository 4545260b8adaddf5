//! Error type shared by every structure of the library.

use vstd::prelude::*;

verus! {

/// What can go wrong when a structure is asked to do something.
#[derive(Debug, Clone)]
pub enum DsavError {
    /// An index past the end of the structure.
    IndexOutOfBounds { index: usize, size: usize },
    /// A removal or a peek on an empty structure.
    EmptyStructure,
    /// An addition to a structure that has reached its capacity.
    Full { capacity: usize },
    /// A value that is not in the structure.
    NotFound { value: i32 },
    /// An operation that the structure cannot perform in its current state.
    InvalidState { reason: String },
    /// An operation that the structure does not support.
    Visualization(String),
}

} // verus!
