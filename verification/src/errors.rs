//! The library's error type.

use vstd::prelude::*;

verus! {

/// Integrity failure raised by tree materialization: an edge refers to an
/// item identifier that is absent from the item collection handed in.
#[derive(Debug)]
pub struct TodoofusError {
    pub parent_id: i64,
    pub child_id: i64,
}

impl TodoofusError {
    /// A human-readable description of the failure.
    pub fn message(&self) -> (r: String)
        ensures
            r@ == "edge references an item absent from the item set"@,
    {
        "edge references an item absent from the item set".to_owned()
    }
}

} // verus!
