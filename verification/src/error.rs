//! Error values reported by the builders, the hierarchy parser and the
//! aggregate queries. All failures are distinct, inspectable variants;
//! none are silently swallowed.
use vstd::prelude::*;

verus! {

/// Everything that can go wrong in this crate.
#[derive(Clone, Copy, Debug, PartialEq, Eq, Structural)]
pub enum Error {
    /// An ingredient id at or above the declared ingredient count was seen
    /// while expanding a recipe list.
    InvalidIngredientId,
    /// The assignment stream of the community-detection pass was unparsable,
    /// or its length does not split evenly into levels.
    MalformedHierarchyStream,
    /// A level beyond the available interpolation matrices was requested.
    LevelOutOfRange,
    /// Reading or writing an external text artifact failed (surfaced by the
    /// embedding caller; nothing in this crate performs I/O itself).
    IoFailure,
}

} // verus!
