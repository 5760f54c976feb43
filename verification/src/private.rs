use vstd::prelude::*;

verus! {

/// Marker that keeps the region reader trait closed to the readers of this crate.
pub trait Sealed {}

} // verus!
