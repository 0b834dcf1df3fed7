//! The things that carry stats.

use vstd::prelude::*;

verus! {

/// The identifier of an entity. The library only compares identifiers.
pub type Entity = u64;

} // verus!
