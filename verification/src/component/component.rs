//! Keys of component types and of resource types.

use vstd::prelude::*;

verus! {

/// Stable identifier of a component type or of a resource type.
///
/// Two values filed under the same key belong to the same component type.
pub type TypeKey = u64;

} // verus!
