//! Identities of entities.

use vstd::prelude::*;

verus! {

/// Identity of an entity. It carries no data; zero is never handed out.
pub type EntityId = u64;

} // verus!
