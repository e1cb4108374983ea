//! The entity handle: generational indices.

use vstd::prelude::*;

verus! {

/// A handle to an entity: a pair of recycled indices plus the generation
/// that invalidates stale handles. At any instant an (index, version) pair
/// identifies at most one live entity; when an index is recycled by the
/// allocator, the world layer bumps the version so that handles to the
/// despawned entity no longer match.
#[derive(Copy, Clone, Debug, PartialEq, Eq, Structural, Hash, PartialOrd, Ord)]
pub struct Entity {
    /// The index into the owning world shard's storages.
    pub local_index: u32,
    /// The index into the shared world's storages.
    pub global_index: u32,
    /// The entity's version, incremented on index reuse.
    pub version: u32,
}

impl Entity {
    /// Creates an entity handle from its indices and version.
    pub fn new(local_index: u32, global_index: u32, version: u32) -> (r: Self)
        ensures
            r.local_index == local_index,
            r.global_index == global_index,
            r.version == version,
    {
        Entity { local_index, global_index, version }
    }
}

} // verus!
