use vstd::prelude::*;

verus! {

/// How `try_set` treats the generation of the identifier it is given.
#[derive(Debug, Clone, Copy, PartialEq, Eq, Structural)]
pub enum GenerationPolicy {
    /// The identifier must carry the slot's current generation.
    Enforced,
    /// Any generation is accepted and recorded as the slot's generation.
    CallerAsserted,
}

/// How a container keeps track of its occupied slots.
#[derive(Debug, Clone, Copy, PartialEq, Eq, Structural)]
pub enum Layout {
    /// Occupied slots are chained in ascending order of index: an insertion
    /// walks the chain to find its place, and a traversal visits only
    /// occupied slots.
    Ordered,
    /// No chain: an insertion touches only its own slot, and a traversal
    /// scans every slot, skipping the empty ones.
    Flat,
}

} // verus!
