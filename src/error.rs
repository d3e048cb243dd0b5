use vstd::prelude::*;

verus! {

/// Why an insertion was refused.
#[derive(Debug, Clone, Copy, PartialEq, Eq, Structural)]
pub enum SparseSlotError {
    /// The index is not below the capacity; carries the index.
    IndexOutOfBounds(usize),
    /// The slot already holds a value; carries the index.
    Occupied(usize),
    /// The container enforces generations and the identifier does not carry
    /// the slot's current one; carries the slot's generation.
    GenerationMismatch(u8),
    /// Reserved; no operation reports it.
    IllegalZeroGeneration,
}

} // verus!
