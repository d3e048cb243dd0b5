use vstd::prelude::*;

verus! {

/// The generation that follows `g`: one more, wrapping from 255 back to 0.
///
/// Because the counter wraps, a slot that has been vacated exactly 256 times
/// accepts an identifier of its first occupancy again. That is an accepted
/// limit of an 8-bit counter, not something the container tries to hide.
pub open spec fn next_generation(g: u8) -> u8 {
    if g == u8::MAX {
        0u8
    } else {
        (g + 1) as u8
    }
}

/// A handle to a slot: its position and the generation it was issued for.
///
/// Identifiers compare and order by index first, then by generation.
#[derive(Debug, Clone, Copy, PartialEq, Eq, Structural, PartialOrd, Ord, Hash)]
pub struct Id {
    pub index: usize,
    pub generation: u8,
}

impl Id {
    pub fn new(index: usize, generation: u8) -> (r: Self)
        ensures
            r.index == index,
            r.generation == generation,
    {
        Id { index, generation }
    }

    pub fn index(&self) -> (r: usize)
        ensures
            r == self.index,
    {
        self.index
    }

    pub fn generation(&self) -> (r: u8)
        ensures
            r == self.generation,
    {
        self.generation
    }

    /// The identifier for the next occupancy of the same slot.
    pub fn next(&self) -> (r: Self)
        ensures
            r.index == self.index,
            r.generation == next_generation(self.generation),
    {
        Id { index: self.index, generation: self.generation.wrapping_add(1) }
    }
}

impl From<((usize, u8),)> for Id {
    fn from(pair: ((usize, u8),)) -> (r: Self) {
        let ((index, generation),) = pair;
        Id { index, generation }
    }
}

impl vstd::std_specs::convert::FromSpecImpl<((usize, u8),)> for Id {
    open spec fn obeys_from_spec() -> bool {
        true
    }

    open spec fn from_spec(pair: ((usize, u8),)) -> Id {
        Id { index: pair.0.0, generation: pair.0.1 }
    }
}

} // verus!
