//! A fixed-capacity slot map whose identifiers carry a generation, so that an
//! identifier issued for an earlier occupancy of a slot no longer reaches it.
//!
//! The caller chooses the index of each new value; the container validates
//! and records. Two layouts share one contract: in the ordered layout the
//! occupied slots are chained in ascending order of index, so that a walk
//! visits only them; in the flat layout a walk scans every slot. Either way,
//! walks yield entries in ascending order of index.
//!
//! Every operation is specified over the abstract state in [`model`], and
//! [`laws`] proves properties that relate several operations.
pub mod config;
pub mod error;
pub mod id;
pub mod iter;
pub mod laws;
pub mod model;
pub mod slot;

pub use config::{GenerationPolicy, Layout};
pub use error::SparseSlotError;
pub use id::Id;
pub use iter::{Drain, IntoIter, Iter, IterMut, Keys, Values, ValuesMut};
pub use slot::SparseSlot;
