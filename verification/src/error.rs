//! The substrate's error kinds.

use vstd::prelude::*;

verus! {

/// What can go wrong inside the substrate.
///
/// Construction rejects malformed or tiling-incompatible dimension vectors
/// (`Dimension`, `Topology`); index arithmetic rejects a coordinate vector
/// whose length disagrees with the lattice's dimensionality
/// (`CoordinateMismatch`); a bounded neighbor store rejects an insertion past
/// its capacity (`Capacity`). `Lock` is reserved for update rules whose own
/// state sits behind a synchronization primitive that may fail; the arena
/// representation used here never raises it itself.
#[derive(Clone, Copy, Debug, PartialEq, Eq, Structural)]
pub enum Error {
    /// Shared or exclusive access to a store could not be obtained.
    Lock,
    /// A dimension vector is malformed: empty, or with a zero extent.
    Dimension,
    /// A dimension vector is incompatible with the chosen tiling.
    Topology,
    /// A coordinate vector's length disagrees with the dimensionality.
    CoordinateMismatch,
    /// A bounded neighbor store is full.
    Capacity,
}

} // verus!
