//! A compact, fixed-capacity layout experiment: cells of one patch live in a
//! flat array, and each cell's neighbors are at most six slots in a shared
//! table, closed off by a sentinel.

use vstd::prelude::*;

use std::collections::HashMap;
use std::rc::Rc;

use crate::error::Error;

verus! {

/// One patch holds at most this many cells; the value doubles as the
/// "no neighbor" sentinel in the slot table.
pub const PATCH_SIZE: u8 = 0xFF;

/// The patch capacity as a count.
pub const PATCH_CELLS: usize = 255;

/// Six neighbor slots for each cell of a patch.
pub const NEIGHBOR_SLOTS: usize = 6 * PATCH_CELLS;

/// A neighbor store: who is next to whom, by cell index within a patch.
pub trait Neigbors: Sized {
    /// The store's own validity: what its constructors establish and its
    /// operations preserve.
    spec fn inv(&self) -> bool;

    /// An iterator over the neighbors recorded for `index`.
    fn neighbors<'a>(&'a self, index: u8) -> (r: NeighborIterator<'a>)
        requires
            self.inv(),
            (index as int) < PATCH_CELLS,
    ;

    /// Records `neighbor_index` as a neighbor of `index`, idempotently,
    /// returning the number of neighbors `index` then has.
    fn add(&mut self, index: u8, neighbor_index: u8) -> (r: Result<u8, Error>)
        requires
            old(self).inv(),
            (index as int) < PATCH_CELLS,
        ensures
            final(self).inv(),
    ;
}

/// A generation's worth of patches, keyed by generation, with an adjacency
/// table between patches.
#[allow(dead_code)]
pub struct Inflexible<S: Copy, N: Neigbors> {
    adjacent: Vec<HashMap<u8, usize>>,
    generations: HashMap<usize, Vec<Patch<S, N>>>,
}

/// A patch: a fixed array of cell payloads, each cell's patch-of-origin, and
/// the neighbor store wiring the cells together.
pub struct Patch<S: Copy, N: Neigbors> {
    cells: [S; PATCH_CELLS],
    cell_patch: [u8; PATCH_CELLS],
    neighbors: N,
    size: u8,
}

impl<S: Copy, N: Neigbors> Patch<S, N> {
    /// The payloads of the patch's cell array.
    pub closed spec fn cells_view(&self) -> Seq<S> {
        self.cells@
    }

    /// The patch-of-origin bytes of the patch's cells.
    pub closed spec fn cell_patch_view(&self) -> Seq<u8> {
        self.cell_patch@
    }

    /// How many cells the patch holds.
    pub closed spec fn size_spec(&self) -> u8 {
        self.size
    }

    /// The neighbor store.
    pub closed spec fn neighbors_spec(&self) -> N {
        self.neighbors
    }

    /// An empty patch: every payload slot seeded with `init`, every
    /// patch-of-origin marked unassigned, and the given neighbor store.
    pub fn new_init(neighbors: N, init: S) -> (r: Patch<S, N>)
        ensures
            r.size_spec() == 0,
            r.neighbors_spec() == neighbors,
            forall|k: int| 0 <= k < PATCH_CELLS ==> r.cells_view()[k] == init,
            forall|k: int| 0 <= k < PATCH_CELLS ==> r.cell_patch_view()[k] == PATCH_SIZE,
    {
        Patch { cells: [init; PATCH_CELLS], cell_patch: [0xFF; PATCH_CELLS], neighbors, size: 0 }
    }
}

/// A cell's address within a shared patch: the patch and the cell's index
/// inside it.
#[allow(dead_code)]
pub struct Location<S: Copy, N: Neigbors> {
    patch: Rc<Patch<S, N>>,
    index: u8,
}

/// A lazy walk over one cell's neighbor slots: yields recorded neighbors
/// until the slot count runs out or the sentinel is reached.
pub struct NeighborIterator<'a> {
    neigbors: &'a [u8; NEIGHBOR_SLOTS],
    pos: usize,
    to_go: u8,
}

impl<'a> NeighborIterator<'a> {
    /// The iterator never walks past its slot table.
    pub closed spec fn wf(&self) -> bool {
        self.pos + self.to_go <= NEIGHBOR_SLOTS
    }

    /// The slot table walked over.
    pub closed spec fn slots(&self) -> Seq<u8> {
        self.neigbors@
    }

    /// The current slot position.
    pub closed spec fn pos_spec(&self) -> usize {
        self.pos
    }

    /// How many slots remain.
    pub closed spec fn to_go_spec(&self) -> u8 {
        self.to_go
    }

    /// The next recorded neighbor, or `None` once the slot count runs out or
    /// the sentinel is reached.
    pub fn next(&mut self) -> (r: Option<u8>)
        requires
            old(self).wf(),
        ensures
            final(self).wf(),
            final(self).slots() == old(self).slots(),
            r == if old(self).to_go_spec() < 1 || old(self).slots()[old(self).pos_spec() as int]
                == PATCH_SIZE {
                None::<u8>
            } else {
                Some(old(self).slots()[old(self).pos_spec() as int])
            },
            r is Some ==> final(self).pos_spec() == old(self).pos_spec() + 1
                && final(self).to_go_spec() == old(self).to_go_spec() - 1,
            r is None ==> final(self).pos_spec() == old(self).pos_spec() && final(self).to_go_spec()
                == old(self).to_go_spec(),
    {
        if self.to_go < 1 || self.neigbors[self.pos] == 0xFF {
            None
        } else {
            let pos = self.pos;
            self.pos = self.pos + 1;
            self.to_go = self.to_go - 1;
            Some(self.neigbors[pos])
        }
    }
}

/// Whether `neighbor_index` is already recorded among the first
/// `counts[index]` slots of cell `index`'s row.
pub open spec fn recorded(slots: Seq<u8>, counts: Seq<u8>, index: int, neighbor_index: u8) -> bool {
    exists|k: int|
        6 * index <= k < 6 * index + counts[index] && #[trigger] slots[k] == neighbor_index
}

/// A neighbor store allowing at most six neighbors per cell.
pub struct AtMostSixNeighbors {
    neighbor_counts: [u8; PATCH_CELLS],
    neighbors: [u8; NEIGHBOR_SLOTS],
}

impl AtMostSixNeighbors {
    /// Every cell's recorded neighbor count.
    pub closed spec fn counts(&self) -> Seq<u8> {
        self.neighbor_counts@
    }

    /// The whole slot table, six slots per cell.
    pub closed spec fn slots(&self) -> Seq<u8> {
        self.neighbors@
    }

    /// No cell claims more than its six slots.
    pub closed spec fn wf(&self) -> bool {
        forall|k: int| 0 <= k < PATCH_CELLS ==> (#[trigger] self.neighbor_counts@[k]) <= 6
    }
}

impl Default for AtMostSixNeighbors {
    /// An empty store: no neighbors recorded, every slot at the sentinel but
    /// the first cell's six, which start cleared.
    fn default() -> (r: AtMostSixNeighbors)
        ensures
            r.wf(),
            forall|k: int| 0 <= k < PATCH_CELLS ==> (#[trigger] r.counts()[k]) == 0,
            forall|k: int| 0 <= k < 6 ==> (#[trigger] r.slots()[k]) == 0,
            forall|k: int| 6 <= k < NEIGHBOR_SLOTS ==> (#[trigger] r.slots()[k]) == PATCH_SIZE,
    {
        let mut result = AtMostSixNeighbors {
            neighbor_counts: [0; PATCH_CELLS],
            neighbors: [0xFF; NEIGHBOR_SLOTS],
        };
        let mut i: usize = 0;
        while i < 6
            invariant
                i <= 6,
                forall|k: int| 0 <= k < PATCH_CELLS ==> (#[trigger] result.neighbor_counts@[k]) == 0,
                forall|k: int| 0 <= k < i ==> (#[trigger] result.neighbors@[k]) == 0,
                forall|k: int| i <= k < NEIGHBOR_SLOTS ==> (#[trigger] result.neighbors@[k]) == 0xFF,
            decreases 6 - i,
        {
            result.neighbors[i] = 0;
            i = i + 1;
        }
        result
    }
}

impl Neigbors for AtMostSixNeighbors {
    open spec fn inv(&self) -> bool {
        self.wf()
    }

    /// The walk over `index`'s six neighbor slots.
    fn neighbors<'a>(&'a self, index: u8) -> (r: NeighborIterator<'a>)
        ensures
            r.wf(),
            r.slots() == self.slots(),
            r.pos_spec() == 6 * index as usize,
            r.to_go_spec() == 6,
    {
        NeighborIterator { neigbors: &self.neighbors, pos: 6 * index as usize, to_go: 6 }
    }

    /// Records `neighbor_index` in `index`'s first free slot. Returns the
    /// resulting neighbor count: an already recorded neighbor is accepted
    /// without any change, a new one is written into slot
    /// `6 * index + count` and the count steps up by one, and a seventh
    /// distinct neighbor is refused with a capacity error, leaving the store
    /// unchanged.
    fn add(&mut self, index: u8, neighbor_index: u8) -> (r: Result<u8, Error>)
        ensures
            final(self).wf(),
            recorded(old(self).slots(), old(self).counts(), index as int, neighbor_index)
                ==> r == Ok::<u8, Error>(old(self).counts()[index as int]) && *final(self) == *old(self),
            !recorded(old(self).slots(), old(self).counts(), index as int, neighbor_index)
                && old(self).counts()[index as int] < 6 ==> r == Ok::<u8, Error>(
                (old(self).counts()[index as int] + 1) as u8,
            ) && final(self).slots() == old(self).slots().update(
                6 * (index as int) + old(self).counts()[index as int],
                neighbor_index,
            ) && final(self).counts() == old(self).counts().update(
                index as int,
                (old(self).counts()[index as int] + 1) as u8,
            ),
            !recorded(old(self).slots(), old(self).counts(), index as int, neighbor_index)
                && old(self).counts()[index as int] >= 6 ==> r == Err::<u8, Error>(Error::Capacity)
                && *final(self) == *old(self),
    {
        let i = index as usize;
        let n = self.neighbor_counts[i] as usize;
        let base = 6 * i;
        let mut k = base;
        while k < base + n
            invariant
                self.wf(),
                *self == *old(self),
                i == index as usize,
                n == self.neighbor_counts@[i as int] as int,
                n <= 6,
                base == 6 * i,
                base <= k <= base + n,
                base + n <= NEIGHBOR_SLOTS,
                forall|q: int| base <= q < k ==> (#[trigger] self.neighbors@[q]) != neighbor_index,
            decreases base + n - k,
        {
            if self.neighbors[k] == neighbor_index {
                proof {
                    assert(recorded(self.slots(), self.counts(), i as int, neighbor_index)) by {
                        assert(6 * (i as int) <= k < 6 * (i as int) + self.counts()[i as int]
                            && self.slots()[k as int] == neighbor_index);
                    }
                }
                return Ok(self.neighbor_counts[i]);
            }
            k = k + 1;
        }
        proof {
            assert(!recorded(self.slots(), self.counts(), i as int, neighbor_index));
        }
        if n >= 6 {
            return Err(Error::Capacity);
        }
        self.neighbors[6 * i + n] = neighbor_index;
        self.neighbor_counts[i] = self.neighbor_counts[i] + 1;
        Ok(self.neighbor_counts[i])
    }
}

} // verus!
