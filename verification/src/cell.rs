//! The graph substrate: cells with generation-indexed, write-once state and
//! symmetric neighbor links, plus the capability traits (`Generation`,
//! `Region`, `Space`, `Location`, `State`, `GrayScale`) that let one update
//! rule run over any topology.
//!
//! Cells live in an arena: a space owns a flat sequence of cell records and a
//! cell's identity is its index there. Neighbor links are index lists, so the
//! relation graph has no ownership cycles and no locking is needed.

use vstd::prelude::*;

use crate::error::Error;

verus! {

/// A discrete simulation time step: totally ordered, advanced by `successor`.
pub trait Generation: Sized {
    /// Whether the counter can advance once more without leaving its range.
    spec fn can_advance(&self) -> bool;

    /// The value that `successor` returns.
    spec fn next_spec(&self) -> Self;

    /// Advances the counter by one step. Strictly advancing: the successor is
    /// never the value itself.
    fn successor(&self) -> (r: Self)
        requires
            self.can_advance(),
        ensures
            r == self.next_spec(),
            r != *self,
    ;
}

impl Generation for usize {
    open spec fn can_advance(&self) -> bool {
        *self < usize::MAX
    }

    open spec fn next_spec(&self) -> usize {
        (*self + 1) as usize
    }

    fn successor(&self) -> (r: usize) {
        *self + 1
    }
}

/// The abstract value of a cell: its generation-indexed state entries and the
/// identities of its neighbors, in insertion order.
pub ghost struct CellView<S> {
    pub states: Map<usize, S>,
    pub neighbors: Seq<usize>,
}

/// The key-value entries of `s`, later entries taking precedence.
pub open spec fn pairs_to_map<S>(s: Seq<(usize, S)>) -> Map<usize, S>
    decreases s.len(),
{
    if s.len() == 0 {
        Map::empty()
    } else {
        pairs_to_map(s.drop_last()).insert(s.last().0, s.last().1)
    }
}

/// No two entries of `s` share a key.
pub open spec fn keys_unique<S>(s: Seq<(usize, S)>) -> bool {
    forall|i: int, j: int| 0 <= i < j < s.len() ==> (#[trigger] s[i]).0 != (#[trigger] s[j]).0
}

proof fn lemma_pairs_to_map_contains<S>(s: Seq<(usize, S)>, k: usize)
    ensures
        pairs_to_map(s).contains_key(k) <==> exists|i: int| 0 <= i < s.len() && (#[trigger] s[i]).0 == k,
    decreases s.len(),
{
    if s.len() > 0 {
        lemma_pairs_to_map_contains(s.drop_last(), k);
        if s.last().0 == k {
            assert(s[s.len() - 1].0 == k);
        } else if pairs_to_map(s).contains_key(k) {
            let i = choose|i: int| 0 <= i < s.drop_last().len() && (#[trigger] s.drop_last()[i]).0 == k;
            assert(s[i].0 == k);
        } else {
            assert forall|i: int| 0 <= i < s.len() implies (#[trigger] s[i]).0 != k by {
                if i < s.len() - 1 {
                    assert(s.drop_last()[i].0 != k);
                }
            }
        }
    }
}

proof fn lemma_pairs_to_map_last_match<S>(s: Seq<(usize, S)>, i: int)
    requires
        0 <= i < s.len(),
        forall|j: int| i < j < s.len() ==> (#[trigger] s[j]).0 != s[i].0,
    ensures
        pairs_to_map(s).contains_key(s[i].0),
        pairs_to_map(s)[s[i].0] == s[i].1,
    decreases s.len(),
{
    lemma_pairs_to_map_contains(s, s[i].0);
    if i == s.len() - 1 {
    } else {
        assert forall|j: int| i < j < s.drop_last().len() implies (#[trigger] s.drop_last()[j]).0 != s.drop_last()[i].0 by {
            assert(s[j].0 != s[i].0);
        }
        lemma_pairs_to_map_last_match(s.drop_last(), i);
        assert(s.last().0 != s[i].0);
    }
}

/// A graph node: generation-indexed state entries, written at most once per
/// generation, and a duplicate-free list of neighbor identities.
pub struct Cell<S> {
    states: Vec<(usize, S)>,
    neighbors: Vec<usize>,
}

impl<S> View for Cell<S> {
    type V = CellView<S>;

    closed spec fn view(&self) -> CellView<S> {
        CellView { states: pairs_to_map(self.states@), neighbors: self.neighbors@ }
    }
}

impl<S> Cell<S> {
    /// The representation invariant: at most one stored entry per generation,
    /// and no repeated neighbor identity.
    pub closed spec fn wf(&self) -> bool {
        keys_unique(self.states@) && self.neighbors@.no_duplicates()
    }

    /// A well-formed cell's neighbor list holds no repeated identity.
    pub proof fn lemma_wf_neighbors(&self)
        requires
            self.wf(),
        ensures
            self@.neighbors.no_duplicates(),
    {
    }
}

impl<S: Copy> Cell<S> {
    /// Creates a cell holding one state entry, at `generation`, and no
    /// neighbors.
    pub fn new(generation: usize, state: S) -> (c: Cell<S>)
        ensures
            c.wf(),
            c@.states == Map::<usize, S>::empty().insert(generation, state),
            c@.neighbors == Seq::<usize>::empty(),
    {
        let mut states: Vec<(usize, S)> = Vec::new();
        states.push((generation, state));
        let c = Cell { states, neighbors: Vec::new() };
        proof {
            assert(c.states@.drop_last() =~= Seq::<(usize, S)>::empty());
            assert(pairs_to_map(Seq::<(usize, S)>::empty()) =~= Map::<usize, S>::empty());
            assert(c@.states =~= Map::<usize, S>::empty().insert(generation, state));
        }
        c
    }

    /// Whether a state entry for `generation` has been stored.
    pub fn has_state(&self, generation: usize) -> (r: bool)
        ensures
            r == self@.states.contains_key(generation),
    {
        proof {
            lemma_pairs_to_map_contains(self.states@, generation);
        }
        let n = self.states.len();
        for i in 0..n
            invariant
                n == self.states@.len(),
                forall|j: int| 0 <= j < i ==> (#[trigger] self.states@[j]).0 != generation,
                pairs_to_map(self.states@).contains_key(generation) <==> exists|j: int|
                    0 <= j < self.states@.len() && (#[trigger] self.states@[j]).0 == generation,
        {
            if self.states[i].0 == generation {
                return true;
            }
        }
        false
    }

    /// The state stored for `generation`, or `None` if none has been computed
    /// yet. Absence is not an error: callers treat it as the payload's own
    /// default.
    pub fn state(&self, generation: usize) -> (r: Option<S>)
        ensures
            r == if self@.states.contains_key(generation) {
                Some(self@.states[generation])
            } else {
                None::<S>
            },
    {
        proof {
            lemma_pairs_to_map_contains(self.states@, generation);
        }
        let n = self.states.len();
        let mut i = n;
        while i > 0
            invariant
                i <= n,
                n == self.states@.len(),
                forall|j: int| i <= j < self.states@.len() ==> (#[trigger] self.states@[j]).0 != generation,
            decreases i,
        {
            i = i - 1;
            if self.states[i].0 == generation {
                proof {
                    lemma_pairs_to_map_last_match(self.states@, i as int);
                }
                return Some(self.states[i].1);
            }
        }
        proof {
            lemma_pairs_to_map_contains(self.states@, generation);
        }
        None
    }

    /// Stores `state` under `generation` unless an entry for that generation
    /// already exists; recommitting is a no-op, never an overwrite. This is
    /// the memoization invariant: one write per generation, ever.
    pub fn commit(&mut self, generation: usize, state: S)
        requires
            old(self).wf(),
        ensures
            final(self).wf(),
            final(self)@.states == if old(self)@.states.contains_key(generation) {
                old(self)@.states
            } else {
                old(self)@.states.insert(generation, state)
            },
            final(self)@.neighbors == old(self)@.neighbors,
    {
        let present = self.has_state(generation);
        if !present {
            proof {
                lemma_pairs_to_map_contains(self.states@, generation);
            }
            self.states.push((generation, state));
            proof {
                assert(self.states@.drop_last() =~= old(self).states@);
                assert(keys_unique(self.states@)) by {
                    assert(forall|j: int| 0 <= j < old(self).states@.len()
                        ==> (#[trigger] old(self).states@[j]).0 != generation);
                }
            }
        }
    }

    /// Records `id` as a neighbor, idempotently: a second insertion of the
    /// same identity leaves the list unchanged.
    pub fn add_neighbor(&mut self, id: usize)
        requires
            old(self).wf(),
        ensures
            final(self).wf(),
            final(self)@.states == old(self)@.states,
            final(self)@.neighbors == if old(self)@.neighbors.contains(id) {
                old(self)@.neighbors
            } else {
                old(self)@.neighbors.push(id)
            },
            final(self)@.neighbors.to_set() == old(self)@.neighbors.to_set().insert(id),
    {
        let n = self.neighbors.len();
        for i in 0..n
            invariant
                self.wf(),
                self@.states == old(self)@.states,
                self@.neighbors == old(self)@.neighbors,
                n == self.neighbors@.len(),
                forall|j: int| 0 <= j < i ==> self.neighbors@[j] != id,
        {
            if self.neighbors[i] == id {
                proof {
                    assert(self.neighbors@.contains(id));
                    assert(self.neighbors@.to_set() =~= self.neighbors@.to_set().insert(id));
                }
                return;
            }
        }
        proof {
            assert(!self.neighbors@.contains(id));
        }
        self.neighbors.push(id);
        proof {
            assert(old(self).neighbors@.push(id).to_set() =~= old(self).neighbors@.to_set().insert(id)) by {
                let p = old(self).neighbors@.push(id);
                assert forall|x: usize| p.to_set().contains(x)
                    implies old(self).neighbors@.to_set().insert(id).contains(x) by {
                    let k = choose|k: int| 0 <= k < p.len() && p[k] == x;
                    if k < old(self).neighbors@.len() {
                        assert(old(self).neighbors@[k] == x);
                    }
                }
                assert forall|x: usize| old(self).neighbors@.to_set().insert(id).contains(x)
                    implies p.to_set().contains(x) by {
                    if x == id {
                        assert(p[p.len() - 1] == x);
                    } else {
                        let k = choose|k: int| 0 <= k < old(self).neighbors@.len() && old(self).neighbors@[k] == x;
                        assert(p[k] == x);
                    }
                }
            }
        }
    }

    /// A point-in-time snapshot copy of the neighbor identities.
    pub fn neighbors(&self) -> (r: Vec<usize>)
        ensures
            r@ == self@.neighbors,
    {
        let n = self.neighbors.len();
        let mut r: Vec<usize> = Vec::new();
        for i in 0..n
            invariant
                n == self.neighbors@.len(),
                r@ == self.neighbors@.take(i as int),
        {
            r.push(self.neighbors[i]);
            proof {
                assert(r@ =~= self.neighbors@.take(i + 1));
            }
        }
        proof {
            assert(r@ =~= self.neighbors@);
        }
        r
    }
}

/// Inserts a symmetric neighbor edge between the cells at `a` and `b` in the
/// arena, idempotently at the edge-set level. The arena grants exclusive
/// access by construction, so the operation always succeeds; the `Result`
/// mirrors the interface of neighbor stores that can fail to lock.
pub fn join<S: Copy>(cells: &mut Vec<Cell<S>>, a: usize, b: usize) -> (r: Result<(), Error>)
    requires
        a < old(cells)@.len(),
        b < old(cells)@.len(),
        old(cells)@[a as int].wf(),
        old(cells)@[b as int].wf(),
    ensures
        r is Ok,
        final(cells)@.len() == old(cells)@.len(),
        final(cells)@[a as int].wf(),
        final(cells)@[b as int].wf(),
        forall|i: int|
            0 <= i < final(cells)@.len() && i != a && i != b ==> final(cells)@[i] == old(cells)@[i],
        forall|i: int|
            0 <= i < final(cells)@.len() ==> (#[trigger] final(cells)@[i])@.states == old(cells)@[i]@.states,
        final(cells)@[a as int]@.neighbors.to_set()
            == old(cells)@[a as int]@.neighbors.to_set().insert(b),
        final(cells)@[b as int]@.neighbors.to_set()
            == old(cells)@[b as int]@.neighbors.to_set().insert(a),
{
    let ca = &mut cells[a];
    ca.add_neighbor(b);
    let cb = &mut cells[b];
    cb.add_neighbor(a);
    Ok(())
}

/// A location: something with a stable identity within its space.
pub trait Location: Sized {
    /// The stable identity of this location.
    fn id(&self) -> usize;
}

impl Location for usize {
    fn id(&self) -> (r: usize)
        ensures
            r == *self,
    {
        *self
    }
}

/// The minimal read interface over a set of locations: "what is the state of
/// location L at generation G", plus a snapshot of a location's neighborhood.
/// An update rule written against this interface runs unmodified over any
/// topology.
pub trait Region<S>: Sized {
    type Loc: Location + Copy;

    /// The region's own validity: what its constructors establish and its
    /// operations preserve.
    spec fn inv(&self) -> bool;

    /// Whether this region owns `loc`.
    spec fn has_loc(&self, loc: Self::Loc) -> bool;

    /// The locations this region owns, in its fixed traversal order.
    spec fn spec_locations(&self) -> Seq<Self::Loc>;

    /// The state of `loc` at `generation`, or `None` if not yet computed.
    spec fn spec_state(&self, loc: Self::Loc, generation: usize) -> Option<S>;

    /// Whether a neighbor snapshot of `loc` can be taken.
    spec fn neighbors_ok(&self, loc: Self::Loc) -> bool;

    /// The neighbors of `loc`, in their stored order.
    spec fn spec_neighbors(&self, loc: Self::Loc) -> Seq<Self::Loc>;

    /// Every location this region owns, in the region's fixed order.
    fn locations(&self) -> (r: Vec<Self::Loc>)
        requires
            self.inv(),
        ensures
            r@ == self.spec_locations(),
            forall|k: int| 0 <= k < r@.len() ==> self.has_loc(#[trigger] r@[k]),
    ;

    /// Reads the state of `location` at `generation`; `None` means "not yet
    /// computed", which is a normal outcome, not an error.
    fn state(&self, location: &Self::Loc, generation: usize) -> (r: Option<S>)
        requires
            self.inv(),
            self.has_loc(*location),
        ensures
            r == self.spec_state(*location, generation),
    ;

    /// A point-in-time snapshot of `location`'s neighbors. Every reported
    /// neighbor is itself a location of this region.
    fn neighbors(&self, location: &Self::Loc) -> (r: Result<Vec<Self::Loc>, Error>)
        requires
            self.inv(),
            self.has_loc(*location),
        ensures
            match r {
                Ok(v) => self.neighbors_ok(*location) && v@ == self.spec_neighbors(*location)
                    && forall|k: int|
                        0 <= k < v@.len() ==> self.has_loc(#[trigger] v@[k]),
                Err(e) => !self.neighbors_ok(*location) && e == Error::Lock,
            },
    ;
}

/// The contract a payload type satisfies to be simulated: given read access
/// to its location's region and a generation, compute the next value. The
/// `ensures` pins the result to a specification-level function of the region
/// snapshot alone, so replaying the same inputs always yields the same
/// output.
pub trait State<R: Region<Self>>: Sized + Copy {
    /// What `update` computes: the payload's value at the successor of
    /// `generation`, as a function of the observable state at `generation`.
    spec fn next(region: R, location: R::Loc, generation: usize) -> Result<Self, Error>;

    /// Computes the payload's next value from the region as observed at
    /// `generation`.
    fn update(region: &R, location: &R::Loc, generation: usize) -> (r: Result<Self, Error>)
        requires
            region.inv(),
            region.has_loc(*location),
        ensures
            r == Self::next(*region, *location, generation),
    ;
}

/// `chain` witnesses one fold of `f` over the locations `locs` of `region`:
/// it starts at `init`, ends at `r`, and every step is a possible outcome of
/// `f` on the location it visits.
pub open spec fn reduce_chain<R, L, A, F: Fn(&R, &L, A) -> A>(
    f: F,
    region: R,
    locs: Seq<L>,
    init: A,
    r: A,
    chain: Seq<A>,
) -> bool {
    &&& chain.len() == locs.len() + 1
    &&& chain[0] == init
    &&& chain[chain.len() - 1] == r
    &&& forall|i: int|
        0 <= i < locs.len() ==> call_ensures(f, (&region, &locs[i], #[trigger] chain[i]), chain[i + 1])
}

proof fn lemma_chain_fold_prefix<R, L, A, F: Fn(&R, &L, A) -> A>(
    f: F,
    region: R,
    locs: Seq<L>,
    init: A,
    chain: Seq<A>,
    step: spec_fn(A, L) -> A,
    k: int,
)
    requires
        chain.len() == locs.len() + 1,
        chain[0] == init,
        forall|i: int|
            0 <= i < locs.len() ==> call_ensures(f, (&region, &locs[i], #[trigger] chain[i]), chain[i + 1]),
        forall|l: &L, a: A, out: A|
            #[trigger] call_ensures(f, (&region, l, a), out) ==> out == step(a, *l),
        0 <= k <= locs.len(),
    ensures
        chain[k] == locs.take(k).fold_left(init, step),
    decreases k,
{
    if k > 0 {
        lemma_chain_fold_prefix(f, region, locs, init, chain, step, k - 1);
        assert(call_ensures(f, (&region, &locs[k - 1], chain[k - 1]), chain[k]));
        assert(chain[k] == step(chain[k - 1], locs[k - 1]));
        assert(locs.take(k).drop_last() =~= locs.take(k - 1));
        assert(locs.take(k).last() == locs[k - 1]);
    }
}

/// When every application of `f` is pinned to a specification-level step
/// function of the accumulator and the location alone, a fold chain of `f`
/// computes exactly the left fold of that step over the visited locations.
pub proof fn lemma_reduce_fold<R, L, A, F: Fn(&R, &L, A) -> A>(
    f: F,
    region: R,
    locs: Seq<L>,
    init: A,
    r: A,
    chain: Seq<A>,
    step: spec_fn(A, L) -> A,
)
    requires
        reduce_chain(f, region, locs, init, r, chain),
        forall|l: &L, a: A, out: A|
            #[trigger] call_ensures(f, (&region, l, a), out) ==> out == step(a, *l),
    ensures
        r == locs.fold_left(init, step),
{
    lemma_chain_fold_prefix(f, region, locs, init, chain, step, locs.len() as int);
    assert(locs.take(locs.len() as int) =~= locs);
}

/// Order-independence of `reduce`: for a commutative step function, the
/// result a fold chain computes is the same over every reordering of the
/// locations — it depends only on the multiset of (region, location) pairs,
/// never on the visitation order. This is the whole license `reduce` gives
/// its callers.
pub proof fn lemma_reduce_order_independent<R, L, A, F: Fn(&R, &L, A) -> A>(
    f: F,
    region: R,
    locs: Seq<L>,
    init: A,
    r: A,
    chain: Seq<A>,
    step: spec_fn(A, L) -> A,
    locs2: Seq<L>,
)
    requires
        reduce_chain(f, region, locs, init, r, chain),
        forall|l: &L, a: A, out: A|
            #[trigger] call_ensures(f, (&region, l, a), out) ==> out == step(a, *l),
        vstd::seq_lib::commutative_foldl(step),
        locs2.to_multiset() == locs.to_multiset(),
    ensures
        r == locs2.fold_left(init, step),
{
    lemma_reduce_fold(f, region, locs, init, r, chain, step);
    vstd::seq_lib::lemma_fold_left_permutation(locs, locs2, step, init);
}

/// A full topology: it owns one or more regions and supports an
/// order-independent fold over every (region, location) pair. Callers must
/// only rely on `reduce` for commutative and associative folds, never on a
/// particular visitation order.
pub trait Space<S>: Region<S> {
    /// The regions composing this space; here a space is its own sole region.
    fn regions(&self) -> (r: Vec<&Self>)
        ensures
            r@.len() == 1,
            r@[0] == self,
    ;

    /// Folds `f` over every location of every region, in the space's fixed
    /// order. The result is pinned only up to `f`'s own contract: there is a
    /// chain of accumulator values, one per visited location, with each step
    /// a possible outcome of `f`.
    fn reduce<A, F: Fn(&Self, &Self::Loc, A) -> A>(&self, init: A, f: F) -> (r: A)
        requires
            self.inv(),
            forall|x: (&Self, &Self::Loc, A)| #[trigger] call_requires(f, x),
        ensures
            exists|chain: Seq<A>| reduce_chain(f, *self, self.spec_locations(), init, r, chain),
    ;
}

/// The optional grayscale-export capability: a payload maps itself to one
/// byte of intensity, scaled by a caller-supplied normalization context.
pub trait GrayScale {
    type Context;

    /// The grayscale intensity of this value under `context`.
    fn gray_value(&self, context: &Self::Context) -> u8;
}

/// A region that owns no locations: the empty projection. Useful as a
/// placeholder region for update rules that only ever read through their
/// location's own space.
pub struct CellRegion;

impl Default for CellRegion {
    fn default() -> (r: CellRegion) {
        CellRegion
    }
}

impl<S> Region<S> for CellRegion {
    type Loc = usize;

    open spec fn inv(&self) -> bool {
        true
    }

    open spec fn has_loc(&self, loc: usize) -> bool {
        false
    }

    open spec fn spec_locations(&self) -> Seq<usize> {
        Seq::empty()
    }

    open spec fn spec_state(&self, loc: usize, generation: usize) -> Option<S> {
        None
    }

    open spec fn neighbors_ok(&self, loc: usize) -> bool {
        true
    }

    open spec fn spec_neighbors(&self, loc: usize) -> Seq<usize> {
        Seq::empty()
    }

    fn locations(&self) -> (r: Vec<usize>) {
        Vec::new()
    }

    fn state(&self, location: &usize, generation: usize) -> (r: Option<S>) {
        None
    }

    fn neighbors(&self, location: &usize) -> (r: Result<Vec<usize>, Error>) {
        Ok(Vec::new())
    }
}

} // verus!
