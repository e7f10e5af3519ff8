//! Conway's game of life as a payload of the substrate: a boolean state and
//! the birth/survival rule over a cell's neighborhood.

use vstd::prelude::*;

use crate::cell::{Region, State};
use crate::error::Error;
use crate::torus::{next_view_based, product, Tiling, Torus};

verus! {

/// A life cell's payload: alive or dead.
#[derive(Clone, Copy, Debug, PartialEq, Eq, Structural)]
pub struct Conway {
    pub alive: bool,
}

impl Conway {
    /// A payload in the given liveness.
    pub fn new(alive: bool) -> (c: Conway)
        ensures
            c.alive == alive,
    {
        Conway { alive }
    }
}

/// The number of live values among the first `k` locations of `locs`, read
/// from `region` at `generation`.
pub open spec fn live_count<R: Region<Conway>>(
    region: R,
    locs: Seq<R::Loc>,
    generation: usize,
    k: int,
) -> int
    decreases k,
{
    if k <= 0 {
        0
    } else {
        live_count(region, locs, generation, k - 1) + if region.spec_state(
            locs[k - 1],
            generation,
        ) matches Some(s) && s.alive {
            1int
        } else {
            0int
        }
    }
}

impl<R: Region<Conway>> State<R> for Conway {
    /// The life rule: a cell is alive at the next generation exactly when
    /// three of its neighbors are alive, or it is alive and two are.
    open spec fn next(region: R, location: R::Loc, generation: usize) -> Result<Conway, Error> {
        if region.neighbors_ok(location) {
            let this_alive = region.spec_state(location, generation) matches Some(s) && s.alive;
            let ns = region.spec_neighbors(location);
            let count = live_count(region, ns, generation, ns.len() as int);
            Ok(Conway { alive: count == 3 || (this_alive && count == 2) })
        } else {
            Err(Error::Lock)
        }
    }

    fn update(region: &R, location: &R::Loc, generation: usize) -> (r: Result<Conway, Error>) {
        let this_alive = match region.state(location, generation) {
            Some(s) => s.alive,
            None => false,
        };
        let ns = match region.neighbors(location) {
            Ok(v) => v,
            Err(e) => {
                return Err(e);
            },
        };
        let n = ns.len();
        let mut count: usize = 0;
        for k in 0..n
            invariant
                region.inv(),
                n == ns@.len(),
                ns@ == region.spec_neighbors(*location),
                forall|q: int| 0 <= q < ns@.len() ==> region.has_loc(#[trigger] ns@[q]),
                count <= k,
                count as int == live_count(*region, ns@, generation, k as int),
        {
            match region.state(&ns[k], generation) {
                Some(s) => {
                    if s.alive {
                        count = count + 1;
                    }
                },
                None => {},
            }
        }
        Ok(Conway { alive: count == 3 || (this_alive && count == 2) })
    }
}

proof fn lemma_live_count_view_based(
    ta: Torus<Conway>,
    tb: Torus<Conway>,
    locs: Seq<usize>,
    generation: usize,
    k: int,
)
    requires
        ta@ == tb@,
    ensures
        live_count(ta, locs, generation, k) == live_count(tb, locs, generation, k),
    decreases k,
{
    if k > 0 {
        lemma_live_count_view_based(ta, tb, locs, generation, k - 1);
        assert(ta.spec_state(locs[k - 1], generation) == tb.spec_state(locs[k - 1], generation));
    }
}

/// The life rule is a pure function of the observable state: it cannot tell
/// view-identical tori apart, so sweeps of it are deterministic across runs.
pub proof fn lemma_conway_next_view_based(generation: usize)
    ensures
        next_view_based::<Conway>(generation),
{
    assert forall|ta: Torus<Conway>, tb: Torus<Conway>, p: usize|
        #![trigger <Conway as State<Torus<Conway>>>::next(ta, p, generation), <Conway as State<Torus<Conway>>>::next(tb, p, generation)]
        ta@ == tb@ implies <Conway as State<Torus<Conway>>>::next(ta, p, generation) == <Conway as State<
        Torus<Conway>,
    >>::next(tb, p, generation) by {
        assert(ta.spec_neighbors(p) == tb.spec_neighbors(p));
        assert(ta.spec_state(p, generation) == tb.spec_state(p, generation));
        assert(ta.neighbors_ok(p) == tb.neighbors_ok(p));
        lemma_live_count_view_based(
            ta,
            tb,
            ta.spec_neighbors(p),
            generation,
            ta.spec_neighbors(p).len() as int,
        );
    }
}

/// Builds a five-by-five periodic lattice with full eight-way adjacency,
/// seeds it with a three-cell row of live cells, and advances it one
/// generation: the classic blinker.
pub fn example() -> (r: Result<(), Error>)
    ensures
        r is Ok,
{
    let width: usize = 5;
    let height: usize = 5;
    let generation: usize = 0;
    let mut dimensions: Vec<usize> = Vec::new();
    dimensions.push(width);
    dimensions.push(height);
    proof {
        assert(dimensions@ =~= seq![5usize, 5usize]);
        assert(seq![5usize, 5usize].drop_last() =~= seq![5usize]);
        assert(seq![5usize].drop_last() =~= Seq::<usize>::empty());
        assert(product(Seq::<usize>::empty()) == 1);
        assert(product(seq![5usize]) == 5);
        assert(product(seq![5usize, 5usize]) == 25);
    }
    let initial_state = |v: &Vec<usize>| -> (c: Conway)
        requires
            v@.len() == 2,
        ensures
            c.alive == (v@[1] == 2 && 1 <= v@[0] <= 3),
        {
            Conway::new(v[1] == 2 && v[0] >= 1 && v[0] <= 3)
        };
    let torus = match Torus::<Conway>::new(
        Tiling::OrthogonalAndDiagonal,
        &dimensions,
        generation,
        initial_state,
    ) {
        Ok(t) => t,
        Err(_) => vstd::pervasive::unreached(),
    };
    let mut torus = torus;
    let swept = torus.update_all(generation);
    match swept {
        Ok(()) => Ok(()),
        Err(_) => {
            proof {
                assert forall|p: usize|
                    (p as int) < torus@.cells.len() implies !(<Conway as State<Torus<Conway>>>::next(
                    torus,
                    p,
                    generation,
                ) is Err) by {
                    assert(torus.neighbors_ok(p));
                }
            }
            vstd::pervasive::unreached()
        },
    }
}

} // verus!
