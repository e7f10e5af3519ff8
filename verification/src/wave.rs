//! The coordinate-probe payload used to inspect a hexagonal lattice: each
//! cell carries its own coordinates and linear index, and its update rule
//! reads its current value back unchanged.
//!
//! The wave simulation proper evolves a real-valued amplitude and lives with
//! the drivers, outside this crate's verified core.

use vstd::prelude::*;

use crate::cell::{Region, State};
use crate::error::Error;
use crate::torus::{get_index, in_bounds, product, Tiling, Torus};

verus! {

/// A cell payload holding the cell's row, column and linear index.
#[derive(Clone, Copy, Debug, PartialEq, Eq, Structural)]
pub struct Coords(pub usize, pub usize, pub usize);

impl<R: Region<Coords>> State<R> for Coords {
    /// The probe rule: the next value is the current one, or the origin
    /// probe where none has been stored.
    open spec fn next(region: R, location: R::Loc, generation: usize) -> Result<Coords, Error> {
        match region.spec_state(location, generation) {
            Some(s) => Ok(s),
            None => Ok(Coords(0, 0, 0)),
        }
    }

    fn update(region: &R, location: &R::Loc, generation: usize) -> (r: Result<Coords, Error>) {
        match region.state(location, generation) {
            Some(s) => Ok(s),
            None => Ok(Coords(0, 0, 0)),
        }
    }
}

/// Builds a size-by-size hexagonal torus whose cells carry their own
/// coordinates and linear index. Fails with a dimension error for an empty
/// lattice and a topology error for an odd extent, creating no cells.
pub fn debug(size: usize) -> (r: Result<(), Error>)
    requires
        size * size <= usize::MAX,
    ensures
        size == 0 ==> r == Err::<(), Error>(Error::Dimension),
        size >= 1 && size % 2 == 1 ==> r == Err::<(), Error>(Error::Topology),
        size >= 1 && size % 2 == 0 ==> r is Ok,
{
    let mut dimensions: Vec<usize> = Vec::new();
    dimensions.push(size);
    dimensions.push(size);
    proof {
        assert(dimensions@ =~= seq![size, size]);
        assert(seq![size, size].drop_last() =~= seq![size]);
        assert(seq![size].drop_last() =~= Seq::<usize>::empty());
        assert(product(Seq::<usize>::empty()) == 1);
        assert(product(seq![size]) == size);
        assert(product(seq![size, size]) == size * size);
    }
    let initial_state = |v: &Vec<usize>| -> (c: Coords)
        requires
            in_bounds(v@, dimensions@),
            product(dimensions@) <= usize::MAX,
        {
            let index = match get_index(v, &dimensions) {
                Ok(x) => x,
                Err(_) => 0,
            };
            Coords(v[0], v[1], index)
        };
    match Torus::<Coords>::new(Tiling::Hexagons, &dimensions, 0, initial_state) {
        Ok(_t) => Ok(()),
        Err(e) => Err(e),
    }
}

} // verus!
