//! A proof of concept for the patch layout: a trivial payload, the smallest
//! possible region, and a patch built over the six-neighbor store.

use vstd::prelude::*;

use crate::cell::{Location, Region, State};
use crate::error::Error;
use crate::patch::{AtMostSixNeighbors, Patch};

verus! {

/// A payload that carries no information.
#[derive(Clone, Copy, Debug, PartialEq, Eq, Structural)]
pub struct Trivial;

impl Location for u8 {
    fn id(&self) -> (r: usize)
        ensures
            r == *self as usize,
    {
        *self as usize
    }
}

impl Region<Trivial> for () {
    type Loc = u8;

    open spec fn inv(&self) -> bool {
        true
    }

    open spec fn has_loc(&self, loc: u8) -> bool {
        false
    }

    open spec fn spec_locations(&self) -> Seq<u8> {
        Seq::empty()
    }

    open spec fn spec_state(&self, loc: u8, generation: usize) -> Option<Trivial> {
        None
    }

    open spec fn neighbors_ok(&self, loc: u8) -> bool {
        true
    }

    open spec fn spec_neighbors(&self, loc: u8) -> Seq<u8> {
        Seq::empty()
    }

    fn locations(&self) -> (r: Vec<u8>) {
        Vec::new()
    }

    fn state(&self, location: &u8, generation: usize) -> (r: Option<Trivial>) {
        None
    }

    fn neighbors(&self, location: &u8) -> (r: Result<Vec<u8>, Error>) {
        Ok(Vec::new())
    }
}

impl<R: Region<Trivial>> State<R> for Trivial {
    /// The trivial rule: the next value is the only value.
    open spec fn next(region: R, location: R::Loc, generation: usize) -> Result<Trivial, Error> {
        Ok(Trivial)
    }

    fn update(region: &R, location: &R::Loc, generation: usize) -> (r: Result<Trivial, Error>) {
        Ok(Trivial)
    }
}

/// Builds an empty patch of trivial payloads over the six-neighbor store.
pub fn example() -> (r: Result<(), Error>)
    ensures
        r is Ok,
{
    let neighbors = AtMostSixNeighbors::default();
    let _patch = Patch::new_init(neighbors, Trivial);
    Ok(())
}

} // verus!
