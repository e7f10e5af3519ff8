use quantized_interactions::cell::{Location, Region, State};
use quantized_interactions::error::Error;
use quantized_interactions::torus::{Tiling, Torus};

/// A rule that fails on chosen cells, to observe the sweep's abort behavior.
#[derive(Clone, Copy, Debug, PartialEq)]
struct Flaky;

impl<R: Region<Flaky>> State<R> for Flaky {
    // runtime stand-in for the trait's specification-level member
    fn next(_region: R, _location: R::Loc, _generation: usize) -> Result<Flaky, Error> {
        Err(Error::Lock)
    }

    fn update(_region: &R, location: &R::Loc, _generation: usize) -> Result<Flaky, Error> {
        match location.id() {
            3 => Err(Error::Lock),
            5 => Err(Error::Capacity),
            _ => Ok(Flaky),
        }
    }
}

#[test]
fn failed_sweep_surfaces_the_first_error_and_keeps_earlier_commits() {
    let dims = vec![2usize, 3usize];
    let mut torus: Torus<Flaky> =
        Torus::new(Tiling::Orthogonal, &dims, 0, |_v: &Vec<usize>| Flaky).unwrap();
    // cell 3 fails first, in index order, even though cell 5 would fail too
    assert_eq!(torus.update_all(0), Err(Error::Lock));
    // the cells before the failure keep their committed successor states
    for idx in 0..3usize {
        assert_eq!(torus.state(&idx, 1), Some(Flaky));
    }
    // the failing cell and the cells after it are untouched
    for idx in 3..6usize {
        assert_eq!(torus.state(&idx, 1), None);
    }
    // every cell still holds its seeded state
    for idx in 0..6usize {
        assert_eq!(torus.state(&idx, 0), Some(Flaky));
    }
}

#[test]
fn per_cell_update_failure_leaves_the_torus_unchanged() {
    let dims = vec![2usize, 3usize];
    let mut torus: Torus<Flaky> =
        Torus::new(Tiling::Orthogonal, &dims, 0, |_v: &Vec<usize>| Flaky).unwrap();
    assert_eq!(torus.update_cell(5, 0), Err(Error::Capacity));
    for idx in 0..6usize {
        assert_eq!(torus.state(&idx, 1), None);
    }
    assert_eq!(torus.update_cell(0, 0), Ok(()));
    assert_eq!(torus.state(&0usize, 1), Some(Flaky));
}
