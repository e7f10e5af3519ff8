use quantized_interactions::cell::{Generation, Region, Space};
use quantized_interactions::conway::Conway;
use quantized_interactions::error::Error;
use quantized_interactions::torus::{get_index, next_co_ordinates, Tiling, Torus};

fn plain(dims: Vec<usize>, tiling: Tiling) -> Torus<Conway> {
    Torus::new(tiling, &dims, 0, |_v: &Vec<usize>| Conway::new(false)).unwrap()
}

#[test]
fn successor_advances() {
    assert_eq!(0usize.successor(), 1);
    assert_eq!(41usize.successor(), 42);
}

#[test]
fn index_round_trip() {
    // row-major, the last axis varying fastest
    let dims = vec![4usize, 5usize];
    assert_eq!(get_index(&vec![0, 0], &dims), Ok(0));
    assert_eq!(get_index(&vec![1, 2], &dims), Ok(7));
    assert_eq!(get_index(&vec![3, 4], &dims), Ok(19));
    // the odometer visits every coordinate vector in index order
    let mut co = vec![0usize, 0usize];
    for expected in 1..20usize {
        next_co_ordinates(&mut co, &dims);
        assert_eq!(get_index(&co, &dims), Ok(expected));
    }
    next_co_ordinates(&mut co, &dims);
    assert_eq!(co, vec![0, 0]);
}

#[test]
fn index_length_mismatch() {
    let dims = vec![4usize, 5usize];
    assert_eq!(get_index(&vec![1, 2, 3], &dims), Err(Error::CoordinateMismatch));
    assert_eq!(get_index(&vec![1], &dims), Err(Error::CoordinateMismatch));
}

#[test]
fn zero_extent_is_a_dimension_error() {
    let dims = vec![3usize, 0usize];
    let r = Torus::<Conway>::new(Tiling::Orthogonal, &dims, 0, |_v: &Vec<usize>| {
        Conway::new(false)
    });
    assert!(matches!(r, Err(Error::Dimension)));
    let empty: Vec<usize> = Vec::new();
    let r = Torus::<Conway>::new(Tiling::Orthogonal, &empty, 0, |_v: &Vec<usize>| {
        Conway::new(false)
    });
    assert!(matches!(r, Err(Error::Dimension)));
}

#[test]
fn hexagonal_preconditions() {
    // an odd extent is rejected
    let r = Torus::<Conway>::new(Tiling::Hexagons, &vec![5, 6], 0, |_v: &Vec<usize>| {
        Conway::new(false)
    });
    assert!(matches!(r, Err(Error::Topology)));
    let r = Torus::<Conway>::new(Tiling::Hexagons, &vec![6, 5], 0, |_v: &Vec<usize>| {
        Conway::new(false)
    });
    assert!(matches!(r, Err(Error::Topology)));
    // so is any dimensionality other than two
    let r = Torus::<Conway>::new(Tiling::Hexagons, &vec![6, 6, 6], 0, |_v: &Vec<usize>| {
        Conway::new(false)
    });
    assert!(matches!(r, Err(Error::Topology)));
    // both extents even succeeds
    let r = Torus::<Conway>::new(Tiling::Hexagons, &vec![6, 4], 0, |_v: &Vec<usize>| {
        Conway::new(false)
    });
    assert!(r.is_ok());
}

#[test]
fn neighbor_symmetry() {
    let torus = plain(vec![4, 6], Tiling::Orthogonal);
    let locations = torus.locations();
    for &a in &locations {
        let nbrs = torus.neighbors(&a).unwrap();
        for &b in &nbrs {
            let back = torus.neighbors(&b).unwrap();
            assert!(back.contains(&a), "neighbor relation must be symmetric");
        }
    }
}

#[test]
fn orthogonal_wiring_cardinality() {
    // all extents at least three: exactly two distinct neighbors per axis
    let torus = plain(vec![3, 4, 5], Tiling::Orthogonal);
    for i in torus.locations() {
        let mut nbrs = torus.neighbors(&i).unwrap();
        nbrs.sort();
        nbrs.dedup();
        assert_eq!(nbrs.len(), 6);
        assert!(!nbrs.contains(&i));
    }
}

#[test]
fn hexagonal_wiring_degree() {
    // interior of an even lattice: three emitted and three received joins
    let torus = plain(vec![4, 4], Tiling::Hexagons);
    for i in torus.locations() {
        let mut nbrs = torus.neighbors(&i).unwrap();
        nbrs.sort();
        nbrs.dedup();
        assert_eq!(nbrs.len(), 6);
    }
}

#[test]
fn diagonal_wiring_matches_touching_squares_in_two_dimensions() {
    // on a 3x3 lattice the generalized Moore wiring and the legacy
    // touching-squares wiring give the same eight neighbors
    let moore = plain(vec![3, 3], Tiling::OrthogonalAndDiagonal);
    let legacy = plain(vec![3, 3], Tiling::TouchingSquares);
    for i in moore.locations() {
        let mut a = moore.neighbors(&i).unwrap();
        let mut b = legacy.neighbors(&i).unwrap();
        a.sort();
        a.dedup();
        b.sort();
        b.dedup();
        assert_eq!(a, b);
        assert_eq!(a.len(), 8);
    }
}

#[test]
fn reduce_counts_every_location() {
    let torus = plain(vec![2, 3, 4], Tiling::Orthogonal);
    assert_eq!(torus.count_locations(), 24);
    let counted = torus.reduce(0usize, |_r: &Torus<Conway>, _l: &usize, a: usize| a + 1);
    assert_eq!(counted, 24);
    // folding from a different seed shifts the sum by exactly that seed
    let seeded = torus.reduce(100usize, |_r: &Torus<Conway>, _l: &usize, a: usize| a + 1);
    assert_eq!(seeded, 124);
}

#[test]
fn regions_is_the_torus_itself() {
    let torus = plain(vec![2, 2], Tiling::Orthogonal);
    let regions = torus.regions();
    assert_eq!(regions.len(), 1);
    assert_eq!(regions[0].locations().len(), 4);
}
