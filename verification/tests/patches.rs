use quantized_interactions::cell::{Cell, Region};
use quantized_interactions::conway::Conway;
use quantized_interactions::error::Error;
use quantized_interactions::patch::{AtMostSixNeighbors, Neigbors};
use quantized_interactions::{patch_poc, wave};

#[test]
fn cells_memoize_their_states() {
    let mut cell: Cell<Conway> = Cell::new(0, Conway::new(true));
    assert!(cell.has_state(0));
    assert!(!cell.has_state(1));
    assert_eq!(cell.state(0), Some(Conway::new(true)));
    assert_eq!(cell.state(1), None);
    cell.commit(1, Conway::new(false));
    assert_eq!(cell.state(1), Some(Conway::new(false)));
    // recommitting an existing generation is a no-op, not an overwrite
    cell.commit(1, Conway::new(true));
    assert_eq!(cell.state(1), Some(Conway::new(false)));
}

#[test]
fn join_is_symmetric_and_idempotent() {
    let mut cells: Vec<Cell<Conway>> = vec![
        Cell::new(0, Conway::new(false)),
        Cell::new(0, Conway::new(true)),
    ];
    quantized_interactions::cell::join(&mut cells, 0, 1).unwrap();
    quantized_interactions::cell::join(&mut cells, 0, 1).unwrap();
    quantized_interactions::cell::join(&mut cells, 1, 0).unwrap();
    assert_eq!(cells[0].neighbors(), vec![1]);
    assert_eq!(cells[1].neighbors(), vec![0]);
}

#[test]
fn six_neighbors_then_capacity() {
    let mut store = AtMostSixNeighbors::default();
    for n in 10..16u8 {
        let count = store.add(3, n).unwrap();
        assert_eq!(count, n - 9);
    }
    // an already recorded neighbor is accepted without growing the store
    assert_eq!(store.add(3, 12), Ok(6));
    // a seventh distinct neighbor is refused
    assert_eq!(store.add(3, 99), Err(Error::Capacity));
}

#[test]
fn neighbor_iterator_walks_recorded_slots() {
    let mut store = AtMostSixNeighbors::default();
    store.add(2, 7).unwrap();
    store.add(2, 9).unwrap();
    let mut iter = store.neighbors(2);
    assert_eq!(iter.next(), Some(7));
    assert_eq!(iter.next(), Some(9));
    assert_eq!(iter.next(), None);
    assert_eq!(iter.next(), None);
}

#[test]
fn empty_store_yields_nothing_beyond_the_cleared_slots() {
    let store = AtMostSixNeighbors::default();
    let mut iter = store.neighbors(1);
    assert_eq!(iter.next(), None);
}

#[test]
fn patch_poc_example_runs() {
    assert!(patch_poc::example().is_ok());
}

#[test]
fn debug_probe_accepts_even_sizes_only() {
    assert!(wave::debug(4).is_ok());
    assert_eq!(wave::debug(5), Err(Error::Topology));
    assert_eq!(wave::debug(0), Err(Error::Dimension));
}

#[test]
fn empty_region_owns_nothing() {
    let region = quantized_interactions::cell::CellRegion;
    let locs: Vec<usize> = <_ as Region<Conway>>::locations(&region);
    assert!(locs.is_empty());
}
