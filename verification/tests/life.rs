use quantized_interactions::cell::Region;
use quantized_interactions::conway::{example, Conway};
use quantized_interactions::torus::{Tiling, Torus};

fn blinker() -> Torus<Conway> {
    let dims = vec![5usize, 5usize];
    Torus::new(Tiling::TouchingSquares, &dims, 0, |v: &Vec<usize>| {
        Conway::new(v[1] == 2 && v[0] >= 1 && v[0] <= 3)
    })
    .unwrap()
}

fn grid(torus: &Torus<Conway>, generation: usize) -> Vec<Vec<bool>> {
    let mut rows = Vec::new();
    for y in 0..5usize {
        let mut row = Vec::new();
        for x in 0..5usize {
            let idx = y * 5 + x;
            let alive = match torus.state(&idx, generation) {
                Some(s) => s.alive,
                None => false,
            };
            row.push(alive);
        }
        rows.push(row);
    }
    rows
}

#[test]
fn conway_blinker_flips() {
    let mut torus = blinker();
    let before = grid(&torus, 0);
    let expected_before = vec![
        vec![false, false, false, false, false],
        vec![false, false, true, false, false],
        vec![false, false, true, false, false],
        vec![false, false, true, false, false],
        vec![false, false, false, false, false],
    ];
    assert_eq!(before, expected_before);
    torus.update_all(0).unwrap();
    let after = grid(&torus, 1);
    let expected_after = vec![
        vec![false, false, false, false, false],
        vec![false, false, false, false, false],
        vec![false, true, true, true, false],
        vec![false, false, false, false, false],
        vec![false, false, false, false, false],
    ];
    assert_eq!(after, expected_after);
}

#[test]
fn update_is_idempotent() {
    let mut torus = blinker();
    torus.update_cell(7, 0).unwrap();
    let once = torus.state(&7usize, 1);
    torus.update_cell(7, 0).unwrap();
    let twice = torus.state(&7usize, 1);
    assert_eq!(once, twice);
    // a full sweep after per-cell updates stores the same values too
    torus.update_all(0).unwrap();
    assert_eq!(torus.state(&7usize, 1), once);
}

#[test]
fn update_all_is_deterministic() {
    let mut first = blinker();
    let mut second = blinker();
    for generation in 0..4usize {
        first.update_all(generation).unwrap();
        second.update_all(generation).unwrap();
    }
    for generation in 0..5usize {
        for idx in 0..25usize {
            assert_eq!(
                first.state(&idx, generation),
                second.state(&idx, generation),
                "snapshots must be bit-identical"
            );
        }
    }
}

#[test]
fn absent_generation_reads_as_none() {
    let torus = blinker();
    assert_eq!(torus.state(&0usize, 7), None);
}

#[test]
fn example_runs() {
    assert!(example().is_ok());
}
