use life::Board;
use life::Error;
use life::SimulationEngine;

fn engine_with(width: usize, height: usize, alive: &[(usize, usize)]) -> SimulationEngine {
    let mut b = Board::new(width, height).unwrap();
    for &(x, y) in alive {
        b.set(x, y, 1).unwrap();
    }
    match SimulationEngine::new_from_board(b) {
        Ok(e) => e,
        Err(_) => panic!("engine construction failed"),
    }
}

fn live_cells(e: &SimulationEngine) -> Vec<(usize, usize)> {
    let b = e.cells();
    let mut out = Vec::new();
    for y in 0..b.height() {
        for x in 0..b.width() {
            if b.get(x, y).unwrap() == 1 {
                out.push((x, y));
            }
        }
    }
    out
}

#[test]
fn block_is_a_fixed_point() {
    // A 2x2 block centered in a 5x5 interior stays byte-for-byte unchanged.
    let seed = [(3, 3), (4, 3), (3, 4), (4, 4)];
    let mut e = engine_with(7, 7, &seed);
    let before = live_cells(&e);
    for _ in 0..5 {
        e.advance();
        assert_eq!(live_cells(&e), before);
    }
}

#[test]
fn blinker_oscillates_with_period_two() {
    let horizontal = [(2, 3), (3, 3), (4, 3)];
    let mut e = engine_with(7, 7, &horizontal);
    let start = live_cells(&e);
    e.advance();
    // One step yields the rotated, vertical form.
    assert_eq!(live_cells(&e), vec![(3, 2), (3, 3), (3, 4)]);
    e.advance();
    // A second step restores the original grid.
    assert_eq!(live_cells(&e), start);
}

#[test]
fn lone_cells_die_and_three_neighbors_give_birth() {
    let mut e = engine_with(5, 5, &[(2, 2)]);
    e.advance();
    assert_eq!(live_cells(&e), vec![]);
    // An L of three live cells births the fourth corner of the block.
    let mut e2 = engine_with(5, 5, &[(1, 1), (2, 1), (1, 2)]);
    e2.advance();
    assert_eq!(live_cells(&e2), vec![(1, 1), (2, 1), (1, 2), (2, 2)]);
}

#[test]
fn padding_ring_stays_dead() {
    // Run a pattern that presses against the wall; the ring never lights.
    let mut e = engine_with(5, 5, &[(1, 1), (2, 1), (3, 1), (1, 2), (2, 3)]);
    for _ in 0..12 {
        e.advance();
        let b = e.cells();
        let (w, h) = (b.width(), b.height());
        for x in 0..w {
            assert_eq!(b.get(x, 0).unwrap(), 0);
            assert_eq!(b.get(x, h - 1).unwrap(), 0);
        }
        for y in 0..h {
            assert_eq!(b.get(0, y).unwrap(), 0);
            assert_eq!(b.get(w - 1, y).unwrap(), 0);
        }
    }
}

#[test]
fn new_engine_is_all_dead() {
    let e = SimulationEngine::new(3, 2).unwrap();
    assert_eq!(e.cells().width(), 5);
    assert_eq!(e.cells().height(), 4);
    assert_eq!(live_cells(&e), vec![]);
}

#[test]
fn new_rejects_zero_interior() {
    assert!(matches!(SimulationEngine::new(0, 3), Err(Error::InvalidDimensions)));
    assert!(matches!(SimulationEngine::new(3, 0), Err(Error::InvalidDimensions)));
}

#[test]
fn new_from_board_rejects_boards_without_an_interior() {
    let tiny = Board::new(2, 2).unwrap();
    assert!(matches!(
        SimulationEngine::new_from_board(tiny),
        Err(Error::InvalidDimensions)
    ));
    let flat = Board::new(5, 2).unwrap();
    assert!(matches!(
        SimulationEngine::new_from_board(flat),
        Err(Error::InvalidDimensions)
    ));
}

#[test]
fn new_from_board_zero_fills_the_ring() {
    let mut b = Board::new(4, 4).unwrap();
    // Live cells on the ring are cleared at construction; interior ones stay.
    b.set(0, 0, 1).unwrap();
    b.set(3, 2, 1).unwrap();
    b.set(1, 1, 1).unwrap();
    let e = SimulationEngine::new_from_board(b).unwrap();
    assert_eq!(live_cells(&e), vec![(1, 1)]);
}
