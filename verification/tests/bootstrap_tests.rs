use life::board_from_pattern;
use life::decode;
use life::engine_from_pattern;
use life::Error;

const GLIDER_RLE: &[u8] = b"x = 3, y = 3, rule = B3/S23\n2bo$obo$b2o!";

#[test]
fn pattern_board_holds_exactly_the_decoded_cells() {
    let p = decode(GLIDER_RLE).unwrap();
    let b = board_from_pattern(&p).unwrap();
    assert_eq!(b.width(), 3);
    assert_eq!(b.height(), 3);
    let alive = [(2, 0), (0, 1), (2, 1), (1, 2), (2, 2)];
    for y in 0..3 {
        for x in 0..3 {
            let expect = if alive.contains(&(x, y)) { 1 } else { 0 };
            assert_eq!(b.get(x, y).unwrap(), expect);
        }
    }
}

#[test]
fn declared_extent_sizes_the_board_when_larger() {
    let p = decode(b"x = 5, y = 4\no!").unwrap();
    let b = board_from_pattern(&p).unwrap();
    assert_eq!(b.width(), 5);
    assert_eq!(b.height(), 4);
    assert_eq!(b.get(0, 0).unwrap(), 1);
}

#[test]
fn content_sizes_the_board_when_it_exceeds_the_header() {
    let p = decode(b"x = 1, y = 1\n3o!").unwrap();
    let b = board_from_pattern(&p).unwrap();
    assert_eq!(b.width(), 3);
    assert_eq!(b.height(), 1);
}

#[test]
fn empty_pattern_with_zero_extent_is_invalid() {
    let p = decode(b"x = 0, y = 0\n!").unwrap();
    assert!(matches!(board_from_pattern(&p), Err(Error::InvalidDimensions)));
}

#[test]
fn engine_from_pattern_rejects_odd_margins() {
    let p = decode(GLIDER_RLE).unwrap();
    assert!(matches!(engine_from_pattern(&p, 3), Err(Error::InvalidDimensions)));
}

#[test]
fn engine_from_pattern_centers_the_pattern() {
    let p = decode(GLIDER_RLE).unwrap();
    let e = engine_from_pattern(&p, 2).unwrap();
    let b = e.cells();
    assert_eq!(b.width(), 5);
    assert_eq!(b.height(), 5);
    let alive = [(3, 1), (1, 2), (3, 2), (2, 3), (3, 3)];
    for y in 0..5 {
        for x in 0..5 {
            let expect = if alive.contains(&(x, y)) { 1 } else { 0 };
            assert_eq!(b.get(x, y).unwrap(), expect);
        }
    }
}

#[test]
fn glider_travels_one_cell_diagonally_every_four_steps() {
    let p = decode(GLIDER_RLE).unwrap();
    let mut e = engine_from_pattern(&p, 6).unwrap();
    assert_eq!(e.cells().width(), 9);
    for _ in 0..4 {
        e.advance();
    }
    let b = e.cells();
    let expect = [(4, 5), (5, 6), (6, 4), (6, 5), (6, 6)];
    for y in 0..9 {
        for x in 0..9 {
            let want = if expect.contains(&(x, y)) { 1 } else { 0 };
            assert_eq!(b.get(x, y).unwrap(), want);
        }
    }
}
