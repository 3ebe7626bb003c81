use life::Board;
use life::Error;

#[test]
fn new_zero_width_is_invalid() {
    assert!(matches!(Board::new(0, 5), Err(Error::InvalidDimensions)));
}

#[test]
fn new_zero_height_is_invalid() {
    assert!(matches!(Board::new(5, 0), Err(Error::InvalidDimensions)));
}

#[test]
fn new_board_is_all_dead() {
    let b = Board::new(4, 3).unwrap();
    assert_eq!(b.width(), 4);
    assert_eq!(b.height(), 3);
    for y in 0..3 {
        for x in 0..4 {
            assert_eq!(b.get(x, y).unwrap(), 0);
        }
    }
}

#[test]
fn get_rejects_each_boundary_coordinate() {
    let b = Board::new(4, 3).unwrap();
    assert!(matches!(b.get(4, 0), Err(Error::OutOfBounds)));
    assert!(matches!(b.get(0, 3), Err(Error::OutOfBounds)));
    assert!(matches!(b.get(4, 3), Err(Error::OutOfBounds)));
    assert!(matches!(b.get(usize::MAX, 0), Err(Error::OutOfBounds)));
    assert_eq!(b.get(3, 2).unwrap(), 0);
}

#[test]
fn set_rejects_each_boundary_coordinate() {
    let mut b = Board::new(4, 3).unwrap();
    assert!(matches!(b.set(4, 0, 1), Err(Error::OutOfBounds)));
    assert!(matches!(b.set(0, 3, 1), Err(Error::OutOfBounds)));
    assert!(matches!(b.set(4, 3, 1), Err(Error::OutOfBounds)));
}

#[test]
fn set_then_get_round_trips() {
    let mut b = Board::new(4, 3).unwrap();
    b.set(1, 2, 1).unwrap();
    assert_eq!(b.get(1, 2).unwrap(), 1);
    assert_eq!(b.get(2, 1).unwrap(), 0);
    b.set(1, 2, 0).unwrap();
    assert_eq!(b.get(1, 2).unwrap(), 0);
}

#[test]
fn embed_into_odd_margin_is_invalid() {
    let b = Board::new(2, 2).unwrap();
    assert!(matches!(b.embed_into(3), Err(Error::InvalidDimensions)));
    assert!(matches!(b.embed_into(1), Err(Error::InvalidDimensions)));
}

#[test]
fn embed_into_centers_the_contents() {
    let mut b = Board::new(2, 2).unwrap();
    b.set(0, 0, 1).unwrap();
    b.set(1, 1, 1).unwrap();
    let e = b.embed_into(4).unwrap();
    assert_eq!(e.width(), 6);
    assert_eq!(e.height(), 6);
    for y in 0..6 {
        for x in 0..6 {
            let expect = if (x, y) == (2, 2) || (x, y) == (3, 3) { 1 } else { 0 };
            assert_eq!(e.get(x, y).unwrap(), expect);
        }
    }
}

#[test]
fn embed_into_zero_margin_copies() {
    let mut b = Board::new(3, 2).unwrap();
    b.set(2, 1, 1).unwrap();
    let e = b.embed_into(0).unwrap();
    assert_eq!(e.width(), 3);
    assert_eq!(e.height(), 2);
    for y in 0..2 {
        for x in 0..3 {
            assert_eq!(e.get(x, y).unwrap(), b.get(x, y).unwrap());
        }
    }
}
