use life::decode;
use life::Error;

// The standard glider, comment lines included: one live cell in row 0
// column 2, two in row 1 (columns 0 and 2), two in row 2 (columns 1 and 2).
const GLIDER: &[u8] = b"#N Glider\n#C a small diagonal spaceship\nx = 3, y = 3, rule = B3/S23\n2bo$obo$b2o!\n";

#[test]
fn glider_decodes_to_its_five_cells() {
    let p = decode(GLIDER).unwrap();
    assert_eq!(p.width, 3);
    assert_eq!(p.height, 3);
    assert_eq!(p.cells, vec![(2, 0), (0, 1), (2, 1), (1, 2), (2, 2)]);
}

#[test]
fn header_without_rule_field_decodes() {
    let p = decode(b"x = 2, y = 1\n2o!").unwrap();
    assert_eq!(p.width, 2);
    assert_eq!(p.height, 1);
    assert_eq!(p.cells, vec![(0, 0), (1, 0)]);
}

#[test]
fn compact_header_decodes() {
    let p = decode(b"x=4,y=3\no$bo$2b2o!").unwrap();
    assert_eq!(p.width, 4);
    assert_eq!(p.height, 3);
    assert_eq!(p.cells, vec![(0, 0), (1, 1), (2, 2), (3, 2)]);
}

#[test]
fn body_whitespace_is_insignificant() {
    let p = decode(b"x = 2, y = 2\n o o $\n 2o !").unwrap();
    assert_eq!(p.cells, vec![(0, 0), (1, 0), (0, 1), (1, 1)]);
}

#[test]
fn multi_row_skip_advances_the_cursor() {
    let p = decode(b"x = 1, y = 3\no2$o!").unwrap();
    assert_eq!(p.cells, vec![(0, 0), (0, 2)]);
}

#[test]
fn dead_runs_emit_nothing() {
    let p = decode(b"x = 5, y = 1\n3b2o!").unwrap();
    assert_eq!(p.cells, vec![(3, 0), (4, 0)]);
}

#[test]
fn bare_count_before_terminator_is_malformed() {
    assert!(matches!(decode(b"x = 3, y = 3\n2o3!"), Err(Error::MalformedPattern)));
}

#[test]
fn bare_count_at_end_of_input_is_malformed() {
    assert!(matches!(decode(b"x = 3, y = 3\n3"), Err(Error::MalformedPattern)));
}

#[test]
fn missing_terminator_is_malformed() {
    assert!(matches!(decode(b"x = 3, y = 3\nbo$2bo"), Err(Error::MalformedPattern)));
}

#[test]
fn empty_input_is_malformed() {
    assert!(matches!(decode(b""), Err(Error::MalformedPattern)));
}

#[test]
fn missing_header_is_malformed() {
    assert!(matches!(decode(b"bo$2bo!"), Err(Error::MalformedPattern)));
}

#[test]
fn non_numeric_header_is_malformed() {
    assert!(matches!(decode(b"x = a, y = 3\n!"), Err(Error::MalformedPattern)));
    assert!(matches!(decode(b"x = 3, y =\n!"), Err(Error::MalformedPattern)));
}

#[test]
fn header_with_trailing_junk_is_malformed() {
    assert!(matches!(decode(b"x = 3, y = 3 junk\n!"), Err(Error::MalformedPattern)));
}

#[test]
fn unknown_body_byte_is_malformed() {
    assert!(matches!(decode(b"x = 3, y = 3\nbo?b!"), Err(Error::MalformedPattern)));
}

#[test]
fn oversized_count_is_malformed() {
    assert!(matches!(
        decode(b"x = 1, y = 1\n99999999999999999999o!"),
        Err(Error::MalformedPattern)
    ));
}

#[test]
fn zero_count_emits_nothing() {
    let p = decode(b"x = 1, y = 1\n0o!").unwrap();
    assert_eq!(p.cells, vec![]);
}

#[test]
fn content_after_terminator_is_ignored() {
    let p = decode(b"x = 1, y = 1\no!whatever follows").unwrap();
    assert_eq!(p.cells, vec![(0, 0)]);
}

#[test]
fn declared_extent_is_a_hint_not_a_bound() {
    // Coordinates beyond the declared extent decode fine.
    let p = decode(b"x = 1, y = 1\n3o!").unwrap();
    assert_eq!(p.width, 1);
    assert_eq!(p.cells, vec![(0, 0), (1, 0), (2, 0)]);
}

#[test]
fn zero_extent_header_decodes() {
    let p = decode(b"x = 0, y = 0\n!").unwrap();
    assert_eq!(p.width, 0);
    assert_eq!(p.height, 0);
    assert_eq!(p.cells, vec![]);
}
