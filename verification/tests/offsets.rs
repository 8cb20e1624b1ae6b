use device_tree_source::offsets::{byte_offset_to_line_col, line_to_byte_offset, ParseError};

#[test]
fn lines_to_bytes() {
    let string = "Howdy\nHow goes it\n\nI'm doing fine\n";
    assert_eq!(line_to_byte_offset(string.as_bytes(), 1).unwrap(), 0);
    assert_eq!(line_to_byte_offset(string.as_bytes(), 2).unwrap(), 6);
    assert_eq!(line_to_byte_offset(string.as_bytes(), 3).unwrap(), 18);
    assert_eq!(line_to_byte_offset(string.as_bytes(), 4).unwrap(), 19);
}

#[test]
fn bytes_to_lines() {
    let string = "Howdy\nHow goes it\n\nI'm doing fine\n";
    assert_eq!(byte_offset_to_line_col(string.as_bytes(), 0), (1, 1));
    assert_eq!(byte_offset_to_line_col(string.as_bytes(), 8), (2, 3));
    assert_eq!(byte_offset_to_line_col(string.as_bytes(), 20), (4, 2));
    assert_eq!(byte_offset_to_line_col(string.as_bytes(), 18), (3, 1));
}

#[test]
fn line_after_last_newline_exists() {
    let string = "Howdy\nHow goes it\n\nI'm doing fine\n";
    assert_eq!(line_to_byte_offset(string.as_bytes(), 5), Ok(34));
}

#[test]
fn line_beyond_end_is_refused() {
    let string = "Howdy\nHow goes it\n\nI'm doing fine\n";
    assert_eq!(line_to_byte_offset(string.as_bytes(), 6), Err(ParseError::LineOutOfRange));
    assert_eq!(line_to_byte_offset(b"", 2), Err(ParseError::LineOutOfRange));
}

#[test]
fn line_zero_is_refused() {
    assert_eq!(line_to_byte_offset(b"a\nb\n", 0), Err(ParseError::LineOutOfRange));
}

#[test]
fn first_line_of_empty_bytes() {
    assert_eq!(line_to_byte_offset(b"", 1), Ok(0));
    assert_eq!(byte_offset_to_line_col(b"", 0), (1, 1));
}

#[test]
fn offset_on_a_newline_belongs_to_its_line() {
    let string = "ab\ncd\n";
    assert_eq!(byte_offset_to_line_col(string.as_bytes(), 2), (1, 3));
    assert_eq!(byte_offset_to_line_col(string.as_bytes(), 3), (2, 1));
}

#[test]
fn offset_past_the_end_counts_from_last_newline() {
    let string = "ab\ncd\n";
    assert_eq!(byte_offset_to_line_col(string.as_bytes(), 10), (3, 5));
    assert_eq!(byte_offset_to_line_col(b"abc", 7), (1, 8));
}

#[test]
fn line_offset_round_trip() {
    let string = "Howdy\nHow goes it\n\nI'm doing fine\n";
    for line in 1..=5usize {
        let offset = line_to_byte_offset(string.as_bytes(), line).unwrap();
        assert_eq!(byte_offset_to_line_col(string.as_bytes(), offset), (line, 1));
    }
}
