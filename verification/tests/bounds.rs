use device_tree_source::bounds::{
    get_bounds_containing_offset, sort_bounds, BoundsError, IncludeBounds, IncludeMethod,
};
use device_tree_source::offsets::{byte_offset_to_line_col, ParseError};
use std::cmp::Ordering;

fn bound(path: &str, global_start: usize, child_start: usize, len: usize) -> IncludeBounds {
    IncludeBounds {
        path: path.as_bytes().to_vec(),
        global_start,
        child_start,
        len,
        method: IncludeMethod::DTS,
    }
}

fn cpp_bound(path: &str, global_start: usize, child_start: usize, len: usize) -> IncludeBounds {
    IncludeBounds {
        path: path.as_bytes().to_vec(),
        global_start,
        child_start,
        len,
        method: IncludeMethod::CPP,
    }
}

#[test]
fn getters_give_the_fields() {
    let b = cpp_bound("x.dts", 10, 3, 5);
    assert_eq!(b.child_path(), &b"x.dts"[..]);
    assert_eq!(b.start(), 10);
    assert_eq!(b.end(), 15);
    assert_eq!(b.global_end(), 15);
    assert_eq!(b.len(), 5);
    assert_eq!(b.child_start(), 3);
    assert_eq!(*b.include_method(), IncludeMethod::CPP);
    assert!(b.contains(10));
    assert!(b.contains(14));
    assert!(!b.contains(15));
    assert!(!b.contains(9));
}

#[test]
fn split_in_the_middle_leaves_a_remainder() {
    for n in [0usize, 1, 7, 1000] {
        let mut bounds = vec![bound("X", 0, 0, 100)];
        assert!(IncludeBounds::can_split(&bounds, 40, 40 + n, 20));
        IncludeBounds::split_bounds(&mut bounds, 40, 40 + n, 20);
        assert_eq!(bounds, vec![bound("X", 0, 0, 40), bound("X", 40 + n, 60, 60)]);
    }
}

#[test]
fn split_at_the_end_of_a_bound_leaves_an_empty_remainder() {
    let mut bounds = vec![bound("X", 5, 2, 10)];
    IncludeBounds::split_bounds(&mut bounds, 15, 18, 4);
    assert_eq!(bounds, vec![bound("X", 5, 2, 10), bound("X", 18, 16, 0)]);
}

#[test]
fn split_at_the_left_edge_moves_the_bound() {
    let mut bounds = vec![bound("X", 0, 0, 10), bound("Y", 10, 0, 30)];
    IncludeBounds::split_bounds(&mut bounds, 10, 17, 3);
    assert_eq!(
        bounds,
        vec![bound("X", 0, 0, 10), bound("X", 17, 13, 0), bound("Y", 17, 0, 23)]
    );
}

#[test]
fn split_leaves_other_bounds_alone() {
    let mut bounds = vec![bound("X", 0, 0, 10), bound("Y", 50, 0, 30)];
    IncludeBounds::split_bounds(&mut bounds, 20, 25, 3);
    assert_eq!(bounds, vec![bound("X", 0, 0, 10), bound("Y", 50, 0, 30)]);
    let mut bounds = vec![bound("X", 20, 0, 10)];
    IncludeBounds::split_bounds(&mut bounds, 31, 35, 3);
    assert_eq!(bounds, vec![bound("X", 20, 0, 10)]);
}

#[test]
fn split_keeps_method_and_path_in_the_remainder() {
    let mut bounds = vec![cpp_bound("pre.dts", 0, 7, 10)];
    IncludeBounds::split_bounds(&mut bounds, 4, 9, 2);
    assert_eq!(bounds, vec![cpp_bound("pre.dts", 0, 7, 4), cpp_bound("pre.dts", 9, 13, 6)]);
}

#[test]
fn split_that_would_overflow_cannot_be_made() {
    let bounds = vec![bound("X", 0, 0, 100)];
    assert!(!IncludeBounds::can_split(&bounds, 40, 30, 0));
    assert!(!IncludeBounds::can_split(&bounds, 40, 50, usize::MAX));
    assert!(!IncludeBounds::can_split(&bounds, 40, usize::MAX, 0));
    assert!(!IncludeBounds::can_split(&bounds, 0, 101, 0));
    assert!(IncludeBounds::can_split(&bounds, 0, 100, 0));
    let bounds = vec![bound("X", usize::MAX, 0, 1)];
    assert!(!IncludeBounds::can_split(&bounds, 0, 0, 0));
}

#[test]
fn bounds_sort_by_start_then_end() {
    let sorted = sort_bounds(vec![
        bound("c", 10, 0, 5),
        bound("a", 0, 0, 10),
        bound("b", 10, 0, 0),
        bound("d", 10, 1, 5),
        bound("e", 3, 0, 1),
    ]);
    assert_eq!(
        sorted,
        vec![
            bound("a", 0, 0, 10),
            bound("e", 3, 0, 1),
            bound("b", 10, 0, 0),
            bound("c", 10, 0, 5),
            bound("d", 10, 1, 5),
        ]
    );
    assert_eq!(sort_bounds(Vec::new()), Vec::new());
}

#[test]
fn bounds_compare_by_start_then_end() {
    assert_eq!(bound("a", 0, 0, 10).cmp(&bound("b", 1, 0, 1)), Ordering::Less);
    assert_eq!(bound("a", 2, 0, 10).cmp(&bound("b", 1, 0, 100)), Ordering::Greater);
    assert_eq!(bound("a", 1, 0, 10).cmp(&bound("b", 1, 0, 11)), Ordering::Less);
    assert_eq!(bound("a", 1, 0, 12).cmp(&bound("b", 1, 0, 11)), Ordering::Greater);
    assert_eq!(bound("a", 1, 5, 11).cmp(&bound("b", 1, 0, 11)), Ordering::Equal);
}

#[test]
fn lookup_at_every_boundary() {
    let bounds = vec![bound("a", 0, 0, 6), bound("b", 6, 0, 7), bound("a", 13, 24, 7)];
    for offset in 0..20usize {
        let found = get_bounds_containing_offset(&bounds, offset).unwrap();
        let expected = if offset < 6 {
            &bounds[0]
        } else if offset < 13 {
            &bounds[1]
        } else {
            &bounds[2]
        };
        assert_eq!(found, expected);
        let covering = bounds.iter().filter(|b| b.contains(offset)).count();
        assert_eq!(covering, 1);
    }
    assert_eq!(get_bounds_containing_offset(&bounds, 20), Err(BoundsError::NotWithinBounds));
    assert_eq!(get_bounds_containing_offset(&bounds, usize::MAX), Err(BoundsError::NotWithinBounds));
}

#[test]
fn lookup_skips_empty_bounds_and_gaps() {
    let bounds = vec![
        cpp_bound("a", 15, 0, 0),
        cpp_bound("b", 32, 0, 0),
        cpp_bound("a", 47, 0, 8),
    ];
    assert_eq!(get_bounds_containing_offset(&bounds, 0), Err(BoundsError::NotWithinBounds));
    assert_eq!(get_bounds_containing_offset(&bounds, 15), Err(BoundsError::NotWithinBounds));
    assert_eq!(get_bounds_containing_offset(&bounds, 46), Err(BoundsError::NotWithinBounds));
    assert_eq!(get_bounds_containing_offset(&bounds, 47), Ok(&bounds[2]));
    assert_eq!(get_bounds_containing_offset(&bounds, 54), Ok(&bounds[2]));
    assert_eq!(get_bounds_containing_offset(&bounds, 55), Err(BoundsError::NotWithinBounds));
    assert_eq!(get_bounds_containing_offset(&[], 0), Err(BoundsError::NotWithinBounds));
}

#[test]
fn position_through_a_directive_bound() {
    let file = b"hello\n/include/ \"b.dtsi\"\nworld\n";
    let buffer = b"hello\nmiddle\n\nworld\n";
    let tail = bound("a.dts", 13, 24, 25);
    assert_eq!(tail.file_line_from_global(buffer, file, 13), Ok((2, 19)));
    assert_eq!(tail.file_line_from_global(buffer, file, 14), Ok((3, 1)));
    assert_eq!(tail.file_line_from_global(buffer, file, 19), Ok((3, 6)));
    let head = bound("a.dts", 0, 0, 6);
    assert_eq!(head.file_line_from_global(buffer, file, 0), Ok((1, 1)));
    assert_eq!(head.file_line_from_global(buffer, file, 5), Ok((1, 6)));
    assert_eq!(head.file_line_from_global(buffer, file, 6), Err(BoundsError::NotWithinBounds));
    assert_eq!(tail.file_line_from_global(buffer, file, 12), Err(BoundsError::NotWithinBounds));
}

#[test]
fn position_through_a_preprocessor_bound() {
    let buffer = b"# 1 \"root.dts\"\n# 1 \"<built-in>\"\n# 1 \"root.dts\"\ncontent\n";
    let file = b"content\n";
    let b = cpp_bound("root.dts", 47, 0, 8);
    assert_eq!(b.file_line_from_global(buffer, file, 47), Ok((1, 1)));
    assert_eq!(b.file_line_from_global(buffer, file, 49), Ok((1, 3)));
    assert_eq!(b.file_line_from_global(buffer, file, 54), Ok((1, 8)));
    assert_eq!(b.file_line_from_global(buffer, file, 55), Err(BoundsError::NotWithinBounds));

    let buffer = b"# 1 \"f\"\nab\ncd\n";
    let file = b"ab\ncd\n";
    let b = cpp_bound("f", 8, 0, 6);
    assert_eq!(b.file_line_from_global(buffer, file, 9), Ok((1, 2)));
    assert_eq!(b.file_line_from_global(buffer, file, 11), Ok((2, 1)));
    assert_eq!(b.file_line_from_global(buffer, file, 12), Ok((2, 2)));

    let file = b"x\ny\nab\ncd\n";
    let b = cpp_bound("f", 8, 4, 6);
    assert_eq!(b.file_line_from_global(buffer, file, 9), Ok((3, 2)));
    assert_eq!(b.file_line_from_global(buffer, file, 12), Ok((4, 2)));
}

#[test]
fn position_that_is_no_line_and_column_is_an_error() {
    let buffer = b"# 1 \"f\"\nab\ncd\n";
    let file = b"abcdefg\nxyz\n";
    let b = cpp_bound("f", 8, 4, 6);
    assert_eq!(
        b.file_line_from_global(buffer, file, 11),
        Err(BoundsError::ParseError(ParseError::PositionOutOfRange))
    );
    let far = bound("f", 0, usize::MAX, 4);
    assert_eq!(
        far.file_line_from_global(buffer, file, 1),
        Err(BoundsError::ParseError(ParseError::PositionOutOfRange))
    );
}

#[test]
fn whole_file_bound_maps_every_offset_to_itself() {
    let file = b"one\ntwo\n\nfour\n";
    let b = bound("plain.dts", 0, 0, file.len());
    for k in 0..file.len() {
        assert_eq!(b.file_line_from_global(file, file, k), Ok(byte_offset_to_line_col(file, k)));
    }
}
