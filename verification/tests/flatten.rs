use device_tree_source::bounds::{get_bounds_containing_offset, IncludeBounds, IncludeMethod};
use device_tree_source::flatten::{
    find_file, include_files, include_files_at, parse_linemarkers, splice_bounds, IncludeError,
    SourceFile, MAX_DEPTH,
};
use device_tree_source::offsets::ParseError;

fn file(path: &str, contents: &str) -> SourceFile {
    SourceFile { path: path.as_bytes().to_vec(), contents: Some(contents.as_bytes().to_vec()) }
}

fn unreadable(path: &str) -> SourceFile {
    SourceFile { path: path.as_bytes().to_vec(), contents: None }
}

fn dts(path: &str, global_start: usize, child_start: usize, len: usize) -> IncludeBounds {
    IncludeBounds {
        path: path.as_bytes().to_vec(),
        global_start,
        child_start,
        len,
        method: IncludeMethod::DTS,
    }
}

fn cpp(path: &str, global_start: usize, child_start: usize, len: usize) -> IncludeBounds {
    IncludeBounds {
        path: path.as_bytes().to_vec(),
        global_start,
        child_start,
        len,
        method: IncludeMethod::CPP,
    }
}

#[test]
fn plain_file_is_one_bound() {
    let files = vec![file("plain.dts", "/ {\n\tmodel = \"board\";\n};\n")];
    let (buffer, bounds) = include_files(b"plain.dts", &files).unwrap();
    assert_eq!(buffer, files[0].contents.clone().unwrap());
    assert_eq!(bounds, vec![dts("plain.dts", 0, 0, buffer.len())]);
    let total: usize = bounds.iter().map(|b| b.len()).sum();
    assert_eq!(total, buffer.len());
    for k in 0..buffer.len() {
        assert_eq!(get_bounds_containing_offset(&bounds, k), Ok(&bounds[0]));
    }
}

#[test]
fn empty_file_is_one_empty_bound() {
    let files = vec![file("empty.dts", "")];
    assert_eq!(include_files(b"empty.dts", &files), Ok((Vec::new(), vec![dts("empty.dts", 0, 0, 0)])));
}

#[test]
fn directive_is_replaced_by_the_file() {
    let files = vec![
        file("a.dts", "hello\n/include/ \"b.dtsi\"\nworld\n"),
        file("b.dtsi", "middle\n"),
    ];
    let (buffer, bounds) = include_files(b"a.dts", &files).unwrap();
    assert_eq!(buffer, b"hello\nmiddle\n\nworld\n".to_vec());
    assert_eq!(
        bounds,
        vec![dts("a.dts", 0, 0, 6), dts("b.dtsi", 6, 0, 7), dts("a.dts", 13, 24, 25)]
    );
    for k in 0..buffer.len() {
        let b = get_bounds_containing_offset(&bounds, k).unwrap();
        let source = find_file(&files, b.child_path()).unwrap().contents.clone().unwrap();
        let at = k - b.start() + b.child_start();
        assert_eq!(source[at], buffer[k]);
    }
}

#[test]
fn two_directives_in_one_file() {
    let files = vec![
        file("a.dts", "/include/ \"b\"x/include/ \"c\""),
        file("b", "BB"),
        file("c", "CCC"),
    ];
    let (buffer, bounds) = include_files(b"a.dts", &files).unwrap();
    assert_eq!(buffer, b"BBxCCC".to_vec());
    assert_eq!(bounds.len(), 4);
    assert_eq!(bounds[0], dts("b", 0, 0, 2));
    assert_eq!(bounds[2], dts("c", 3, 0, 3));
}

#[test]
fn preprocessed_file_gives_preprocessor_bounds() {
    let text = "# 1 \"root.dts\"\n# 1 \"<built-in>\"\n# 1 \"root.dts\"\ncontent\n";
    let files = vec![file("out.dts", text), file("root.dts", "content\n"), unreadable("<built-in>")];
    let (buffer, bounds) = include_files(b"out.dts", &files).unwrap();
    assert_eq!(buffer, text.as_bytes().to_vec());
    assert_eq!(
        bounds,
        vec![cpp("root.dts", 15, 0, 0), cpp("<built-in>", 32, 0, 0), cpp("root.dts", 47, 0, 8)]
    );
    let last = bounds.last().unwrap();
    assert_eq!(last.end(), buffer.len());
    assert_eq!(get_bounds_containing_offset(&bounds, 50), Ok(last));
    assert_eq!(last.file_line_from_global(&buffer, b"content\n", 50), Ok((1, 4)));
}

#[test]
fn marker_line_gives_the_child_start() {
    let text = "# 1 \"root.dts\"\nfirst\n# 3 \"root.dts\" 2\nthird\n";
    let files = vec![file("out.dts", text), file("root.dts", "first\n\nthird\n")];
    let (buffer, bounds) = include_files(b"out.dts", &files).unwrap();
    assert_eq!(buffer, text.as_bytes().to_vec());
    assert_eq!(bounds, vec![cpp("root.dts", 15, 0, 6), cpp("root.dts", 38, 7, 6)]);
    assert_eq!(bounds[1].file_line_from_global(&buffer, b"first\n\nthird\n", 40), Ok((3, 3)));
}

#[test]
fn nested_files_three_deep() {
    let files = vec![
        file("root.dts", "r1\n/include/ \"inc1.dtsi\"\nr2\n"),
        file("inc1.dtsi", "a1\n/include/ \"inc2.dtsi\"\na2\n"),
        file("inc2.dtsi", "deep\n"),
    ];
    let (buffer, bounds) = include_files(b"root.dts", &files).unwrap();
    assert_eq!(buffer, b"r1\na1\ndeep\n\na2\n\nr2\n".to_vec());
    assert_eq!(
        bounds,
        vec![
            dts("root.dts", 0, 0, 3),
            dts("inc1.dtsi", 3, 0, 3),
            dts("inc2.dtsi", 6, 0, 5),
            dts("inc1.dtsi", 11, 24, 25),
            dts("root.dts", 36, 24, 25),
        ]
    );
    let expected = [
        (0usize, "root.dts", (1usize, 1usize)),
        (2, "root.dts", (1, 3)),
        (3, "inc1.dtsi", (1, 1)),
        (5, "inc1.dtsi", (1, 3)),
        (6, "inc2.dtsi", (1, 1)),
        (10, "inc2.dtsi", (1, 5)),
        (11, "inc1.dtsi", (2, 22)),
        (12, "inc1.dtsi", (3, 1)),
        (14, "inc1.dtsi", (3, 3)),
    ];
    for (offset, path, position) in expected.iter() {
        let b = get_bounds_containing_offset(&bounds, *offset).unwrap();
        assert_eq!(b.child_path(), path.as_bytes());
        let source = find_file(&files, b.child_path()).unwrap().contents.clone().unwrap();
        assert_eq!(b.file_line_from_global(&buffer, &source, *offset), Ok(*position));
    }
}

#[test]
fn directive_in_preprocessed_text_is_followed() {
    let text = "# 1 \"root.dts\"\nhead\n/include/ \"extra.dtsi\"\ntail\n";
    let files = vec![
        file("out.dts", text),
        file("root.dts", "head\n/include/ \"extra.dtsi\"\ntail\n"),
        file("extra.dtsi", "extra\n"),
    ];
    let (buffer, bounds) = include_files(b"out.dts", &files).unwrap();
    assert_eq!(buffer, b"# 1 \"root.dts\"\nhead\nextra\n\ntail\n".to_vec());
    assert_eq!(
        bounds,
        vec![cpp("root.dts", 15, 0, 5), dts("extra.dtsi", 20, 0, 6), cpp("root.dts", 26, 27, 28)]
    );
}

#[test]
fn linemarker_in_a_file_pulled_in_by_a_directive_is_an_error() {
    let text = "# 1 \"root.dts\"\nhead\n/include/ \"extra.dtsi\"\ntail\n";
    let files = vec![
        file("out.dts", text),
        file("root.dts", "head\n/include/ \"extra.dtsi\"\ntail\n"),
        file("extra.dtsi", "extra\n# 5 \"other.h\"\nmore\n"),
        file("other.h", "\n\n\n\n\n"),
    ];
    assert_eq!(
        include_files(b"out.dts", &files),
        Err(IncludeError::LinemarkerInDtsi(b"extra.dtsi".to_vec()))
    );
}

#[test]
fn missing_file_is_an_error() {
    let files = vec![file("a.dts", "hello\n/include/ \"missing.dtsi\"\nworld\n")];
    assert_eq!(include_files(b"a.dts", &files), Err(IncludeError::IOError(b"missing.dtsi".to_vec())));
    assert_eq!(include_files(b"b.dts", &files), Err(IncludeError::IOError(b"b.dts".to_vec())));
    let files = vec![
        file("a.dts", "hello\n/include/ \"locked.dtsi\"\nworld\n"),
        unreadable("locked.dtsi"),
    ];
    assert_eq!(include_files(b"a.dts", &files), Err(IncludeError::IOError(b"locked.dtsi".to_vec())));
}

#[test]
fn file_of_the_first_marker_must_be_read() {
    let files = vec![file("out.dts", "# 1 \"root.dts\"\ncontent\n"), unreadable("root.dts")];
    assert_eq!(include_files(b"out.dts", &files), Err(IncludeError::IOError(b"root.dts".to_vec())));
    let files = vec![file("out.dts", "# 1 \"root.dts\"\ncontent\n")];
    assert_eq!(include_files(b"out.dts", &files), Err(IncludeError::IOError(b"root.dts".to_vec())));
}

#[test]
fn file_of_a_later_marker_is_asked_for_once() {
    let text = "# 1 \"root.dts\"\n# 1 \"<built-in>\"\ncontent\n";
    let files = vec![file("out.dts", text), file("root.dts", "content\n")];
    assert_eq!(include_files(b"out.dts", &files), Err(IncludeError::IOError(b"<built-in>".to_vec())));
}

#[test]
fn marker_line_beyond_the_file_is_an_error() {
    let files = vec![file("out.dts", "# 3 \"root.dts\"\ncontent\n"), file("root.dts", "content\n")];
    assert_eq!(
        include_files(b"out.dts", &files),
        Err(IncludeError::ParseError(ParseError::LineOutOfRange))
    );
    let text = "# 1 \"root.dts\"\n# 9 \"root.dts\"\ncontent\n";
    let files = vec![file("out.dts", text), file("root.dts", "content\n")];
    assert_eq!(
        include_files(b"out.dts", &files),
        Err(IncludeError::ParseError(ParseError::LineOutOfRange))
    );
}

#[test]
fn files_that_pull_each_other_in_are_an_error() {
    let files = vec![file("a.dts", "/include/ \"b.dts\""), file("b.dts", "/include/ \"a.dts\"")];
    let res = include_files(b"a.dts", &files);
    assert!(matches!(res, Err(IncludeError::TooDeep(_))));
    assert_eq!(include_files_at(b"a.dts", 0, &files, 0), Err(IncludeError::TooDeep(b"a.dts".to_vec())));
    assert_eq!(include_files_at(b"a.dts", 0, &files, 1), Err(IncludeError::TooDeep(b"b.dts".to_vec())));
    assert!(MAX_DEPTH >= 64);
}

#[test]
fn offset_beyond_the_machine_is_an_error() {
    let files = vec![file("a.dts", "abc")];
    assert_eq!(
        include_files_at(b"a.dts", usize::MAX - 1, &files, 4),
        Err(IncludeError::ParseError(ParseError::PositionOutOfRange))
    );
    assert_eq!(
        include_files_at(b"a.dts", usize::MAX - 3, &files, 4),
        Ok((b"abc".to_vec(), vec![dts("a.dts", usize::MAX - 3, 0, 3)]))
    );
}

#[test]
fn first_file_with_the_path_counts() {
    let files = vec![file("a", "one"), file("b", "two"), file("a", "three")];
    assert_eq!(find_file(&files, b"a"), Some(&files[0]));
    assert_eq!(find_file(&files, b"b"), Some(&files[1]));
    assert_eq!(find_file(&files, b"c"), None);
}

#[test]
fn markers_end_the_last_bound_and_open_a_new_one() {
    let files = vec![file("f.dts", "1\n2\n3\n")];
    let mut bounds = vec![cpp("f.dts", 100, 0, 50)];
    let pre = b"one\n# 3 \"f.dts\"\nthree\n";
    assert_eq!(parse_linemarkers(pre, &mut bounds, 100, &files), Ok(()));
    assert_eq!(bounds, vec![cpp("f.dts", 100, 0, 4), cpp("f.dts", 116, 4, 6)]);

    let mut bounds = vec![dts("f.dts", 100, 0, 50)];
    assert_eq!(
        parse_linemarkers(pre, &mut bounds, 100, &files),
        Err(IncludeError::LinemarkerInDtsi(b"f.dts".to_vec()))
    );

    let mut bounds = vec![dts("f.dts", 100, 0, 50)];
    assert_eq!(parse_linemarkers(b"no marker here", &mut bounds, 100, &files), Ok(()));
    assert_eq!(bounds, vec![dts("f.dts", 100, 0, 50)]);
}

#[test]
fn splice_splits_joins_and_sorts() {
    let bounds = vec![dts("a", 0, 0, 31)];
    let subs = vec![dts("b", 6, 0, 7)];
    assert_eq!(
        splice_bounds(bounds, subs, 18),
        Some(vec![dts("a", 0, 0, 6), dts("b", 6, 0, 7), dts("a", 13, 24, 25)])
    );
    assert_eq!(splice_bounds(vec![dts("a", 0, 0, 31)], Vec::new(), 18), None);
    assert_eq!(splice_bounds(vec![dts("a", 0, 0, 31)], vec![dts("b", usize::MAX, 0, 1)], 18), None);
}

#[test]
fn bound_that_would_end_beyond_the_machine_is_an_error() {
    let files = vec![file("f", "1\n2\n")];
    let mut bounds = vec![cpp("f", usize::MAX - 2, 0, 1)];
    assert_eq!(
        parse_linemarkers(b"one\n# 1 \"f\"\n", &mut bounds, 0, &files),
        Err(IncludeError::ParseError(ParseError::PositionOutOfRange))
    );

    let long = "x".repeat(40);
    let files = vec![file("out.dts", "# 1 \"t\"\n"), file("t", &long)];
    assert_eq!(
        include_files_at(b"out.dts", usize::MAX - 30, &files, 4),
        Err(IncludeError::ParseError(ParseError::PositionOutOfRange))
    );
    assert_eq!(
        include_files_at(b"out.dts", 30, &files, 4),
        Ok((b"# 1 \"t\"\n".to_vec(), vec![cpp("t", 38, 0, 40)]))
    );
}

#[test]
fn every_bound_of_a_result_has_an_end() {
    let files = vec![
        file("root.dts", "r1\n/include/ \"inc1.dtsi\"\nr2\n"),
        file("inc1.dtsi", "a1\n/include/ \"inc2.dtsi\"\na2\n"),
        file("inc2.dtsi", "deep\n"),
    ];
    let (_, bounds) = include_files(b"root.dts", &files).unwrap();
    for b in bounds.iter() {
        assert_eq!(b.end(), b.start() + b.len());
        assert!(b.start().checked_add(b.len()).is_some());
    }
}
