//! Linemarkers, the lines by which the C preprocessor says which file and
//! line the text after them came from, and inclusion directives.
//!
//! A linemarker is `#`, optionally `line`, blanks, a decimal line number,
//! blanks, a quoted file name with C escapes, optionally blanks and a
//! decimal flag from 1 to 4, and the end of the line.

use vstd::prelude::*;
use crate::scan::{
    decimal_value, find_bytes, find_string_end, lemma_skip_class, lemma_string_end, matches_at,
    parse_decimal, search, skip_bytes, skip_class, stands_at, string_end, unescape,
    unescape_bytes, ByteClass, QUOTE,
};

verus! {

/// The flag at the end of a linemarker.
#[derive(Debug, Clone, Copy, PartialEq, Eq, Structural)]
pub enum LinemarkerFlag {
    /// Flag 1: a new file begins.
    Start,
    /// Flag 2: back in a file after another one ended.
    Return,
    /// Flag 3: the text comes from a system header.
    System,
    /// Flag 4: the text is to be treated as wrapped in C linkage.
    Extern,
}

/// A linemarker: the text behind it is line `child_line` of `path`.
#[derive(Debug, Clone, PartialEq, Eq)]
pub struct Linemarker {
    pub child_line: usize,
    pub path: Vec<u8>,
    pub flag: Option<LinemarkerFlag>,
}

/// The mathematical value of a `Linemarker`.
pub struct MarkerModel {
    pub child_line: int,
    pub path: Seq<u8>,
    pub flag: Option<LinemarkerFlag>,
}

impl View for Linemarker {
    type V = MarkerModel;

    open spec fn view(&self) -> MarkerModel {
        MarkerModel { child_line: self.child_line as int, path: self.path@, flag: self.flag }
    }
}

/// Where a search for the start of a linemarker ended.
#[derive(Debug, Clone, Copy, PartialEq, Eq, Structural)]
pub enum MarkerSearch {
    /// The bytes are too few to hold the start of a linemarker.
    Incomplete,
    /// No start of a linemarker is among the bytes.
    NotFound,
    /// The earliest start of a linemarker is at this position.
    Found(usize),
}

/// `# `, the plain start of a linemarker.
pub open spec fn hash_blank() -> Seq<u8> {
    seq![35u8, 32u8]
}

/// `#line `, the long start of a linemarker.
pub open spec fn hash_line() -> Seq<u8> {
    seq![35u8, 108u8, 105u8, 110u8, 101u8, 32u8]
}

/// `line`, the word that may follow `#`.
pub open spec fn word_line() -> Seq<u8> {
    seq![108u8, 105u8, 110u8, 101u8]
}

/// The word of an inclusion directive, between its two slashes.
pub open spec fn directive_word() -> Seq<u8> {
    seq![47u8, 105u8, 110u8, 99u8, 108u8, 117u8, 100u8, 101u8, 47u8]
}

/// The flag that a number stands for.
pub open spec fn flag_of(n: int) -> Option<LinemarkerFlag> {
    if n == 1 {
        Some(LinemarkerFlag::Start)
    } else if n == 2 {
        Some(LinemarkerFlag::Return)
    } else if n == 3 {
        Some(LinemarkerFlag::System)
    } else if n == 4 {
        Some(LinemarkerFlag::Extern)
    } else {
        None
    }
}

/// The length of the line end at `i`: a newline, a carriage return, or a
/// carriage return and a newline; zero where no line ends there.
pub open spec fn line_end_len(s: Seq<u8>, i: int) -> int {
    if i < 0 || i >= s.len() {
        0
    } else if s[i] == 10 {
        1
    } else if s[i] == 13 {
        if i + 1 < s.len() && s[i + 1] == 10 {
            2
        } else {
            1
        }
    } else {
        0
    }
}

/// The linemarker that stands in `s` at position `at`, with the
/// position behind its line end, if one stands there.
pub open spec fn marker_at(s: Seq<u8>, at: int) -> Option<(MarkerModel, int)> {
    let word = if matches_at(s, at + 1, word_line()) {
        at + 5
    } else {
        at + 1
    };
    let number = skip_class(s, word, ByteClass::Blank);
    let gap = skip_class(s, number, ByteClass::Digit);
    let quote = skip_class(s, gap, ByteClass::Blank);
    let close = string_end(s, quote + 1);
    let flag = skip_class(s, close + 1, ByteClass::Blank);
    let tail = skip_class(s, flag, ByteClass::Digit);
    let flagged = close + 1 < flag && flag < tail;
    let last = if flagged {
        tail
    } else {
        close + 1
    };
    if 0 <= at < s.len() && s[at] == 35 && word < number && number < gap && decimal_value(
        s,
        number,
        gap,
    ) <= usize::MAX && gap < quote && quote < s.len() && s[quote] == QUOTE && close < s.len() && (
    flagged ==> flag_of(decimal_value(s, flag, tail) as int).is_some()) && line_end_len(s, last)
        > 0 {
        Some(
            (
                MarkerModel {
                    child_line: decimal_value(s, number, gap) as int,
                    path: unescape(s, quote + 1, close),
                    flag: if flagged {
                        flag_of(decimal_value(s, flag, tail) as int)
                    } else {
                        None
                    },
                },
                last + line_end_len(s, last),
            ),
        )
    } else {
        None
    }
}

/// Where the earliest start of a linemarker, `# ` or `#line `, stands
/// from `from` on.
pub open spec fn marker_start(s: Seq<u8>, from: int) -> MarkerSearch {
    let plain = search(s, from, hash_blank());
    let long = search(s, from, hash_line());
    let first = if plain <= long {
        plain
    } else {
        long
    };
    if s.len() - from < 2 {
        MarkerSearch::Incomplete
    } else if first >= s.len() {
        MarkerSearch::NotFound
    } else {
        MarkerSearch::Found(first as usize)
    }
}

/// The next linemarker from `from` on: where it starts, what it says and
/// where the text behind it begins. There is none where no start of a
/// linemarker is found, or where what follows the earliest start is not
/// a linemarker.
pub open spec fn next_marker(s: Seq<u8>, from: int) -> Option<(int, MarkerModel, int)> {
    match marker_start(s, from) {
        MarkerSearch::Found(at) => match marker_at(s, at as int) {
            Some((m, end)) => Some((at as int, m, end)),
            None => None,
        },
        _ => None,
    }
}

/// The directive that stands at `at`: the directive word, white space and
/// a quoted file name. The result is the file name and the position
/// behind the closing quote.
pub open spec fn directive_at(s: Seq<u8>, at: int) -> Option<(Seq<u8>, int)> {
    let gap = at + 9;
    let quote = skip_class(s, gap, ByteClass::White);
    let close = string_end(s, quote + 1);
    if matches_at(s, at, directive_word()) && gap < quote && quote < s.len() && s[quote] == QUOTE
        && close < s.len() {
        Some((unescape(s, quote + 1, close), close + 1))
    } else {
        None
    }
}

/// The next directive from `from` on: where it starts, the file that it
/// names and the position behind it. There is none where the directive
/// word does not occur, or where what follows its first occurrence is
/// not a directive.
pub open spec fn next_directive(s: Seq<u8>, from: int) -> Option<(int, Seq<u8>, int)> {
    let at = search(s, from, directive_word());
    if at < s.len() {
        match directive_at(s, at) {
            Some((path, end)) => Some((at, path, end)),
            None => None,
        }
    } else {
        None
    }
}

/// A linemarker takes at least one byte and ends inside the bytes.
pub proof fn lemma_marker_at_range(s: Seq<u8>, at: int)
    ensures
        marker_at(s, at) matches Some((_, end)) ==> 0 <= at < end <= s.len(),
{
    if marker_at(s, at).is_some() {
        let word = if matches_at(s, at + 1, word_line()) {
            at + 5
        } else {
            at + 1
        };
        let number = skip_class(s, word, ByteClass::Blank);
        lemma_skip_class(s, word, ByteClass::Blank);
        let gap = skip_class(s, number, ByteClass::Digit);
        lemma_skip_class(s, number, ByteClass::Digit);
        let quote = skip_class(s, gap, ByteClass::Blank);
        lemma_skip_class(s, gap, ByteClass::Blank);
        let close = string_end(s, quote + 1);
        lemma_string_end(s, quote + 1);
        let flag = skip_class(s, close + 1, ByteClass::Blank);
        lemma_skip_class(s, close + 1, ByteClass::Blank);
        lemma_skip_class(s, flag, ByteClass::Digit);
    }
}

/// The next linemarker starts at or behind the place from which it was
/// sought, and ends behind its start and inside the bytes.
pub proof fn lemma_next_marker_range(s: Seq<u8>, from: int)
    requires
        0 <= from <= s.len() <= usize::MAX,
    ensures
        next_marker(s, from) matches Some((at, _, end)) ==> from <= at < end <= s.len(),
{
    crate::scan::lemma_search_first(s, from, hash_blank());
    crate::scan::lemma_search_first(s, from, hash_line());
    if let MarkerSearch::Found(at) = marker_start(s, from) {
        lemma_marker_at_range(s, at as int);
    }
}

/// The next directive starts at or behind the place from which it was
/// sought, and ends behind its start and inside the bytes.
pub proof fn lemma_next_directive_range(s: Seq<u8>, from: int)
    requires
        0 <= from <= s.len(),
    ensures
        next_directive(s, from) matches Some((at, _, end)) ==> from <= at < end <= s.len(),
{
    crate::scan::lemma_search_first(s, from, directive_word());
    let at = search(s, from, directive_word());
    if at < s.len() && directive_at(s, at).is_some() {
        lemma_skip_class(s, at + 9, ByteClass::White);
        lemma_string_end(s, skip_class(s, at + 9, ByteClass::White) + 1);
    }
}

fn flag_from(n: usize) -> (r: Option<LinemarkerFlag>)
    ensures
        r == flag_of(n as int),
{
    if n == 1 {
        Some(LinemarkerFlag::Start)
    } else if n == 2 {
        Some(LinemarkerFlag::Return)
    } else if n == 3 {
        Some(LinemarkerFlag::System)
    } else if n == 4 {
        Some(LinemarkerFlag::Extern)
    } else {
        None
    }
}

fn line_end_at(s: &[u8], i: usize) -> (r: usize)
    ensures
        r == line_end_len(s@, i as int),
{
    if i >= s.len() {
        0
    } else if s[i] == 10 {
        1
    } else if s[i] == 13 {
        if s.len() - i > 1 && s[i + 1] == 10 {
            2
        } else {
            1
        }
    } else {
        0
    }
}

/// Reads the linemarker that stands in `input` at position `at`.
///
/// The result holds the marker and the position behind its line end.
pub fn parse_linemarker_at(input: &[u8], at: usize) -> (res: Option<(Linemarker, usize)>)
    ensures
        match (res, marker_at(input@, at as int)) {
            (Some((m, end)), Some((mm, mend))) => m@ == mm && end == mend && at < end
                <= input@.len(),
            (None, None) => true,
            _ => false,
        },
{
    if at >= input.len() || input[at] != 35 {
        return None;
    }
    let line_word = vec![108u8, 105u8, 110u8, 101u8];
    assert(line_word@ =~= word_line());
    let word: usize = if stands_at(input, at + 1, line_word.as_slice()) {
        at + 5
    } else {
        at + 1
    };
    let number = skip_bytes(input, word, ByteClass::Blank);
    let gap = skip_bytes(input, number, ByteClass::Digit);
    let quote = skip_bytes(input, gap, ByteClass::Blank);
    if number == word || gap == number || quote == gap || quote >= input.len() || input[quote]
        != QUOTE {
        return None;
    }
    proof {
        lemma_skip_class(input@, number as int, ByteClass::Digit);
    }
    let child_line = match parse_decimal(input, number, gap) {
        Some(n) => n,
        None => {
            return None;
        },
    };
    let close = find_string_end(input, quote + 1);
    if close >= input.len() {
        return None;
    }
    let flag_start = skip_bytes(input, close + 1, ByteClass::Blank);
    let tail = skip_bytes(input, flag_start, ByteClass::Digit);
    let flagged = close + 1 < flag_start && flag_start < tail;
    let mut flag: Option<LinemarkerFlag> = None;
    let mut last: usize = close + 1;
    if flagged {
        proof {
            lemma_skip_class(input@, flag_start as int, ByteClass::Digit);
        }
        flag =
        match parse_decimal(input, flag_start, tail) {
            Some(n) => flag_from(n),
            None => None,
        };
        if flag.is_none() {
            return None;
        }
        last = tail;
    }
    let ending = line_end_at(input, last);
    if ending == 0 {
        return None;
    }
    let path = unescape_bytes(input, quote + 1, close);
    Some((Linemarker { child_line, path, flag }, last + ending))
}

/// Reads the linemarker that `input` begins with.
///
/// The result holds the marker and the number of bytes that its line takes.
pub fn parse_linemarker(input: &[u8]) -> (res: Option<(Linemarker, usize)>)
    ensures
        match (res, marker_at(input@, 0)) {
            (Some((m, end)), Some((mm, mend))) => m@ == mm && end == mend && 0 < end
                <= input@.len(),
            (None, None) => true,
            _ => false,
        },
{
    parse_linemarker_at(input, 0)
}

/// Finds the earliest start of a linemarker from `from` on.
pub fn find_linemarker_start(input: &[u8], from: usize) -> (res: MarkerSearch)
    requires
        from <= input@.len(),
    ensures
        res == marker_start(input@, from as int),
        res matches MarkerSearch::Found(at) ==> from <= at < input@.len(),
{
    if input.len() - from < 2 {
        return MarkerSearch::Incomplete;
    }
    let plain_pat = vec![35u8, 32u8];
    let long_pat = vec![35u8, 108u8, 105u8, 110u8, 101u8, 32u8];
    assert(plain_pat@ =~= hash_blank());
    assert(long_pat@ =~= hash_line());
    let plain = find_bytes(input, from, plain_pat.as_slice());
    let long = find_bytes(input, from, long_pat.as_slice());
    proof {
        crate::scan::lemma_search_first(input@, from as int, hash_blank());
        crate::scan::lemma_search_first(input@, from as int, hash_line());
    }
    let first: usize = if plain <= long {
        plain
    } else {
        long
    };
    if first >= input.len() {
        MarkerSearch::NotFound
    } else {
        MarkerSearch::Found(first)
    }
}

/// Finds the next linemarker from `from` on.
///
/// The result holds the position where the marker starts, the marker,
/// and the position behind its line end.
pub fn find_linemarker(input: &[u8], from: usize) -> (res: Option<(usize, Linemarker, usize)>)
    requires
        from <= input@.len(),
    ensures
        match (res, next_marker(input@, from as int)) {
            (Some((at, m, end)), Some((mat, mm, mend))) => at == mat && m@ == mm && end == mend
                && from <= at < end <= input@.len(),
            (None, None) => true,
            _ => false,
        },
{
    match find_linemarker_start(input, from) {
        MarkerSearch::Found(at) => match parse_linemarker_at(input, at) {
            Some((m, end)) => Some((at, m, end)),
            None => None,
        },
        _ => None,
    }
}

/// Reads the directive that stands in `input` at position `at`.
///
/// The result holds the file that the directive names and the position
/// behind its closing quote.
pub fn parse_include(input: &[u8], at: usize) -> (res: Option<(Vec<u8>, usize)>)
    ensures
        match (res, directive_at(input@, at as int)) {
            (Some((p, end)), Some((mp, mend))) => p@ == mp && end == mend && at + 11 <= end
                <= input@.len(),
            (None, None) => true,
            _ => false,
        },
{
    let pat = vec![47u8, 105u8, 110u8, 99u8, 108u8, 117u8, 100u8, 101u8, 47u8];
    assert(pat@ =~= directive_word());
    if !stands_at(input, at, pat.as_slice()) {
        return None;
    }
    assert(pat@.len() == 9);
    assert(at + 9 <= input.len());
    let gap: usize = at + 9;
    let quote = skip_bytes(input, gap, ByteClass::White);
    if quote == gap || quote >= input.len() || input[quote] != QUOTE {
        return None;
    }
    let close = find_string_end(input, quote + 1);
    if close >= input.len() {
        return None;
    }
    let path = unescape_bytes(input, quote + 1, close);
    Some((path, close + 1))
}

/// Finds the next directive from `from` on.
///
/// The result holds the position where the directive starts, the file
/// that it names, and the position behind it.
pub fn find_include(input: &[u8], from: usize) -> (res: Option<(usize, Vec<u8>, usize)>)
    requires
        from <= input@.len(),
    ensures
        match (res, next_directive(input@, from as int)) {
            (Some((at, p, end)), Some((mat, mp, mend))) => at == mat && p@ == mp && end == mend
                && from <= at < end <= input@.len(),
            (None, None) => true,
            _ => false,
        },
{
    let pat = vec![47u8, 105u8, 110u8, 99u8, 108u8, 117u8, 100u8, 101u8, 47u8];
    assert(pat@ =~= directive_word());
    let at = find_bytes(input, from, pat.as_slice());
    proof {
        crate::scan::lemma_search_first(input@, from as int, directive_word());
    }
    if at >= input.len() {
        return None;
    }
    match parse_include(input, at) {
        Some((p, end)) => Some((at, p, end)),
        None => None,
    }
}

} // verus!
