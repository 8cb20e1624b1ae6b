//! Conversions between byte offsets and line/column positions.
//!
//! Lines and columns are counted from one. A line ends with its newline
//! byte; the byte after a newline is column one of the next line.

use vstd::prelude::*;

verus! {

/// The newline byte.
pub const NEWLINE: u8 = 10;

/// Why a conversion between lines and offsets failed.
#[derive(Debug, Clone, Copy, PartialEq, Eq, Structural)]
pub enum ParseError {
    /// The line asked for lies beyond the end of the bytes (or is line zero).
    LineOutOfRange,
    /// A line or a column came out negative or too large for a machine word.
    PositionOutOfRange,
}

/// The number of newline bytes in `s`.
pub open spec fn count_newlines(s: Seq<u8>) -> nat
    decreases s.len(),
{
    if s.len() == 0 {
        0
    } else {
        count_newlines(s.drop_last()) + if s.last() == NEWLINE { 1nat } else { 0nat }
    }
}

/// The prefix of `s` that lies strictly before `offset`.
pub open spec fn before(s: Seq<u8>, offset: int) -> Seq<u8> {
    if offset <= 0 {
        Seq::empty()
    } else if offset >= s.len() {
        s
    } else {
        s.take(offset)
    }
}

/// `offset` is where line `line` of `s` begins: it is the start of the
/// bytes or follows a newline, and `line - 1` newlines come before it.
pub open spec fn is_line_start(s: Seq<u8>, line: int, offset: int) -> bool {
    &&& 0 <= offset <= s.len()
    &&& offset == 0 || s[offset - 1] == NEWLINE
    &&& count_newlines(before(s, offset)) == line - 1
}

/// The offset at which line `line` of `s` begins, for a line that `s` holds.
pub open spec fn line_start(s: Seq<u8>, line: int) -> int {
    choose|offset: int| is_line_start(s, line, offset)
}

/// Whether `s` holds line `line`: it has at least `line - 1` newlines.
pub open spec fn has_line(s: Seq<u8>, line: int) -> bool {
    1 <= line <= count_newlines(s) + 1
}

/// The position of the last newline strictly before `offset`, or -1.
pub open spec fn last_newline_before(s: Seq<u8>, offset: int) -> int
    decreases offset,
{
    if offset <= 0 {
        -1
    } else if offset - 1 < s.len() && s[offset - 1] == NEWLINE {
        offset - 1
    } else {
        last_newline_before(s, offset - 1)
    }
}

/// The line that the byte at `offset` lies on.
pub open spec fn line_of(s: Seq<u8>, offset: int) -> int {
    1 + count_newlines(before(s, offset)) as int
}

/// The column of the byte at `offset` within its line.
pub open spec fn col_of(s: Seq<u8>, offset: int) -> int {
    offset - last_newline_before(s, offset)
}

/// Taking one more byte adds one to the count exactly when that byte is a newline.
pub proof fn lemma_count_step(s: Seq<u8>, i: int)
    requires
        0 <= i < s.len(),
    ensures
        count_newlines(s.take(i + 1)) == count_newlines(s.take(i)) + if s[i] == NEWLINE {
            1nat
        } else {
            0nat
        },
{
    assert(s.take(i + 1).drop_last() =~= s.take(i));
}

/// Bytes hold no more newlines than bytes.
pub proof fn lemma_count_bounded(s: Seq<u8>)
    ensures
        count_newlines(s) <= s.len(),
    decreases s.len(),
{
    if s.len() > 0 {
        lemma_count_bounded(s.drop_last());
    }
}

/// A line and a column are at least one, and no more than one past the offset.
pub proof fn lemma_line_col_range(s: Seq<u8>, offset: int)
    requires
        0 <= offset,
    ensures
        1 <= line_of(s, offset) <= offset + 1,
        1 <= col_of(s, offset) <= offset + 1,
{
    lemma_count_bounded(before(s, offset));
    lemma_last_newline(s, offset);
}

/// A prefix never holds more newlines than a longer prefix.
pub proof fn lemma_count_monotone(s: Seq<u8>, i: int, j: int)
    requires
        0 <= i <= j <= s.len(),
    ensures
        count_newlines(s.take(i)) <= count_newlines(s.take(j)),
    decreases j - i,
{
    if i < j {
        lemma_count_monotone(s, i, j - 1);
        lemma_count_step(s, j - 1);
    }
}

/// No position before `offset` that is later than `last_newline_before` holds a newline.
pub proof fn lemma_last_newline(s: Seq<u8>, offset: int)
    requires
        0 <= offset,
    ensures
        -1 <= last_newline_before(s, offset) < offset,
        last_newline_before(s, offset) >= 0 ==> last_newline_before(s, offset) < s.len()
            && s[last_newline_before(s, offset)] == NEWLINE,
        forall|k: int|
            last_newline_before(s, offset) < k < offset && k < s.len() ==> s[k] != NEWLINE,
    decreases offset,
{
    if offset > 0 && !(offset - 1 < s.len() && s[offset - 1] == NEWLINE) {
        lemma_last_newline(s, offset - 1);
    }
}

/// A line begins at one offset only.
pub proof fn lemma_line_start_unique(s: Seq<u8>, line: int, a: int, b: int)
    requires
        is_line_start(s, line, a),
        is_line_start(s, line, b),
    ensures
        a == b,
{
    assert(s.take(s.len() as int) =~= s);
    if a < b {
        lemma_count_step(s, b - 1);
        lemma_count_monotone(s, a, b - 1);
    } else if b < a {
        lemma_count_step(s, a - 1);
        lemma_count_monotone(s, b, a - 1);
    }
}

/// Every line from one to one more than the number of newlines begins somewhere.
pub proof fn lemma_line_start_exists(s: Seq<u8>, line: int, upto: int) -> (offset: int)
    requires
        0 <= upto <= s.len(),
        1 <= line <= count_newlines(s.take(upto)) + 1,
    ensures
        is_line_start(s, line, offset),
        offset <= upto,
    decreases upto,
{
    if upto == 0 {
        assert(before(s, 0) =~= Seq::<u8>::empty());
        0
    } else {
        lemma_count_step(s, upto - 1);
        if line <= count_newlines(s.take(upto - 1)) + 1 {
            lemma_line_start_exists(s, line, upto - 1)
        } else {
            assert(before(s, upto) =~= s.take(upto));
            upto
        }
    }
}

/// Going from a line to the offset where it begins and back gives that
/// line again, at column one: each line that the bytes hold begins at
/// some offset, and whichever offset begins it maps back to `(line, 1)`.
pub proof fn lemma_line_offset_round_trip(s: Seq<u8>, line: int)
    requires
        1 <= line <= count_newlines(s) + 1,
    ensures
        exists|offset: int| is_line_start(s, line, offset),
        forall|offset: int| #[trigger]
            is_line_start(s, line, offset) ==> line_of(s, offset) == line && col_of(s, offset)
                == 1,
{
    assert(s.take(s.len() as int) =~= s);
    let offset = lemma_line_start_exists(s, line, s.len() as int);
    assert(is_line_start(s, line, offset));
}

/// The offset of the first byte of line `line`.
///
/// Line one begins at offset zero. A later line begins right after the
/// newline that ends the line before it, so the line exists only if the
/// bytes hold at least `line - 1` newlines.
pub fn line_to_byte_offset(bytes: &[u8], line: usize) -> (res: Result<usize, ParseError>)
    ensures
        res.is_ok() <==> has_line(bytes@, line as int),
        res matches Ok(offset) ==> is_line_start(bytes@, line as int, offset as int) && offset
            == line_start(bytes@, line as int),
        res matches Err(e) ==> e == ParseError::LineOutOfRange,
{
    if line == 0 {
        return Err(ParseError::LineOutOfRange);
    }
    if line == 1 {
        proof {
            assert(before(bytes@, 0) =~= Seq::<u8>::empty());
            assert(is_line_start(bytes@, 1, 0));
            lemma_line_start_unique(bytes@, 1, 0, line_start(bytes@, 1));
        }
        return Ok(0);
    }
    let mut seen: usize = 0;
    let mut i: usize = 0;
    proof {
        assert(bytes@.take(bytes@.len() as int) =~= bytes@);
    }
    while i < bytes.len()
        invariant
            0 <= i <= bytes@.len(),
            line >= 2,
            seen == count_newlines(bytes@.take(i as int)),
            seen < line - 1,
            bytes@.take(bytes@.len() as int) == bytes@,
        decreases bytes@.len() - i,
    {
        proof {
            lemma_count_step(bytes@, i as int);
            lemma_count_monotone(bytes@, i as int + 1, bytes@.len() as int);
        }
        if bytes[i] == NEWLINE {
            seen = seen + 1;
            if seen == line - 1 {
                proof {
                    assert(before(bytes@, i + 1) =~= bytes@.take(i + 1));
                    assert(is_line_start(bytes@, line as int, i + 1));
                    lemma_line_start_unique(
                        bytes@,
                        line as int,
                        i + 1,
                        line_start(bytes@, line as int),
                    );
                }
                return Ok(i + 1);
            }
        }
        i = i + 1;
    }
    Err(ParseError::LineOutOfRange)
}

/// The line and column of the byte at `offset`.
///
/// The line is one more than the number of newlines strictly before
/// `offset`; the column is the distance from the last such newline, or
/// from just before the first byte where there is none.
pub fn byte_offset_to_line_col(bytes: &[u8], offset: usize) -> (res: (usize, usize))
    requires
        offset < usize::MAX,
    ensures
        res.0 == line_of(bytes@, offset as int),
        res.1 == col_of(bytes@, offset as int),
{
    let end: usize = if offset < bytes.len() { offset } else { bytes.len() };
    let mut line: usize = 1;
    let mut col: usize = offset + 1;
    let mut i: usize = 0;
    assert(before(bytes@, offset as int) =~= bytes@.take(end as int));
    while i < end
        invariant
            0 <= i <= end <= bytes@.len(),
            end <= offset < usize::MAX,
            line == 1 + count_newlines(bytes@.take(i as int)),
            line <= i + 1,
            col == offset - last_newline_before(bytes@, i as int),
        decreases end - i,
    {
        proof {
            lemma_count_step(bytes@, i as int);
        }
        if bytes[i] == NEWLINE {
            line = line + 1;
            col = offset - i;
        }
        i = i + 1;
    }
    proof {
        lemma_tail_without_newline(bytes@, end as int, offset as int);
    }
    (line, col)
}

/// Past the end of the bytes there is no newline to find.
proof fn lemma_tail_without_newline(s: Seq<u8>, end: int, offset: int)
    requires
        0 <= end <= offset,
        end == s.len() || end == offset,
    ensures
        last_newline_before(s, offset) == last_newline_before(s, end),
    decreases offset - end,
{
    if end < offset {
        lemma_tail_without_newline(s, end, offset - 1);
    }
}

} // verus!
