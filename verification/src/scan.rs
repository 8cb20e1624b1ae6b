//! Small scanners over bytes: runs of a class of bytes, decimal numbers,
//! the first place where a pattern stands, and quoted strings with
//! C escapes.

use vstd::prelude::*;
use vstd::slice::slice_subrange;

verus! {

pub const QUOTE: u8 = 34;

pub const BACKSLASH: u8 = 92;

/// The classes of bytes that the scanners skip over.
#[derive(Debug, Clone, Copy, PartialEq, Eq, Structural)]
pub enum ByteClass {
    /// Space and tab.
    Blank,
    /// Space, tab, carriage return and newline.
    White,
    /// The ten decimal digits.
    Digit,
}

/// `b` belongs to `class`.
pub open spec fn in_class(class: ByteClass, b: u8) -> bool {
    match class {
        ByteClass::Blank => b == 32 || b == 9,
        ByteClass::White => b == 32 || b == 9 || b == 13 || b == 10,
        ByteClass::Digit => 48 <= b <= 57,
    }
}

/// The first position from `i` on that holds no byte of `class`.
pub open spec fn skip_class(s: Seq<u8>, i: int, class: ByteClass) -> int
    decreases s.len() - i,
{
    if 0 <= i < s.len() && in_class(class, s[i]) {
        skip_class(s, i + 1, class)
    } else {
        i
    }
}

/// The number that the decimal digits of `s` from `from` up to `to` write.
pub open spec fn decimal_value(s: Seq<u8>, from: int, to: int) -> nat
    decreases to - from,
{
    if to <= from || to > s.len() || from < 0 {
        0
    } else {
        (decimal_value(s, from, to - 1) * 10 + (s[to - 1] - 48)) as nat
    }
}

/// `pat` stands in `s` at position `i`.
pub open spec fn matches_at(s: Seq<u8>, i: int, pat: Seq<u8>) -> bool {
    0 <= i && i + pat.len() <= s.len() && s.subrange(i, i + pat.len()) == pat
}

/// The first position from `from` on at which `pat` stands in `s`, or the
/// length of `s` where it stands nowhere.
pub open spec fn search(s: Seq<u8>, from: int, pat: Seq<u8>) -> int
    decreases s.len() - from,
{
    if from < 0 || from >= s.len() {
        s.len() as int
    } else if matches_at(s, from, pat) {
        from
    } else {
        search(s, from + 1, pat)
    }
}

/// The position of the quote that closes a string whose body begins at
/// `i`; a byte behind a backslash never closes it. Where the string is
/// not closed, the result is not below the length of `s`.
pub open spec fn string_end(s: Seq<u8>, i: int) -> int
    decreases s.len() - i,
{
    if i < 0 || i >= s.len() {
        s.len() as int
    } else if s[i] == QUOTE {
        i
    } else if s[i] == BACKSLASH {
        if i + 1 < s.len() {
            string_end(s, i + 2)
        } else {
            s.len() as int
        }
    } else {
        string_end(s, i + 1)
    }
}

pub open spec fn is_octal(b: u8) -> bool {
    48 <= b <= 55
}

/// The value of a hexadecimal digit, or -1 for another byte.
pub open spec fn hex_value(b: u8) -> int {
    if 48 <= b <= 57 {
        b - 48
    } else if 97 <= b <= 102 {
        b - 87
    } else if 65 <= b <= 70 {
        b - 55
    } else {
        -1
    }
}

/// How many bytes the escape that begins with the backslash at `i` takes,
/// in a string body that ends before `to`: the backslash, then up to
/// three octal digits, or `x` and up to two hexadecimal digits, or one
/// other byte.
pub open spec fn escape_len(s: Seq<u8>, i: int, to: int) -> int {
    let c = s[i + 1];
    if is_octal(c) {
        if i + 2 < to && is_octal(s[i + 2]) {
            if i + 3 < to && is_octal(s[i + 3]) {
                4
            } else {
                3
            }
        } else {
            2
        }
    } else if c == 120 && i + 2 < to && hex_value(s[i + 2]) >= 0 {
        if i + 3 < to && hex_value(s[i + 3]) >= 0 {
            4
        } else {
            3
        }
    } else {
        2
    }
}

/// The byte that the escape at `i` stands for: the number that its octal
/// or hexadecimal digits write (its low eight bits), newline, tab and
/// carriage return for `n`, `t` and `r`, and any other byte for itself.
pub open spec fn escape_byte(s: Seq<u8>, i: int, to: int) -> u8 {
    let c = s[i + 1];
    let n = escape_len(s, i, to);
    if is_octal(c) {
        if n == 4 {
            (((c - 48) * 64 + (s[i + 2] - 48) * 8 + (s[i + 3] - 48)) % 256) as u8
        } else if n == 3 {
            ((c - 48) * 8 + (s[i + 2] - 48)) as u8
        } else {
            (c - 48) as u8
        }
    } else if c == 120 && n == 4 {
        (hex_value(s[i + 2]) * 16 + hex_value(s[i + 3])) as u8
    } else if c == 120 && n == 3 {
        hex_value(s[i + 2]) as u8
    } else if c == 110 {
        10
    } else if c == 116 {
        9
    } else if c == 114 {
        13
    } else {
        c
    }
}

/// The bytes that the string body from `i` up to `to` stands for, with
/// every escape replaced by its byte.
pub open spec fn unescape(s: Seq<u8>, i: int, to: int) -> Seq<u8>
    decreases to - i,
{
    if i < 0 || i >= to || to > s.len() {
        Seq::empty()
    } else if s[i] == BACKSLASH && i + 1 < to {
        seq![escape_byte(s, i, to)] + unescape(s, i + escape_len(s, i, to), to)
    } else {
        seq![s[i]] + unescape(s, i + 1, to)
    }
}

/// `search` finds a place where the pattern stands, and the first one.
pub proof fn lemma_search_first(s: Seq<u8>, from: int, pat: Seq<u8>)
    requires
        0 <= from,
    ensures
        from <= search(s, from, pat) || search(s, from, pat) == s.len(),
        search(s, from, pat) <= s.len(),
        search(s, from, pat) < s.len() ==> matches_at(s, search(s, from, pat), pat),
        forall|k: int| from <= k < search(s, from, pat) ==> !matches_at(s, k, pat),
    decreases s.len() - from,
{
    if from < s.len() && !matches_at(s, from, pat) {
        lemma_search_first(s, from + 1, pat);
    }
}

/// Skipping stops inside the bytes or at their end, on a byte that is not
/// of the class, and passes only bytes of the class.
pub proof fn lemma_skip_class(s: Seq<u8>, i: int, class: ByteClass)
    requires
        0 <= i <= s.len(),
    ensures
        i <= skip_class(s, i, class) <= s.len(),
        skip_class(s, i, class) < s.len() ==> !in_class(class, s[skip_class(s, i, class)]),
        forall|k: int| i <= k < skip_class(s, i, class) ==> in_class(class, s[k]),
    decreases s.len() - i,
{
    if i < s.len() && in_class(class, s[i]) {
        lemma_skip_class(s, i + 1, class);
    }
}

/// The end of a string lies at or behind the start of its body, and
/// inside the bytes or at their end.
pub proof fn lemma_string_end(s: Seq<u8>, i: int)
    requires
        0 <= i <= s.len(),
    ensures
        i <= string_end(s, i) <= s.len(),
        string_end(s, i) < s.len() ==> s[string_end(s, i)] == QUOTE,
    decreases s.len() - i,
{
    if i < s.len() && s[i] != QUOTE {
        if s[i] == BACKSLASH {
            if i + 1 < s.len() {
                lemma_string_end(s, i + 2);
            }
        } else {
            lemma_string_end(s, i + 1);
        }
    }
}

/// A longer run of digits writes a number that is not smaller.
pub proof fn lemma_decimal_monotone(s: Seq<u8>, from: int, mid: int, to: int)
    requires
        0 <= from <= mid <= to <= s.len(),
        forall|k: int| from <= k < to ==> in_class(ByteClass::Digit, s[k]),
    ensures
        decimal_value(s, from, mid) <= decimal_value(s, from, to),
    decreases to - mid,
{
    if mid < to {
        lemma_decimal_monotone(s, from, mid, to - 1);
    }
}

/// Whether `b` belongs to `class`.
pub fn class_has(class: ByteClass, b: u8) -> (r: bool)
    ensures
        r == in_class(class, b),
{
    match class {
        ByteClass::Blank => b == 32 || b == 9,
        ByteClass::White => b == 32 || b == 9 || b == 13 || b == 10,
        ByteClass::Digit => 48 <= b && b <= 57,
    }
}

/// The first position from `i` on that holds no byte of `class`.
pub fn skip_bytes(s: &[u8], i: usize, class: ByteClass) -> (r: usize)
    requires
        i <= s@.len(),
    ensures
        r == skip_class(s@, i as int, class),
        i <= r <= s@.len(),
{
    let mut k: usize = i;
    while k < s.len() && class_has(class, s[k])
        invariant
            i <= k <= s@.len(),
            skip_class(s@, k as int, class) == skip_class(s@, i as int, class),
        decreases s@.len() - k,
    {
        k = k + 1;
    }
    k
}

/// The number that the digits from `from` up to `to` write, if it fits a
/// machine word.
pub fn parse_decimal(s: &[u8], from: usize, to: usize) -> (r: Option<usize>)
    requires
        from <= to <= s@.len(),
        forall|k: int| from <= k < to ==> in_class(ByteClass::Digit, s@[k]),
    ensures
        r == if decimal_value(s@, from as int, to as int) <= usize::MAX {
            Some(decimal_value(s@, from as int, to as int) as usize)
        } else {
            None
        },
{
    let mut acc: usize = 0;
    let mut k: usize = from;
    while k < to
        invariant
            from <= k <= to <= s@.len(),
            acc == decimal_value(s@, from as int, k as int),
            forall|j: int| from <= j < to ==> in_class(ByteClass::Digit, s@[j]),
        decreases to - k,
    {
        let d: usize = (s[k] - 48) as usize;
        proof {
            lemma_decimal_monotone(s@, from as int, k as int + 1, to as int);
        }
        if acc > (usize::MAX - d) / 10 {
            return None;
        }
        acc = acc * 10 + d;
        k = k + 1;
    }
    Some(acc)
}

/// The first position from `from` on at which `pat` stands in `s`, or the
/// length of `s`.
pub fn find_bytes(s: &[u8], from: usize, pat: &[u8]) -> (r: usize)
    ensures
        r == search(s@, from as int, pat@),
        r <= s@.len(),
{
    let mut k: usize = from;
    while k < s.len()
        invariant
            from <= k,
            search(s@, k as int, pat@) == search(s@, from as int, pat@),
        decreases s@.len() - k,
    {
        if stands_at(s, k, pat) {
            return k;
        }
        k = k + 1;
    }
    s.len()
}

/// Whether `pat` stands in `s` at position `i`.
pub fn stands_at(s: &[u8], i: usize, pat: &[u8]) -> (r: bool)
    ensures
        r == matches_at(s@, i as int, pat@),
{
    if i > s.len() || pat.len() > s.len() - i {
        return false;
    }
    let mut k: usize = 0;
    while k < pat.len()
        invariant
            0 <= k <= pat@.len(),
            i + pat@.len() <= s@.len() <= usize::MAX,
            forall|j: int| 0 <= j < k ==> s@[i + j] == pat@[j],
        decreases pat@.len() - k,
    {
        if s[i + k] != pat[k] {
            proof {
                assert(s@.subrange(i as int, i + pat@.len())[k as int] == s@[i + k]);
            }
            return false;
        }
        k = k + 1;
    }
    proof {
        assert(s@.subrange(i as int, i + pat@.len()) =~= pat@);
    }
    true
}

/// The position of the quote that closes the string whose body begins at
/// `i`, or a position not below the length of `s`.
pub fn find_string_end(s: &[u8], i: usize) -> (r: usize)
    requires
        i <= s@.len(),
    ensures
        r == string_end(s@, i as int),
        i <= r <= s@.len(),
{
    let mut k: usize = i;
    while k < s.len()
        invariant
            i <= k <= s@.len(),
            string_end(s@, k as int) == string_end(s@, i as int),
        decreases s@.len() - k,
    {
        if s[k] == QUOTE {
            return k;
        }
        if s[k] == BACKSLASH {
            if s.len() - k < 2 {
                return s.len();
            }
            k = k + 2;
        } else {
            k = k + 1;
        }
    }
    s.len()
}

fn hex_digit(b: u8) -> (r: Option<u8>)
    ensures
        r.is_some() <==> hex_value(b) >= 0,
        r matches Some(v) ==> v == hex_value(b),
{
    if 48 <= b && b <= 57 {
        Some(b - 48)
    } else if 97 <= b && b <= 102 {
        Some(b - 87)
    } else if 65 <= b && b <= 70 {
        Some(b - 55)
    } else {
        None
    }
}

fn octal_digit(s: &[u8], i: usize, to: usize) -> (r: Option<u16>)
    requires
        to <= s@.len(),
    ensures
        r.is_some() <==> i < to && is_octal(s@[i as int]),
        r matches Some(v) ==> v == s@[i as int] - 48,
{
    if i < to && 48 <= s[i] && s[i] <= 55 {
        Some((s[i] - 48) as u16)
    } else {
        None
    }
}

/// The byte that the escape at `i` stands for, and the number of bytes
/// that the escape takes.
pub fn read_escape(s: &[u8], i: usize, to: usize) -> (r: (u8, usize))
    requires
        i + 1 < to <= s@.len(),
    ensures
        r.0 == escape_byte(s@, i as int, to as int),
        r.1 == escape_len(s@, i as int, to as int),
        2 <= r.1 <= 4,
        i + r.1 <= to,
{
    let c = s[i + 1];
    if let Some(a) = octal_digit(s, i + 1, to) {
        if let Some(b) = octal_digit(s, i + 2, to) {
            if let Some(d) = octal_digit(s, i + 3, to) {
                (((a * 64 + b * 8 + d) % 256) as u8, 4)
            } else {
                ((a * 8 + b) as u8, 3)
            }
        } else {
            (a as u8, 2)
        }
    } else if c == 120 && i + 2 < to && hex_digit(s[i + 2]).is_some() {
        let hi = hex_digit(s[i + 2]).unwrap();
        if i + 3 < to && hex_digit(s[i + 3]).is_some() {
            let lo = hex_digit(s[i + 3]).unwrap();
            (hi * 16 + lo, 4)
        } else {
            (hi, 3)
        }
    } else if c == 110 {
        (10, 2)
    } else if c == 116 {
        (9, 2)
    } else if c == 114 {
        (13, 2)
    } else {
        (c, 2)
    }
}

/// The bytes that the string body from `from` up to `to` stands for.
pub fn unescape_bytes(s: &[u8], from: usize, to: usize) -> (r: Vec<u8>)
    requires
        from <= to <= s@.len(),
    ensures
        r@ == unescape(s@, from as int, to as int),
{
    let mut out: Vec<u8> = Vec::new();
    let mut k: usize = from;
    while k < to
        invariant
            from <= k <= to <= s@.len(),
            out@ + unescape(s@, k as int, to as int) == unescape(s@, from as int, to as int),
        decreases to - k,
    {
        let ghost had = out@;
        if s[k] == BACKSLASH && to - k > 1 {
            let (b, n) = read_escape(s, k, to);
            out.push(b);
            proof {
                assert(had.push(b) + unescape(s@, k + n, to as int) =~= had + (seq![b] + unescape(
                    s@,
                    k + n,
                    to as int,
                )));
            }
            k = k + n;
        } else {
            out.push(s[k]);
            proof {
                assert(had.push(s@[k as int]) + unescape(s@, k + 1, to as int) =~= had + (
                seq![s@[k as int]] + unescape(s@, k + 1, to as int)));
            }
            k = k + 1;
        }
    }
    proof {
        assert(out@ + Seq::<u8>::empty() =~= out@);
    }
    out
}

/// A copy of the bytes of `s` from `from` up to `to`.
pub fn copy_range(s: &[u8], from: usize, to: usize) -> (r: Vec<u8>)
    requires
        from <= to <= s@.len(),
    ensures
        r@ == s@.subrange(from as int, to as int),
{
    let part = slice_subrange(s, from, to);
    let mut out: Vec<u8> = Vec::new();
    out.extend_from_slice(part);
    assert(out@ =~= s@.subrange(from as int, to as int));
    out
}

/// Puts the bytes of `s` behind those of `buf`.
pub fn append_bytes(buf: &mut Vec<u8>, s: &[u8])
    ensures
        final(buf)@ == old(buf)@ + s@,
{
    let ghost had = buf@;
    buf.extend_from_slice(s);
    assert(buf@ =~= had + s@);
}

} // verus!
