//! Bounds: the pieces of the flattened buffer, each tagged with the file
//! that its bytes came from, and the lookup from a buffer offset back to
//! a position in that file.

use vstd::prelude::*;
use crate::offsets::{byte_offset_to_line_col, col_of, line_of, ParseError};

verus! {

/// How a piece of the buffer came to be part of it.
#[derive(Debug, Clone, Copy, PartialEq, Eq, Structural)]
pub enum IncludeMethod {
    /// Through a device tree inclusion directive.
    DTS,
    /// Through the C preprocessor, as announced by a linemarker.
    CPP,
}

/// Why a lookup in the bounds failed.
#[derive(Debug, Clone, Copy, PartialEq, Eq, Structural)]
pub enum BoundsError {
    /// The offset lies in none of the bounds asked.
    NotWithinBounds,
    /// The offset lies in the bound, but the position that it maps to
    /// cannot be told as a line and a column.
    ParseError(ParseError),
}

/// One piece of the flattened buffer: `len` bytes from `global_start` on,
/// which came from the file `path`, beginning `child_start` bytes into it.
#[derive(Debug, Clone, PartialEq, Eq)]
pub struct IncludeBounds {
    pub path: Vec<u8>,
    pub global_start: usize,
    pub child_start: usize,
    pub len: usize,
    pub method: IncludeMethod,
}

/// The mathematical value of an `IncludeBounds`.
pub struct BoundsModel {
    pub path: Seq<u8>,
    pub global_start: int,
    pub child_start: int,
    pub len: int,
    pub method: IncludeMethod,
}

impl BoundsModel {
    /// The first buffer offset past the bound.
    pub open spec fn end(self) -> int {
        self.global_start + self.len
    }

    /// The bound covers the buffer offset `offset`.
    pub open spec fn contains(self, offset: int) -> bool {
        self.global_start <= offset < self.end()
    }

    /// Every number of the bound, and its end, fits a machine word.
    pub open spec fn fits(self) -> bool {
        &&& 0 <= self.global_start <= usize::MAX
        &&& 0 <= self.child_start <= usize::MAX
        &&& 0 <= self.len <= usize::MAX
        &&& self.end() <= usize::MAX
    }
}

impl View for IncludeBounds {
    type V = BoundsModel;

    open spec fn view(&self) -> BoundsModel {
        BoundsModel {
            path: self.path@,
            global_start: self.global_start as int,
            child_start: self.child_start as int,
            len: self.len as int,
            method: self.method,
        }
    }
}

/// The values of a sequence of bounds.
pub open spec fn models(s: Seq<IncludeBounds>) -> Seq<BoundsModel> {
    s.map_values(|b: IncludeBounds| b@)
}

/// The order of bounds: by start, and by end among equal starts.
pub open spec fn key_le(a: BoundsModel, b: BoundsModel) -> bool {
    a.global_start < b.global_start || (a.global_start == b.global_start && a.end() <= b.end())
}

/// `s` is in ascending order.
pub open spec fn sorted(s: Seq<BoundsModel>) -> bool {
    forall|i: int, j: int| 0 <= i < j < s.len() ==> key_le(#[trigger] s[i], #[trigger] s[j])
}

/// Each bound of `s` ends before the next one starts, so no two overlap.
pub open spec fn disjoint(s: Seq<BoundsModel>) -> bool {
    forall|i: int, j: int|
        0 <= i < j < s.len() ==> (#[trigger] s[i]).end() <= (#[trigger] s[j]).global_start
}

/// Every bound of `s` fits the machine's range.
pub open spec fn all_fit(s: Seq<BoundsModel>) -> bool {
    forall|i: int| 0 <= i < s.len() ==> (#[trigger] s[i]).fits()
}

/// Where a stable insertion puts `b` into `s`: behind the last bound that
/// does not sort after it.
pub open spec fn insert_pos(s: Seq<BoundsModel>, b: BoundsModel) -> int
    decreases s.len(),
{
    if s.len() == 0 {
        0
    } else if key_le(s.last(), b) {
        s.len() as int
    } else {
        insert_pos(s.drop_last(), b)
    }
}

/// The stable sort of `s`: its bounds in ascending order, those that
/// compare equal in the order in which `s` holds them.
pub open spec fn sort_spec(s: Seq<BoundsModel>) -> Seq<BoundsModel>
    decreases s.len(),
{
    if s.len() == 0 {
        s
    } else {
        let front = sort_spec(s.drop_last());
        front.insert(insert_pos(front, s.last()), s.last())
    }
}

/// What `insert_pos` finds: every bound from there on sorts after `b`,
/// and the bound just before does not.
pub proof fn lemma_insert_pos(s: Seq<BoundsModel>, b: BoundsModel)
    ensures
        0 <= insert_pos(s, b) <= s.len(),
        insert_pos(s, b) > 0 ==> key_le(s[insert_pos(s, b) - 1], b),
        forall|k: int| insert_pos(s, b) <= k < s.len() ==> !key_le(#[trigger] s[k], b),
    decreases s.len(),
{
    if s.len() > 0 && !key_le(s.last(), b) {
        let front = s.drop_last();
        lemma_insert_pos(front, b);
        assert forall|k: int| insert_pos(s, b) <= k < s.len() implies !key_le(
            #[trigger] s[k],
            b,
        ) by {
            if k < front.len() {
                assert(s[k] == front[k]);
            }
        }
    }
}

/// A position with the two properties of `insert_pos` is `insert_pos`.
pub proof fn lemma_insert_pos_unique(s: Seq<BoundsModel>, b: BoundsModel, p: int)
    requires
        0 <= p <= s.len(),
        p > 0 ==> key_le(s[p - 1], b),
        forall|k: int| p <= k < s.len() ==> !key_le(#[trigger] s[k], b),
    ensures
        insert_pos(s, b) == p,
    decreases s.len(),
{
    if s.len() > 0 && !key_le(s.last(), b) {
        let front = s.drop_last();
        assert forall|k: int| p <= k < front.len() implies !key_le(#[trigger] front[k], b) by {
            assert(front[k] == s[k]);
        }
        if p == s.len() {
            assert(s[p - 1] == s.last());
        }
        lemma_insert_pos_unique(front, b, p);
    }
}

/// Sorting keeps the number of bounds and puts them in ascending order.
pub proof fn lemma_sort_spec_sorted(s: Seq<BoundsModel>)
    ensures
        sort_spec(s).len() == s.len(),
        sorted(sort_spec(s)),
    decreases s.len(),
{
    if s.len() > 0 {
        let front = sort_spec(s.drop_last());
        let b = s.last();
        let p = insert_pos(front, b);
        lemma_sort_spec_sorted(s.drop_last());
        lemma_insert_pos(front, b);
        let out = front.insert(p, b);
        assert forall|i: int, j: int| 0 <= i < j < out.len() implies key_le(
            #[trigger] out[i],
            #[trigger] out[j],
        ) by {
            if j < p {
                assert(key_le(front[i], front[j]));
            } else if j == p {
                assert(out[i] == front[i]);
                if i < p - 1 {
                    assert(key_le(front[i], front[p - 1]));
                }
            } else if i < p {
                assert(out[j] == front[j - 1]);
                if i < j - 1 {
                    assert(key_le(front[i], front[j - 1]));
                }
            } else if i == p {
                assert(out[j] == front[j - 1]);
                assert(!key_le(front[j - 1], b));
            } else {
                assert(key_le(front[i - 1], front[j - 1]));
            }
        }
    }
}

/// Sorting bounds that fit gives bounds that fit.
pub proof fn lemma_sort_keeps_fit(s: Seq<BoundsModel>)
    requires
        all_fit(s),
    ensures
        all_fit(sort_spec(s)),
    decreases s.len(),
{
    if s.len() > 0 {
        let rest = s.drop_last();
        assert forall|i: int| 0 <= i < rest.len() implies (#[trigger] rest[i]).fits() by {
            assert(s[i].fits());
        }
        lemma_sort_keeps_fit(rest);
        let front = sort_spec(rest);
        let b = s.last();
        let p = insert_pos(front, b);
        lemma_insert_pos(front, b);
        let out = front.insert(p, b);
        assert forall|i: int| 0 <= i < out.len() implies (#[trigger] out[i]).fits() by {
            if i < p {
                assert(out[i] == front[i]);
            } else if i == p {
                assert(out[i] == b);
            } else {
                assert(out[i] == front[i - 1]);
            }
        }
    }
}

/// Sorting only rearranges: the sorted bounds are the given ones.
pub proof fn lemma_sort_spec_permutes(s: Seq<BoundsModel>)
    ensures
        sort_spec(s).to_multiset() == s.to_multiset(),
    decreases s.len(),
{
    broadcast use vstd::seq_lib::group_to_multiset_ensures;

    if s.len() > 0 {
        let front = sort_spec(s.drop_last());
        let b = s.last();
        let p = insert_pos(front, b);
        lemma_sort_spec_permutes(s.drop_last());
        lemma_insert_pos(front, b);
        lemma_sort_spec_sorted(s.drop_last());
        assert(front.insert(p, b).remove(p) =~= front);
        assert(front.insert(p, b).to_multiset().remove(b) =~= front.to_multiset());
        assert(s.drop_last().push(b) =~= s);
        assert(front.insert(p, b).to_multiset() =~= front.to_multiset().insert(b));
    } else {
        assert(sort_spec(s) =~= s);
    }
}

/// Bounds that overlap nowhere and stand in the order of the buffer are sorted.
pub proof fn lemma_disjoint_sorted(s: Seq<BoundsModel>)
    requires
        disjoint(s),
        forall|i: int| 0 <= i < s.len() ==> (#[trigger] s[i]).len >= 0,
    ensures
        sorted(s),
{
    assert forall|i: int, j: int| 0 <= i < j < s.len() implies key_le(
        #[trigger] s[i],
        #[trigger] s[j],
    ) by {
        assert(s[i].end() <= s[j].global_start);
    }
}

/// Among bounds that overlap nowhere, at most one covers an offset.
pub proof fn lemma_disjoint_contains_unique(s: Seq<BoundsModel>, offset: int, i: int, j: int)
    requires
        disjoint(s),
        0 <= i < s.len(),
        0 <= j < s.len(),
        s[i].contains(offset),
        s[j].contains(offset),
    ensures
        i == j,
{
    if i < j {
        assert(s[i].end() <= s[j].global_start);
    } else if j < i {
        assert(s[j].end() <= s[i].global_start);
    }
}

fn copy_bytes(p: &Vec<u8>) -> (r: Vec<u8>)
    ensures
        r@ == p@,
{
    let r = p.clone();
    assert(r@ =~= p@);
    r
}

/// `a` sorts at or before `b`.
fn sorts_before(a: &IncludeBounds, b: &IncludeBounds) -> (r: bool)
    ensures
        r == key_le(a@, b@),
{
    if a.global_start < b.global_start {
        true
    } else if a.global_start == b.global_start {
        // ends compared without adding: the starts are equal
        a.len <= b.len
    } else {
        false
    }
}

/// Sorts the bounds in ascending order, keeping equal ones in their order.
pub fn sort_bounds(bounds: Vec<IncludeBounds>) -> (res: Vec<IncludeBounds>)
    ensures
        models(res@) == sort_spec(models(bounds@)),
{
    let mut rest = bounds;
    let mut out: Vec<IncludeBounds> = Vec::new();
    let ghost all = models(bounds@);
    let ghost done: int = 0;
    assert(models(out@) =~= sort_spec(all.take(0)));
    while rest.len() > 0
        invariant
            0 <= done <= all.len(),
            all == models(bounds@),
            models(rest@) == all.skip(done),
            models(out@) == sort_spec(all.take(done)),
        decreases rest.len(),
    {
        let ghost before = rest@;
        proof {
            assert(models(rest@).len() == rest@.len());
            assert(all.skip(done).len() == all.len() - done);
            assert(models(before)[0] == before[0]@);
        }
        let b = rest.remove(0);
        let ghost front = models(out@);
        proof {
            assert forall|k: int| 0 <= k < rest@.len() implies #[trigger] models(rest@)[k]
                == all.skip(done + 1)[k] by {
                assert(rest@[k] == before[k + 1]);
                assert(models(before)[k + 1] == before[k + 1]@);
            }
            assert(b@ == all.skip(done)[0]);
            assert(all.take(done + 1).drop_last() =~= all.take(done));
            lemma_sort_spec_sorted(all.take(done));
        }
        let mut p: usize = out.len();
        while p > 0 && !sorts_before(&out[p - 1], &b)
            invariant
                0 <= p <= out.len(),
                front == models(out@),
                forall|k: int| p <= k < front.len() ==> !key_le(#[trigger] front[k], b@),
            decreases p,
        {
            p = p - 1;
        }
        proof {
            lemma_insert_pos_unique(front, b@, p as int);
        }
        out.insert(p, b);
        proof {
            assert(models(out@) =~= front.insert(p as int, b@));
            assert(models(rest@) =~= all.skip(done + 1));
            done = done + 1;
        }
    }
    proof {
        assert(all.take(done) =~= all);
    }
    out
}

/// The bound covers `start` behind its own first byte, so a piece put in
/// at `start` cuts it in two.
pub open spec fn straddles(b: BoundsModel, start: int) -> bool {
    b.global_start < start <= b.end()
}

/// What becomes of one bound when `[start, end)` is taken by a piece put
/// in at `start`: a bound that straddles `start` keeps what lies before
/// it; one that begins at `start` moves behind the piece and gives up the
/// piece's length; any other stays as it is.
pub open spec fn split_one(b: BoundsModel, start: int, end: int) -> BoundsModel {
    if straddles(b, start) {
        BoundsModel { len: start - b.global_start, ..b }
    } else if b.global_start == start {
        BoundsModel { global_start: b.global_start + (end - start), len: b.len - (end - start), ..b }
    } else {
        b
    }
}

/// What is left of a straddling bound behind the piece: it starts at
/// `end`, maps to the file `offset` bytes further on than the cut (the
/// bytes of the file that the piece replaced), and keeps the length that
/// the bound had from `start` on.
pub open spec fn remainder_of(b: BoundsModel, start: int, end: int, offset: int) -> BoundsModel {
    BoundsModel {
        path: b.path,
        global_start: end,
        child_start: b.child_start + (start - b.global_start) + offset,
        len: b.end() - start,
        method: b.method,
    }
}

/// The remainders of the straddling bounds of `s`, in the order of `s`.
pub open spec fn remainders(s: Seq<BoundsModel>, start: int, end: int, offset: int) -> Seq<
    BoundsModel,
>
    decreases s.len(),
{
    if s.len() == 0 {
        s
    } else if straddles(s.last(), start) {
        remainders(s.drop_last(), start, end, offset).push(
            remainder_of(s.last(), start, end, offset),
        )
    } else {
        remainders(s.drop_last(), start, end, offset)
    }
}

/// The bounds after a split: each one adjusted, then the remainders, sorted.
pub open spec fn split_spec(s: Seq<BoundsModel>, start: int, end: int, offset: int) -> Seq<
    BoundsModel,
> {
    sort_spec(
        s.map_values(|b: BoundsModel| split_one(b, start, end)) + remainders(
            s,
            start,
            end,
            offset,
        ),
    )
}

/// One bound can be split without a number leaving the machine's range.
pub open spec fn split_fits_one(b: BoundsModel, start: int, end: int, offset: int) -> bool {
    &&& b.fits()
    &&& straddles(b, start) ==> remainder_of(b, start, end, offset).fits()
    &&& b.global_start == start ==> b.len >= end - start
}

/// The split can be made without a number leaving the machine's range.
pub open spec fn split_fits(s: Seq<BoundsModel>, start: int, end: int, offset: int) -> bool {
    &&& start <= end
    &&& forall|i: int| 0 <= i < s.len() ==> split_fits_one(#[trigger] s[i], start, end, offset)
}

/// The remainders of a split that can be made fit the machine's range.
pub proof fn lemma_remainders_fit(s: Seq<BoundsModel>, start: int, end: int, offset: int)
    requires
        split_fits(s, start, end, offset),
    ensures
        all_fit(remainders(s, start, end, offset)),
    decreases s.len(),
{
    if s.len() > 0 {
        let rest = s.drop_last();
        assert forall|i: int| 0 <= i < rest.len() implies split_fits_one(
            #[trigger] rest[i],
            start,
            end,
            offset,
        ) by {
            assert(split_fits_one(s[i], start, end, offset));
        }
        lemma_remainders_fit(rest, start, end, offset);
        assert(split_fits_one(s[s.len() - 1], start, end, offset));
    }
}

/// A split that can be made gives bounds that fit the machine's range.
pub proof fn lemma_split_keeps_fit(s: Seq<BoundsModel>, start: int, end: int, offset: int)
    requires
        split_fits(s, start, end, offset),
    ensures
        all_fit(split_spec(s, start, end, offset)),
{
    let adjusted = s.map_values(|b: BoundsModel| split_one(b, start, end));
    let rems = remainders(s, start, end, offset);
    lemma_remainders_fit(s, start, end, offset);
    assert forall|i: int| 0 <= i < (adjusted + rems).len() implies (#[trigger] (adjusted
        + rems)[i]).fits() by {
        if i < adjusted.len() {
            assert(split_fits_one(s[i], start, end, offset));
            assert((adjusted + rems)[i] == split_one(s[i], start, end));
        } else {
            assert((adjusted + rems)[i] == rems[i - adjusted.len()]);
        }
    }
    lemma_sort_keeps_fit(adjusted + rems);
}

/// Where the offset of a bound lies in its file, as line and column, or
/// why that cannot be told.
///
/// For a bound of the `DTS` method the file holds the same bytes as the
/// buffer, so the position is that of the byte `offset - global_start`
/// bytes behind `child_start` in the file. For a bound of the `CPP`
/// method the preprocessor may have dropped white space: the line is as
/// many lines behind the bound's first line in the file as `offset` is
/// behind the bound's start in the buffer, and the column is counted from
/// the bound's start while on its first line.
pub open spec fn file_line_spec(
    b: BoundsModel,
    buffer: Seq<u8>,
    file: Seq<u8>,
    offset: int,
) -> Result<(usize, usize), BoundsError> {
    if !b.contains(offset) {
        Err(BoundsError::NotWithinBounds)
    } else {
        let (line, col) = mapped_position(b, buffer, file, offset);
        if lookup_in_range(b, offset) && 0 <= line <= usize::MAX && 0 <= col <= usize::MAX {
            Ok((line as usize, col as usize))
        } else {
            Err(BoundsError::ParseError(ParseError::PositionOutOfRange))
        }
    }
}

/// Every offset that the lookup converts lies below the largest machine word.
pub open spec fn lookup_in_range(b: BoundsModel, offset: int) -> bool {
    match b.method {
        IncludeMethod::DTS => offset - b.global_start + b.child_start < usize::MAX,
        IncludeMethod::CPP => offset < usize::MAX && b.child_start < usize::MAX,
    }
}

/// The line and column in the file, as mathematical integers.
pub open spec fn mapped_position(b: BoundsModel, buffer: Seq<u8>, file: Seq<u8>, offset: int) -> (
    int,
    int,
) {
    match b.method {
        IncludeMethod::DTS => {
            let at = offset - b.global_start + b.child_start;
            (line_of(file, at), col_of(file, at))
        },
        IncludeMethod::CPP => {
            let g_line = line_of(buffer, offset);
            let g_col = col_of(buffer, offset);
            let s_line = line_of(buffer, b.global_start);
            let s_col = col_of(buffer, b.global_start);
            let c_line = line_of(file, b.child_start);
            let c_col = col_of(file, b.child_start);
            (
                g_line - s_line + c_line,
                if g_line == s_line {
                    g_col - s_col - c_col + 2
                } else {
                    g_col - c_col + 1
                },
            )
        },
    }
}

/// A line or column as a machine word, if it is one.
fn position_word(v: i128) -> (r: Option<usize>)
    ensures
        r == if 0 <= v <= usize::MAX {
            Some(v as usize)
        } else {
            None
        },
{
    if 0 <= v && v <= usize::MAX as i128 {
        Some(v as usize)
    } else {
        None
    }
}

impl IncludeBounds {
    /// The file that the bound maps to.
    pub fn child_path(&self) -> (r: &[u8])
        ensures
            r@ == self@.path,
    {
        self.path.as_slice()
    }

    /// The first buffer offset of the bound.
    pub fn start(&self) -> (r: usize)
        ensures
            r == self@.global_start,
    {
        self.global_start
    }

    /// The first buffer offset past the bound.
    pub fn end(&self) -> (r: usize)
        requires
            self@.fits(),
        ensures
            r == self@.end(),
    {
        self.global_start + self.len
    }

    /// The first buffer offset past the bound.
    pub fn global_end(&self) -> (r: usize)
        requires
            self@.fits(),
        ensures
            r == self@.end(),
    {
        self.global_start + self.len
    }

    /// The number of buffer bytes in the bound.
    pub fn len(&self) -> (r: usize)
        ensures
            r == self@.len,
    {
        self.len
    }

    /// The offset in the file at which the bound's bytes begin.
    pub fn child_start(&self) -> (r: usize)
        ensures
            r == self@.child_start,
    {
        self.child_start
    }

    /// How the bound's bytes came into the buffer.
    pub fn include_method(&self) -> (r: &IncludeMethod)
        ensures
            *r == self@.method,
    {
        &self.method
    }

    /// Whether the bound covers the buffer offset `offset`.
    pub fn contains(&self, offset: usize) -> (r: bool)
        ensures
            r == self@.contains(offset as int),
    {
        self.global_start <= offset && offset - self.global_start < self.len
    }

    /// Whether `split_bounds` can be called with these arguments.
    pub fn can_split(bounds: &Vec<IncludeBounds>, start: usize, end: usize, offset: usize) -> (r:
        bool)
        ensures
            r == split_fits(models(bounds@), start as int, end as int, offset as int),
    {
        if start > end {
            return false;
        }
        let mut i: usize = 0;
        while i < bounds.len()
            invariant
                0 <= i <= bounds@.len(),
                start <= end,
                forall|k: int|
                    0 <= k < i ==> split_fits_one(
                        #[trigger] models(bounds@)[k],
                        start as int,
                        end as int,
                        offset as int,
                    ),
            decreases bounds@.len() - i,
        {
            let b = &bounds[i];
            let ghost m = models(bounds@)[i as int];
            assert(m == b@);
            let mut good: bool = b.len <= usize::MAX - b.global_start;
            if good && b.global_start < start && start - b.global_start <= b.len {
                let cut: usize = start - b.global_start;
                let rest: usize = b.len - cut;
                good = cut <= usize::MAX - b.child_start && offset <= usize::MAX - b.child_start
                    - cut && rest <= usize::MAX - end;
            } else if good && b.global_start == start {
                good = b.len >= end - start;
            }
            if !good {
                assert(!split_fits_one(m, start as int, end as int, offset as int));
                return false;
            }
            i = i + 1;
        }
        true
    }

    /// Makes room in `bounds` for a piece that takes `[start, end)` of the
    /// buffer, in place of `offset` bytes of the file around it.
    pub fn split_bounds(bounds: &mut Vec<IncludeBounds>, start: usize, end: usize, offset: usize)
        requires
            split_fits(models(old(bounds)@), start as int, end as int, offset as int),
        ensures
            models(final(bounds)@) == split_spec(
                models(old(bounds)@),
                start as int,
                end as int,
                offset as int,
            ),
            all_fit(models(final(bounds)@)),
    {
        let ghost before = models(bounds@);
        proof {
            lemma_split_keeps_fit(before, start as int, end as int, offset as int);
        }
        let mut adjusted: Vec<IncludeBounds> = Vec::new();
        let mut rems: Vec<IncludeBounds> = Vec::new();
        let mut i: usize = 0;
        while i < bounds.len()
            invariant
                0 <= i <= bounds@.len(),
                before == models(bounds@),
                split_fits(before, start as int, end as int, offset as int),
                models(adjusted@) == before.take(i as int).map_values(
                    |b: BoundsModel| split_one(b, start as int, end as int),
                ),
                models(rems@) == remainders(
                    before.take(i as int),
                    start as int,
                    end as int,
                    offset as int,
                ),
            decreases bounds@.len() - i,
        {
            let b = &bounds[i];
            let ghost m = before[i as int];
            let ghost had = models(adjusted@);
            let ghost had_rems = models(rems@);
            proof {
                assert(m == b@);
                assert(split_fits_one(m, start as int, end as int, offset as int));
                assert(before.take(i + 1).drop_last() =~= before.take(i as int));
                assert(before.take(i + 1).last() == m);
            }
            let path = copy_bytes(&b.path);
            if b.global_start < start && start - b.global_start <= b.len {
                let cut: usize = start - b.global_start;
                rems.push(
                    IncludeBounds {
                        path: copy_bytes(&b.path),
                        global_start: end,
                        child_start: b.child_start + cut + offset,
                        len: b.len - cut,
                        method: b.method,
                    },
                );
                adjusted.push(
                    IncludeBounds {
                        path,
                        global_start: b.global_start,
                        child_start: b.child_start,
                        len: cut,
                        method: b.method,
                    },
                );
            } else if b.global_start == start {
                adjusted.push(
                    IncludeBounds {
                        path,
                        global_start: end,
                        child_start: b.child_start,
                        len: b.len - (end - start),
                        method: b.method,
                    },
                );
            } else {
                adjusted.push(
                    IncludeBounds {
                        path,
                        global_start: b.global_start,
                        child_start: b.child_start,
                        len: b.len,
                        method: b.method,
                    },
                );
            }
            proof {
                assert(models(adjusted@) =~= had.push(split_one(m, start as int, end as int)));
                assert(models(adjusted@) =~= before.take(i + 1).map_values(
                    |b: BoundsModel| split_one(b, start as int, end as int),
                ));
                if straddles(m, start as int) {
                    assert(models(rems@) =~= had_rems.push(
                        remainder_of(m, start as int, end as int, offset as int),
                    ));
                } else {
                    assert(models(rems@) =~= had_rems);
                }
            }
            i = i + 1;
        }
        proof {
            assert(before.take(i as int) =~= before);
        }
        let ghost front = models(adjusted@);
        let ghost back = models(rems@);
        adjusted.append(&mut rems);
        proof {
            assert(models(adjusted@) =~= front + back);
        }
        *bounds = sort_bounds(adjusted);
    }

    /// The line and column, in the bound's file, of the buffer byte at
    /// `offset`. `global_buffer` is the flattened buffer and `file` holds
    /// the bytes of the file at `child_path`.
    pub fn file_line_from_global(&self, global_buffer: &[u8], file: &[u8], offset: usize) -> (res:
        Result<(usize, usize), BoundsError>)
        ensures
            res == file_line_spec(self@, global_buffer@, file@, offset as int),
    {
        if !self.contains(offset) {
            return Err(BoundsError::NotWithinBounds);
        }
        let out_of_range = Err(BoundsError::ParseError(ParseError::PositionOutOfRange));
        match self.method {
            IncludeMethod::DTS => {
                let behind: usize = offset - self.global_start;
                if behind >= usize::MAX - self.child_start {
                    return out_of_range;
                }
                Ok(byte_offset_to_line_col(file, behind + self.child_start))
            },
            IncludeMethod::CPP => {
                if offset == usize::MAX || self.child_start == usize::MAX {
                    return out_of_range;
                }
                let (g_line, g_col) = byte_offset_to_line_col(global_buffer, offset);
                let (s_line, s_col) = byte_offset_to_line_col(global_buffer, self.global_start);
                let (c_line, c_col) = byte_offset_to_line_col(file, self.child_start);
                let line: i128 = g_line as i128 - s_line as i128 + c_line as i128;
                let col: i128 = if g_line == s_line {
                    g_col as i128 - s_col as i128 - c_col as i128 + 2
                } else {
                    g_col as i128 - c_col as i128 + 1
                };
                match (position_word(line), position_word(col)) {
                    (Some(l), Some(c)) => Ok((l, c)),
                    _ => out_of_range,
                }
            },
        }
    }
}

/// The bounds tile `[0, total)`: the first starts at zero, each next one
/// starts where the one before it ends, and the last ends at `total`.
pub open spec fn covers(s: Seq<BoundsModel>, total: int) -> bool {
    &&& s.len() > 0
    &&& s[0].global_start == 0
    &&& s.last().end() == total
    &&& forall|i: int| 0 <= i < s.len() ==> (#[trigger] s[i]).len >= 0
    &&& forall|i: int, j: int|
        0 <= i && j == i + 1 && j < s.len() ==> (#[trigger] s[i]).end() == (
        #[trigger] s[j]).global_start
}

/// The lengths of the bounds, added up.
pub open spec fn total_len(s: Seq<BoundsModel>) -> int
    decreases s.len(),
{
    if s.len() == 0 {
        0
    } else {
        total_len(s.drop_last()) + s.last().len
    }
}

/// In a tiling, each bound starts at or behind the end of every earlier one.
proof fn lemma_covers_steps(s: Seq<BoundsModel>, total: int, i: int, j: int)
    requires
        covers(s, total),
        0 <= i < j < s.len(),
    ensures
        s[i].end() <= s[j].global_start,
    decreases j - i,
{
    if i + 1 < j {
        lemma_covers_steps(s, total, i, j - 1);
        assert(s[j - 1].end() == s[j].global_start);
    } else {
        assert(s[i].end() == s[i + 1].global_start);
    }
}

/// Bounds that tile the buffer overlap nowhere, are sorted, and their
/// lengths add up to the length of the buffer.
pub proof fn lemma_covers_disjoint(s: Seq<BoundsModel>, total: int)
    requires
        covers(s, total),
    ensures
        disjoint(s),
        sorted(s),
        total_len(s) == total,
{
    assert forall|i: int, j: int| 0 <= i < j < s.len() implies (#[trigger] s[i]).end() <= (
    #[trigger] s[j]).global_start by {
        lemma_covers_steps(s, total, i, j);
    }
    lemma_disjoint_sorted(s);
    lemma_covers_total(s, total);
}

proof fn lemma_covers_total(s: Seq<BoundsModel>, total: int)
    requires
        covers(s, total),
    ensures
        total_len(s) == total,
    decreases s.len(),
{
    if s.len() == 1 {
        assert(total_len(s.drop_last()) == 0);
    } else {
        let front = s.drop_last();
        assert(front[0] == s[0]);
        assert(s[s.len() - 2].end() == s[s.len() - 1].global_start);
        assert forall|i: int, j: int| 0 <= i && j == i + 1 && j < front.len() implies (
        #[trigger] front[i]).end() == (#[trigger] front[j]).global_start by {
            assert(s[i].end() == s[j].global_start);
        }
        assert forall|i: int| 0 <= i < front.len() implies (#[trigger] front[i]).len >= 0 by {
            assert(s[i].len >= 0);
        }
        lemma_covers_total(front, s.last().global_start);
    }
}

/// In bounds that tile `[0, total)`, every offset below `total` lies in
/// exactly one bound.
pub proof fn lemma_covered_offset_in_one_bound(s: Seq<BoundsModel>, total: int, offset: int)
    requires
        covers(s, total),
        0 <= offset < total,
    ensures
        exists|i: int| 0 <= i < s.len() && (#[trigger] s[i]).contains(offset),
        forall|i: int, j: int|
            0 <= i < s.len() && 0 <= j < s.len() && (#[trigger] s[i]).contains(offset) && (
            #[trigger] s[j]).contains(offset) ==> i == j,
{
    lemma_covers_disjoint(s, total);
    let i = lemma_covered_offset_found(s, total, offset, s.len() - 1);
    assert(s[i].contains(offset));
    assert forall|i: int, j: int|
        0 <= i < s.len() && 0 <= j < s.len() && (#[trigger] s[i]).contains(offset) && (
        #[trigger] s[j]).contains(offset) implies i == j by {
        lemma_disjoint_contains_unique(s, offset, i, j);
    }
}

proof fn lemma_covered_offset_found(s: Seq<BoundsModel>, total: int, offset: int, upto: int) -> (i:
    int)
    requires
        covers(s, total),
        0 <= upto < s.len(),
        0 <= offset < s[upto].end(),
    ensures
        0 <= i <= upto,
        s[i].contains(offset),
    decreases upto,
{
    if s[upto].global_start <= offset {
        upto
    } else {
        assert(s[upto - 1].end() == s[upto].global_start);
        lemma_covered_offset_found(s, total, offset, upto - 1)
    }
}

/// The bound that covers `offset`, found by bisection.
///
/// A bound that is returned is one of `bounds` and covers `offset`. Where
/// the bounds overlap nowhere and stand in the order of the buffer, the
/// search finds the bound whenever one covers `offset`, and that bound is
/// the only one. Where the bounds tile a buffer, the search finds a bound
/// for every offset of the buffer.
pub fn get_bounds_containing_offset(bounds: &[IncludeBounds], offset: usize) -> (res: Result<
    &IncludeBounds,
    BoundsError,
>)
    ensures
        res matches Ok(b) ==> b@.contains(offset as int) && exists|i: int|
            0 <= i < bounds@.len() && #[trigger] bounds@[i] == *b,
        res matches Err(e) ==> e == BoundsError::NotWithinBounds,
        disjoint(models(bounds@)) ==> (res.is_ok() <==> exists|i: int|
            0 <= i < bounds@.len() && (#[trigger] bounds@[i])@.contains(offset as int)),
        disjoint(models(bounds@)) ==> forall|i: int|
            0 <= i < bounds@.len() && (#[trigger] bounds@[i])@.contains(offset as int)
                ==> res == Ok::<&IncludeBounds, BoundsError>(&bounds@[i]),
        forall|total: int| #[trigger] covers(models(bounds@), total) && offset < total ==> res.is_ok(),
{
    let ghost ms = models(bounds@);
    let mut lo: usize = 0;
    let mut hi: usize = bounds.len();
    while lo < hi
        invariant
            0 <= lo <= hi <= bounds@.len(),
            ms == models(bounds@),
            disjoint(ms) ==> forall|i: int|
                0 <= i < lo || hi <= i < bounds@.len() ==> !(#[trigger] bounds@[i])@.contains(
                    offset as int,
                ),
        decreases hi - lo,
    {
        let mid: usize = lo + (hi - lo) / 2;
        let b = &bounds[mid];
        proof {
            assert(ms[mid as int] == b@);
        }
        if b.contains(offset) {
            proof {
                if disjoint(ms) {
                    assert forall|i: int|
                        0 <= i < bounds@.len() && (#[trigger] bounds@[i])@.contains(
                            offset as int,
                        ) implies i == mid by {
                        assert(ms[i] == bounds@[i]@);
                        lemma_disjoint_contains_unique(ms, offset as int, i, mid as int);
                    }
                }
            }
            return Ok(b);
        } else if b.global_start > offset {
            proof {
                if disjoint(ms) {
                    assert forall|i: int| mid <= i < bounds@.len() implies !(
                    #[trigger] bounds@[i])@.contains(offset as int) by {
                        assert(ms[i] == bounds@[i]@);
                        if mid < i {
                            assert(ms[mid as int].end() <= ms[i].global_start);
                        }
                    }
                }
            }
            hi = mid;
        } else {
            proof {
                if disjoint(ms) {
                    assert forall|i: int| 0 <= i <= mid implies !(
                    #[trigger] bounds@[i])@.contains(offset as int) by {
                        assert(ms[i] == bounds@[i]@);
                        if i < mid {
                            assert(ms[i].end() <= ms[mid as int].global_start);
                        }
                    }
                }
            }
            lo = mid + 1;
        }
    }
    proof {
        assert forall|total: int| #[trigger] covers(ms, total) && offset < total implies false by {
            lemma_covers_disjoint(ms, total);
            lemma_covered_offset_in_one_bound(ms, total, offset as int);
            let i = choose|i: int| 0 <= i < ms.len() && (#[trigger] ms[i]).contains(offset as int);
            assert(ms[i] == bounds@[i]@);
        }
    }
    Err(BoundsError::NotWithinBounds)
}

} // verus!
