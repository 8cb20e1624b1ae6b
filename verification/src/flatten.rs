//! The flattener: it puts a source file and every file that it pulls in
//! by a directive into one buffer, reads the linemarkers on the way, and
//! keeps the bounds that say where each piece of the buffer came from.
//!
//! The flattener reads no file itself. It works on a set of files that
//! were read before; a file that it needs and that the set says nothing
//! of is reported by its path, so that a caller can read it and ask again.

use vstd::prelude::*;
use crate::bounds::{
    all_fit, covers, disjoint, file_line_spec, lemma_sort_keeps_fit, lemma_sort_spec_sorted,
    lemma_split_keeps_fit, models, sort_bounds, sort_spec, sorted, split_fits, split_spec,
    total_len, BoundsError, BoundsModel, IncludeBounds, IncludeMethod,
};
use crate::linemarker::{
    find_include, find_linemarker, marker_at, next_directive, next_marker, parse_linemarker,
};
use crate::offsets::{
    col_of, has_line, lemma_line_col_range, line_of, line_start, line_to_byte_offset, ParseError,
};
use crate::scan::{append_bytes, copy_range};

verus! {

/// How many files deep a file may pull in other files.
pub const MAX_DEPTH: usize = 256;

/// A file as it was found: its path, and its bytes if it could be read.
#[derive(Debug, Clone, PartialEq, Eq)]
pub struct SourceFile {
    pub path: Vec<u8>,
    pub contents: Option<Vec<u8>>,
}

/// The mathematical value of a `SourceFile`.
pub struct FileModel {
    pub path: Seq<u8>,
    pub contents: Option<Seq<u8>>,
}

impl View for SourceFile {
    type V = FileModel;

    open spec fn view(&self) -> FileModel {
        FileModel {
            path: self.path@,
            contents: match self.contents {
                Some(c) => Some(c@),
                None => None,
            },
        }
    }
}

/// The values of a sequence of files.
pub open spec fn file_models(s: Seq<SourceFile>) -> Seq<FileModel> {
    s.map_values(|f: SourceFile| f@)
}

/// Why flattening failed.
#[derive(Debug, Clone, PartialEq, Eq)]
pub enum IncludeError {
    /// A file that was pulled in gave no bounds. Every file gives at least
    /// one, so the flattener never returns this.
    NoBoundReturned(Vec<u8>),
    /// A linemarker stands in text whose last bound came from a directive;
    /// the path is that of the bound.
    LinemarkerInDtsi(Vec<u8>),
    /// The file at this path is needed and could not be read, or the set
    /// of files says nothing of it.
    IOError(Vec<u8>),
    /// A line has no offset, or a position left the machine's range.
    ParseError(ParseError),
    /// Files pull each other in more than `MAX_DEPTH` deep; the path is
    /// that of the file that would have been one too many.
    TooDeep(Vec<u8>),
}

/// The mathematical value of an `IncludeError`.
pub enum IncludeErrorModel {
    NoBoundReturned(Seq<u8>),
    LinemarkerInDtsi(Seq<u8>),
    IOError(Seq<u8>),
    ParseError(ParseError),
    TooDeep(Seq<u8>),
}

impl View for IncludeError {
    type V = IncludeErrorModel;

    open spec fn view(&self) -> IncludeErrorModel {
        match *self {
            IncludeError::NoBoundReturned(p) => IncludeErrorModel::NoBoundReturned(p@),
            IncludeError::LinemarkerInDtsi(p) => IncludeErrorModel::LinemarkerInDtsi(p@),
            IncludeError::IOError(p) => IncludeErrorModel::IOError(p@),
            IncludeError::ParseError(e) => IncludeErrorModel::ParseError(e),
            IncludeError::TooDeep(p) => IncludeErrorModel::TooDeep(p@),
        }
    }
}

/// What the set of files says of `path`: nothing, that the file cannot
/// be read, or its bytes. The first entry with the path counts.
pub open spec fn lookup(files: Seq<FileModel>, path: Seq<u8>) -> Option<Option<Seq<u8>>>
    decreases files.len(),
{
    if files.len() == 0 {
        None
    } else if files[0].path == path {
        Some(files[0].contents)
    } else {
        lookup(files.drop_first(), path)
    }
}

/// The bytes of a file that must be read.
pub open spec fn contents_of(files: Seq<FileModel>, path: Seq<u8>) -> Result<
    Seq<u8>,
    IncludeErrorModel,
> {
    match lookup(files, path) {
        Some(Some(c)) => Ok(c),
        _ => Err(IncludeErrorModel::IOError(path)),
    }
}

/// The offset at which line `line` of the bytes `c` begins.
pub open spec fn line_offset_in(c: Seq<u8>, line: int) -> Result<int, IncludeErrorModel> {
    if has_line(c, line) {
        Ok(line_start(c, line))
    } else {
        Err(IncludeErrorModel::ParseError(ParseError::LineOutOfRange))
    }
}

/// Where the text behind a linemarker inside a file begins in the file
/// that the marker names: at the start of the marker's line, or at zero
/// where that file cannot be read.
pub open spec fn marker_child_start(files: Seq<FileModel>, path: Seq<u8>, line: int) -> Result<
    int,
    IncludeErrorModel,
> {
    match lookup(files, path) {
        None => Err(IncludeErrorModel::IOError(path)),
        Some(None) => Ok(0),
        Some(Some(c)) => line_offset_in(c, line),
    }
}

/// The error for a position that left the machine's range.
pub open spec fn out_of_range() -> IncludeErrorModel {
    IncludeErrorModel::ParseError(ParseError::PositionOutOfRange)
}

/// The bounds after the linemarkers of `pre` from `p` on were read.
///
/// `pre` is a stretch of text that goes into the buffer at
/// `global_offset`. Each marker ends the last bound where the marker
/// starts, and opens a bound of the `CPP` method behind the marker's line
/// for the rest of `pre`. A marker behind a bound of the `DTS` method is
/// an error, and so is a bound that would end beyond the machine's range.
/// (A marker lies inside the text and takes at least one byte, so the
/// reading always goes on behind it.)
pub open spec fn markers_spec(
    files: Seq<FileModel>,
    pre: Seq<u8>,
    p: int,
    bounds: Seq<BoundsModel>,
    global_offset: int,
) -> Result<Seq<BoundsModel>, IncludeErrorModel>
    decreases pre.len() - p,
{
    match next_marker(pre, p) {
        None => Ok(bounds),
        Some((at, m, end)) => {
            if bounds.len() == 0 || !(p <= at < end <= pre.len()) {
                Ok(bounds)
            } else if bounds.last().method != IncludeMethod::CPP {
                Err(IncludeErrorModel::LinemarkerInDtsi(bounds.last().path))
            } else if bounds.last().global_start + (at - p) > usize::MAX {
                Err(out_of_range())
            } else {
                match marker_child_start(files, m.path, m.child_line) {
                    Err(e) => Err(e),
                    Ok(child_start) => markers_spec(
                        files,
                        pre,
                        end,
                        bounds.drop_last().push(BoundsModel { len: at - p, ..bounds.last() }).push(
                            BoundsModel {
                                path: m.path,
                                global_start: global_offset + end,
                                child_start,
                                len: pre.len() - end,
                                method: IncludeMethod::CPP,
                            },
                        ),
                        global_offset,
                    ),
                }
            }
        },
    }
}

/// A flattened file: the buffer and its bounds, or why there is none.
pub type Flat = Result<(Seq<u8>, Seq<BoundsModel>), IncludeErrorModel>;

/// The first bound of a file that begins with the linemarker `m`, for a
/// buffer in which the text behind the marker's line begins at `at`: a
/// bound of the `CPP` method that starts there, for the file that the
/// marker names, and as long as that file.
pub open spec fn marker_bound(files: Seq<FileModel>, m: crate::linemarker::MarkerModel, at: int) -> Result<
    BoundsModel,
    IncludeErrorModel,
> {
    match contents_of(files, m.path) {
        Err(e) => Err(e),
        Ok(target) => match line_offset_in(target, m.child_line) {
            Err(e) => Err(e),
            Ok(child_start) => if at + target.len() > usize::MAX {
                Err(out_of_range())
            } else {
                Ok(
                    BoundsModel {
                        path: m.path,
                        global_start: at,
                        child_start,
                        len: target.len() as int,
                        method: IncludeMethod::CPP,
                    },
                )
            },
        },
    }
}

/// The first bound of a file with the bytes `content`, and the position
/// behind what the bound takes of the text at once: a file that begins
/// with a linemarker gives the bound that the marker asks for, and the
/// marker's line goes into the buffer as it is; any other file gives a
/// bound of the `DTS` method for the whole file.
pub open spec fn first_bound(
    files: Seq<FileModel>,
    path: Seq<u8>,
    content: Seq<u8>,
    main_offset: int,
) -> Result<(BoundsModel, int), IncludeErrorModel> {
    match marker_at(content, 0) {
        Some((m, end)) => match marker_bound(files, m, main_offset + end) {
            Err(e) => Err(e),
            Ok(first) => Ok((first, end)),
        },
        None => Ok(
            (
                BoundsModel {
                    path,
                    global_start: main_offset,
                    child_start: 0,
                    len: content.len() as int,
                    method: IncludeMethod::DTS,
                },
                0,
            ),
        ),
    }
}

/// The file at `path` flattened, for a buffer in which its bytes begin
/// at `main_offset`, with `depth` levels of files left to go down.
pub open spec fn flatten_spec(
    files: Seq<FileModel>,
    path: Seq<u8>,
    main_offset: int,
    depth: nat,
) -> Flat
    decreases depth, 0int,
{
    if depth == 0 {
        Err(IncludeErrorModel::TooDeep(path))
    } else {
        match contents_of(files, path) {
            Err(e) => Err(e),
            Ok(content) => if main_offset + content.len() > usize::MAX {
                Err(out_of_range())
            } else {
                match first_bound(files, path, content, main_offset) {
                    Err(e) => Err(e),
                    Ok((first, start)) => scan_spec(
                        files,
                        content,
                        start,
                        content.take(start),
                        seq![first],
                        main_offset,
                        (depth - 1) as nat,
                    ),
                }
            },
        }
    }
}

/// The bounds `subs` of a file that was pulled in can be put among the
/// bounds `marked` without a number leaving the machine's range.
pub open spec fn splice_fits(marked: Seq<BoundsModel>, subs: Seq<BoundsModel>, eaten: int) -> bool {
    &&& subs.len() > 0
    &&& subs.last().end() <= usize::MAX
    &&& split_fits(marked, subs.first().global_start, subs.last().end(), eaten)
}

/// The bounds `marked` with the bounds `subs` of a file that was pulled
/// in put among them: `marked` is split where the first of `subs` starts,
/// for a piece that reaches to the end of the last of `subs` and stands
/// for `eaten` bytes of the file, then `subs` is added and all is sorted.
pub open spec fn splice_spec(marked: Seq<BoundsModel>, subs: Seq<BoundsModel>, eaten: int) -> Seq<
    BoundsModel,
> {
    sort_spec(
        split_spec(marked, subs.first().global_start, subs.last().end(), eaten) + subs,
    )
}

/// The rest of a file flattened: `content` from `pos` on, behind the
/// `buffer` and `bounds` that the text before `pos` gave.
///
/// The text up to the next directive is read for linemarkers and put into
/// the buffer. The file that the directive names is flattened and put
/// behind it; the bounds are split where it begins, joined with its own
/// and sorted. So it goes on behind the directive. The text behind the
/// last directive is read for linemarkers and ends the buffer. Where a
/// position would leave the machine's range, the result is an error.
pub open spec fn scan_spec(
    files: Seq<FileModel>,
    content: Seq<u8>,
    pos: int,
    buffer: Seq<u8>,
    bounds: Seq<BoundsModel>,
    main_offset: int,
    depth: nat,
) -> Flat
    decreases depth, 1 + content.len() - pos,
{
    let here = main_offset + buffer.len();
    if !(0 <= pos <= content.len()) || here + (content.len() - pos) > usize::MAX {
        Err(out_of_range())
    } else {
        match next_directive(content, pos) {
            None => {
                let tail = content.subrange(pos, content.len() as int);
                match markers_spec(files, tail, 0, bounds, here) {
                    Err(e) => Err(e),
                    Ok(b) => Ok((buffer + tail, b)),
                }
            },
            Some((at, inner, end)) => {
                if !(pos <= at < end <= content.len()) {
                    Err(out_of_range())
                } else {
                    let pre = content.subrange(pos, at);
                    match markers_spec(files, pre, 0, bounds, here) {
                        Err(e) => Err(e),
                        Ok(marked) => match flatten_spec(files, inner, here + pre.len(), depth) {
                            Err(e) => Err(e),
                            Ok((sub_buffer, sub_bounds)) => {
                                if !splice_fits(marked, sub_bounds, end - at) {
                                    Err(out_of_range())
                                } else {
                                    scan_spec(
                                        files,
                                        content,
                                        end,
                                        buffer + pre + sub_buffer,
                                        splice_spec(marked, sub_bounds, end - at),
                                        main_offset,
                                        depth,
                                    )
                                }
                            },
                        },
                    }
                }
            },
        }
    }
}

/// The value of what the flattener returns.
pub open spec fn flat_view(res: Result<(Vec<u8>, Vec<IncludeBounds>), IncludeError>) -> Flat {
    match res {
        Ok((buffer, bounds)) => Ok((buffer@, models(bounds@))),
        Err(e) => Err(e@),
    }
}

/// The one bound of a file that pulls in nothing and holds no linemarker.
pub open spec fn whole_file_bound(path: Seq<u8>, content: Seq<u8>) -> BoundsModel {
    BoundsModel {
        path,
        global_start: 0,
        child_start: 0,
        len: content.len() as int,
        method: IncludeMethod::DTS,
    }
}

/// A file without a directive and without a linemarker flattens to its
/// own bytes under one bound of the `DTS` method, which starts at zero in
/// the buffer and in the file and is as long as the file. That bound
/// tiles the buffer: the lengths of the bounds add up to the length of
/// the buffer, and the bounds are sorted and overlap nowhere. A lookup
/// through the bound gives for every offset the line and column that the
/// offset has in the file.
pub proof fn lemma_plain_file(files: Seq<FileModel>, path: Seq<u8>, content: Seq<u8>, depth: nat)
    requires
        lookup(files, path) == Some(Some(content)),
        content.len() <= usize::MAX,
        depth > 0,
        next_directive(content, 0).is_none(),
        marker_at(content, 0).is_none(),
        next_marker(content, 0).is_none(),
    ensures
        flatten_spec(files, path, 0, depth) == Ok::<
            (Seq<u8>, Seq<BoundsModel>),
            IncludeErrorModel,
        >((content, seq![whole_file_bound(path, content)])),
        content.len() > 0 ==> covers(seq![whole_file_bound(path, content)], content.len() as int),
        total_len(seq![whole_file_bound(path, content)]) == content.len(),
        sorted(seq![whole_file_bound(path, content)]),
        disjoint(seq![whole_file_bound(path, content)]),
        forall|k: int|
            0 <= k < content.len() ==> #[trigger] file_line_spec(
                whole_file_bound(path, content),
                content,
                content,
                k,
            ) == Ok::<(usize, usize), BoundsError>(
                (line_of(content, k) as usize, col_of(content, k) as usize),
            ),
{
    let tail = content.subrange(0, content.len() as int);
    assert(tail =~= content);
    assert(content.take(0) =~= Seq::<u8>::empty());
    assert(Seq::<u8>::empty() + tail =~= content);
    let first = seq![whole_file_bound(path, content)];
    assert(first.drop_last() =~= Seq::<BoundsModel>::empty());
    assert(total_len(first) == total_len(first.drop_last()) + first.last().len);
    assert(markers_spec(files, tail, 0, first, 0) == Ok::<Seq<BoundsModel>, IncludeErrorModel>(
        first,
    ));
    assert(scan_spec(files, content, 0, Seq::empty(), first, 0, (depth - 1) as nat) == Ok::<
        (Seq<u8>, Seq<BoundsModel>),
        IncludeErrorModel,
    >((content, first)));
    assert forall|k: int| 0 <= k < content.len() implies #[trigger] file_line_spec(
        whole_file_bound(path, content),
        content,
        content,
        k,
    ) == Ok::<(usize, usize), BoundsError>(
        (line_of(content, k) as usize, col_of(content, k) as usize),
    ) by {
        lemma_line_col_range(content, k);
    }
}

/// Behind every directive the bounds are in ascending order.
pub proof fn lemma_splice_sorted(marked: Seq<BoundsModel>, subs: Seq<BoundsModel>, eaten: int)
    ensures
        sorted(splice_spec(marked, subs, eaten)),
{
    lemma_sort_spec_sorted(
        split_spec(marked, subs.first().global_start, subs.last().end(), eaten) + subs,
    );
}

/// Whether `a` and `b` hold the same bytes.
pub fn bytes_equal(a: &[u8], b: &[u8]) -> (r: bool)
    ensures
        r == (a@ == b@),
{
    if a.len() != b.len() {
        return false;
    }
    let mut i: usize = 0;
    while i < a.len()
        invariant
            0 <= i <= a@.len(),
            a@.len() == b@.len(),
            forall|k: int| 0 <= k < i ==> a@[k] == b@[k],
        decreases a@.len() - i,
    {
        if a[i] != b[i] {
            return false;
        }
        i = i + 1;
    }
    assert(a@ =~= b@);
    true
}

/// The first file of the set with the path `path`.
pub fn find_file<'a>(files: &'a Vec<SourceFile>, path: &[u8]) -> (r: Option<&'a SourceFile>)
    ensures
        match r {
            Some(f) => lookup(file_models(files@), path@) == Some(f@.contents),
            None => lookup(file_models(files@), path@).is_none(),
        },
{
    let ghost fm = file_models(files@);
    let mut i: usize = 0;
    assert(fm.skip(0) =~= fm);
    while i < files.len()
        invariant
            0 <= i <= files@.len(),
            fm == file_models(files@),
            lookup(fm.skip(i as int), path@) == lookup(fm, path@),
        decreases files@.len() - i,
    {
        let f = &files[i];
        proof {
            assert(fm.skip(i as int)[0] == f@);
            assert(fm.skip(i as int).drop_first() =~= fm.skip(i + 1));
        }
        if bytes_equal(f.path.as_slice(), path) {
            return Some(f);
        }
        i = i + 1;
    }
    None
}

fn position_error() -> (r: IncludeError)
    ensures
        r@ == out_of_range(),
{
    IncludeError::ParseError(ParseError::PositionOutOfRange)
}

fn owned(path: &[u8]) -> (r: Vec<u8>)
    ensures
        r@ == path@,
{
    let r = copy_range(path, 0, path.len());
    assert(path@.subrange(0, path@.len() as int) =~= path@);
    r
}

/// Reads the linemarkers of `pre`, a stretch of text that goes into the
/// buffer at `global_offset`, and changes `bounds` as they say.
pub fn parse_linemarkers(
    pre: &[u8],
    bounds: &mut Vec<IncludeBounds>,
    global_offset: usize,
    files: &Vec<SourceFile>,
) -> (res: Result<(), IncludeError>)
    requires
        old(bounds)@.len() > 0,
        global_offset + pre@.len() <= usize::MAX,
    ensures
        match markers_spec(
            file_models(files@),
            pre@,
            0,
            models(old(bounds)@),
            global_offset as int,
        ) {
            Ok(b) => res.is_ok() && models(final(bounds)@) == b && b.len() > 0,
            Err(e) => res matches Err(x) && x@ == e,
        },
        res matches Err(e) ==> !(e matches IncludeError::NoBoundReturned(_)),
        res.is_ok() && all_fit(models(old(bounds)@)) ==> all_fit(models(final(bounds)@)),
{
    let ghost fm = file_models(files@);
    let ghost goal = markers_spec(fm, pre@, 0, models(bounds@), global_offset as int);
    let mut p: usize = 0;
    loop
        invariant
            0 <= p <= pre@.len(),
            bounds@.len() > 0,
            fm == file_models(files@),
            global_offset + pre@.len() <= usize::MAX,
            markers_spec(fm, pre@, p as int, models(bounds@), global_offset as int) == goal,
            goal == markers_spec(fm, pre@, 0, models(old(bounds)@), global_offset as int),
            all_fit(models(old(bounds)@)) ==> all_fit(models(bounds@)),
        ensures
            goal == Ok::<Seq<BoundsModel>, IncludeErrorModel>(models(bounds@)),
            bounds@.len() > 0,
            all_fit(models(old(bounds)@)) ==> all_fit(models(bounds@)),
        decreases pre@.len() - p,
    {
        let found = find_linemarker(pre, p);
        let (at, marker, end) = match found {
            Some(t) => t,
            None => {
                break ;
            },
        };
        let ghost had = models(bounds@);
        let last = bounds.pop().unwrap();
        proof {
            assert(had.last() == last@);
            assert(models(bounds@) =~= had.drop_last());
        }
        if last.method != IncludeMethod::CPP {
            return Err(IncludeError::LinemarkerInDtsi(last.path));
        }
        if at - p > usize::MAX - last.global_start {
            return Err(position_error());
        }
        let child_start: usize = match find_file(files, marker.path.as_slice()) {
            None => {
                return Err(IncludeError::IOError(marker.path));
            },
            Some(f) => match &f.contents {
                None => 0,
                Some(c) => match line_to_byte_offset(c.as_slice(), marker.child_line) {
                    Ok(o) => o,
                    Err(_) => {
                        return Err(IncludeError::ParseError(ParseError::LineOutOfRange));
                    },
                },
            },
        };
        bounds.push(
            IncludeBounds {
                path: last.path,
                global_start: last.global_start,
                child_start: last.child_start,
                len: at - p,
                method: last.method,
            },
        );
        bounds.push(
            IncludeBounds {
                path: marker.path,
                global_start: global_offset + end,
                child_start,
                len: pre.len() - end,
                method: IncludeMethod::CPP,
            },
        );
        proof {
            assert(models(bounds@) =~= had.drop_last().push(
                BoundsModel { len: at - p, ..had.last() },
            ).push(
                BoundsModel {
                    path: marker@.path,
                    global_start: global_offset + end,
                    child_start: child_start as int,
                    len: pre@.len() - end,
                    method: IncludeMethod::CPP,
                },
            ));
            if all_fit(had) {
                let now = models(bounds@);
                assert forall|i: int| 0 <= i < now.len() implies (#[trigger] now[i]).fits() by {
                    if i < had.len() - 1 {
                        assert(now[i] == had[i]);
                        assert(had[i].fits());
                    } else if i == had.len() - 1 {
                        assert(had.last().fits());
                    }
                }
            }
        }
        p = end;
    }
    Ok(())
}

/// Puts the bounds `subs` of a file that was pulled in among `bounds`,
/// where the directive that pulled it in took `eaten` bytes.
pub fn splice_bounds(bounds: Vec<IncludeBounds>, subs: Vec<IncludeBounds>, eaten: usize) -> (r:
    Option<Vec<IncludeBounds>>)
    ensures
        match r {
            Some(b) => splice_fits(models(bounds@), models(subs@), eaten as int) && models(b@)
                == splice_spec(models(bounds@), models(subs@), eaten as int) && b@.len() > 0,
            None => !splice_fits(models(bounds@), models(subs@), eaten as int),
        },
        r matches Some(b) ==> (all_fit(models(subs@)) ==> all_fit(models(b@))),
{
    let mut bounds = bounds;
    let mut subs = subs;
    if subs.len() == 0 {
        return None;
    }
    let ghost marked = models(bounds@);
    let ghost sub_models = models(subs@);
    let start: usize = subs[0].global_start;
    let last = &subs[subs.len() - 1];
    proof {
        assert(sub_models.first() == subs@[0]@);
        assert(sub_models.last() == last@);
    }
    if last.len > usize::MAX - last.global_start {
        return None;
    }
    let stop: usize = last.global_start + last.len;
    if !IncludeBounds::can_split(&bounds, start, stop, eaten) {
        return None;
    }
    IncludeBounds::split_bounds(&mut bounds, start, stop, eaten);
    let ghost parted = models(bounds@);
    bounds.append(&mut subs);
    proof {
        assert(models(bounds@) =~= parted + sub_models);
        lemma_sort_spec_sorted(parted + sub_models);
        lemma_split_keeps_fit(marked, start as int, stop as int, eaten as int);
        if all_fit(sub_models) {
            assert forall|i: int| 0 <= i < (parted + sub_models).len() implies (#[trigger] (parted
                + sub_models)[i]).fits() by {
                if i < parted.len() {
                    assert((parted + sub_models)[i] == parted[i]);
                } else {
                    assert((parted + sub_models)[i] == sub_models[i - parted.len()]);
                }
            }
            lemma_sort_keeps_fit(parted + sub_models);
        }
    }
    Some(sort_bounds(bounds))
}

/// Flattens the file at `path` and every file that it pulls in.
///
/// The result is the buffer and the bounds that map it back to the files.
pub fn include_files(path: &[u8], files: &Vec<SourceFile>) -> (res: Result<
    (Vec<u8>, Vec<IncludeBounds>),
    IncludeError,
>)
    ensures
        flat_view(res) == flatten_spec(file_models(files@), path@, 0, MAX_DEPTH as nat),
        res matches Ok((_, bounds)) ==> (bounds@.len() > 0 && all_fit(models(bounds@))),
        res matches Err(e) ==> !(e matches IncludeError::NoBoundReturned(_)),
{
    include_files_at(path, 0, files, MAX_DEPTH)
}

/// Flattens the file at `path` for a buffer in which its bytes begin at
/// `main_offset`, going down at most `depth` levels of files.
pub fn include_files_at(path: &[u8], main_offset: usize, files: &Vec<SourceFile>, depth: usize) -> (res:
    Result<(Vec<u8>, Vec<IncludeBounds>), IncludeError>)
    ensures
        flat_view(res) == flatten_spec(
            file_models(files@),
            path@,
            main_offset as int,
            depth as nat,
        ),
        res matches Ok((_, bounds)) ==> (bounds@.len() > 0 && all_fit(models(bounds@))),
        res matches Err(e) ==> !(e matches IncludeError::NoBoundReturned(_)),
    decreases depth,
{
    let ghost fm = file_models(files@);
    if depth == 0 {
        return Err(IncludeError::TooDeep(owned(path)));
    }
    let content: &Vec<u8> = match find_file(files, path) {
        Some(f) => match &f.contents {
            Some(c) => c,
            None => {
                return Err(IncludeError::IOError(owned(path)));
            },
        },
        None => {
            return Err(IncludeError::IOError(owned(path)));
        },
    };
    if content.len() > usize::MAX - main_offset {
        return Err(position_error());
    }
    let mut buffer: Vec<u8> = Vec::new();
    let mut bounds: Vec<IncludeBounds> = Vec::new();
    let mut pos: usize = 0;
    match parse_linemarker(content.as_slice()) {
        Some((marker, end)) => {
            let target: &Vec<u8> = match find_file(files, marker.path.as_slice()) {
                Some(f) => match &f.contents {
                    Some(c) => c,
                    None => {
                        return Err(IncludeError::IOError(marker.path));
                    },
                },
                None => {
                    return Err(IncludeError::IOError(marker.path));
                },
            };
            let child_start = match line_to_byte_offset(target.as_slice(), marker.child_line) {
                Ok(o) => o,
                Err(_) => {
                    return Err(IncludeError::ParseError(ParseError::LineOutOfRange));
                },
            };
            if target.len() > usize::MAX - (main_offset + end) {
                return Err(position_error());
            }
            bounds.push(
                IncludeBounds {
                    path: marker.path,
                    global_start: main_offset + end,
                    child_start,
                    len: target.len(),
                    method: IncludeMethod::CPP,
                },
            );
            buffer = copy_range(content.as_slice(), 0, end);
            pos = end;
            proof {
                assert(content@.subrange(0, end as int) =~= content@.take(end as int));
                assert(models(bounds@) =~= seq![
                    BoundsModel {
                        path: marker@.path,
                        global_start: main_offset + end,
                        child_start: child_start as int,
                        len: target@.len() as int,
                        method: IncludeMethod::CPP,
                    },
                ]);
            }
        },
        None => {
            bounds.push(
                IncludeBounds {
                    path: owned(path),
                    global_start: main_offset,
                    child_start: 0,
                    len: content.len(),
                    method: IncludeMethod::DTS,
                },
            );
            proof {
                assert(buffer@ =~= content@.take(0));
                assert(models(bounds@) =~= seq![
                    BoundsModel {
                        path: path@,
                        global_start: main_offset as int,
                        child_start: 0,
                        len: content@.len() as int,
                        method: IncludeMethod::DTS,
                    },
                ]);
            }
        },
    }
    let ghost goal = flatten_spec(fm, path@, main_offset as int, depth as nat);
    let below: usize = depth - 1;
    loop
        invariant
            0 <= pos <= content@.len(),
            bounds@.len() > 0,
            all_fit(models(bounds@)),
            fm == file_models(files@),
            below < depth,
            goal == flatten_spec(fm, path@, main_offset as int, depth as nat),
            scan_spec(
                fm,
                content@,
                pos as int,
                buffer@,
                models(bounds@),
                main_offset as int,
                below as nat,
            ) == goal,
        decreases content@.len() - pos,
    {
        let rest: usize = content.len() - pos;
        if buffer.len() > usize::MAX - main_offset || rest > usize::MAX - main_offset
            - buffer.len() {
            return Err(position_error());
        }
        let here: usize = main_offset + buffer.len();
        match find_include(content.as_slice(), pos) {
            None => {
                let tail = copy_range(content.as_slice(), pos, content.len());
                match parse_linemarkers(tail.as_slice(), &mut bounds, here, files) {
                    Err(e) => {
                        return Err(e);
                    },
                    Ok(()) => {},
                }
                append_bytes(&mut buffer, tail.as_slice());
                return Ok((buffer, bounds));
            },
            Some((at, inner, end)) => {
                let pre = copy_range(content.as_slice(), pos, at);
                match parse_linemarkers(pre.as_slice(), &mut bounds, here, files) {
                    Err(e) => {
                        return Err(e);
                    },
                    Ok(()) => {},
                }
                append_bytes(&mut buffer, pre.as_slice());
                let (sub_buffer, sub_bounds) = match include_files_at(
                    inner.as_slice(),
                    here + pre.len(),
                    files,
                    below,
                ) {
                    Err(e) => {
                        return Err(e);
                    },
                    Ok(t) => t,
                };
                bounds = match splice_bounds(bounds, sub_bounds, end - at) {
                    Some(b) => b,
                    None => {
                        return Err(position_error());
                    },
                };
                append_bytes(&mut buffer, sub_buffer.as_slice());
                pos = end;
            },
        }
    }
}

} // verus!
