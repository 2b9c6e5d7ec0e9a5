//! Notebook operations behind the commands: inserting, copying, deleting,
//! duplicating, moving, merging and splitting cells, and more.
use crate::edit::{LineEditError, LineEditFault};
use crate::json::{Json, JsonV};
use crate::notebook::{
    cells_view, ids_ensured, jsons_view, source_text, word_code, Cell, CellV, Notebook,
    NotebookV, SourceV,
};
use crate::selection::{lists_sorted, SelectionError, SelectionFault};
use crate::text::{append_str, decimal, push_decimal, string_of};
use vstd::prelude::*;

verus! {

/// Why an operation on a notebook was refused.
#[derive(Debug)]
pub enum OpError {
    Selection(SelectionError),
    LineEdit(LineEditError),
    /// `create --at` outside `1..=cells+1`.
    AtOutOfRange { at: usize, cells: usize },
    /// `copy --at` outside `1..=cells+1` of the destination.
    DestinationAtOutOfRange { at: usize, cells: usize },
    /// `duplicate --at` outside `1..=cells+1`.
    DuplicateAtOutOfRange { at: usize },
    /// A tool's insertion position outside `1..=max`.
    AtOutsideRange { at: usize, max: usize },
    /// A 1-based cell number outside the notebook.
    CellOutsideRange { cell: usize },
    /// A 1-based cell number outside `1..=cells`.
    CellOutsideRangeOf { cell: usize, cells: usize },
    /// `edit` on a cell number outside the notebook.
    CellIndexOutOfRange { cell: usize, cells: usize },
    MergeNotContiguous,
    MergeMixedTypes,
    SplitPoint,
    NoStripTarget,
    NotebookMetadataNeedsAll,
    InvalidCellId,
    DuplicateCellId(String),
    UnknownCellId(String),
    MetadataNotObject,
    NbeditNotObject,
    BookmarksNotObject,
    NoBookmarks,
    UnknownBookmark(String),
    InvalidCellType,
    /// A tool edit that gives neither a source nor a type.
    NothingToEdit,
    /// More than one line mode in one tool edit.
    TooManyLineModes,
    /// A line replacement or insertion without a source.
    LineModeNeedsSource,
}

/// The mathematical content of an [`OpError`].
pub enum OpFault {
    Selection(SelectionFault),
    LineEdit(LineEditFault),
    AtOutOfRange(nat, nat),
    DestinationAtOutOfRange(nat, nat),
    DuplicateAtOutOfRange(nat),
    AtOutsideRange(nat, nat),
    CellOutsideRange(nat),
    CellOutsideRangeOf(nat, nat),
    CellIndexOutOfRange(nat, nat),
    MergeNotContiguous,
    MergeMixedTypes,
    SplitPoint,
    NoStripTarget,
    NotebookMetadataNeedsAll,
    InvalidCellId,
    DuplicateCellId(Seq<char>),
    UnknownCellId(Seq<char>),
    MetadataNotObject,
    NbeditNotObject,
    BookmarksNotObject,
    NoBookmarks,
    UnknownBookmark(Seq<char>),
    InvalidCellType,
    NothingToEdit,
    TooManyLineModes,
    LineModeNeedsSource,
}

impl View for OpError {
    type V = OpFault;

    open spec fn view(&self) -> OpFault {
        match self {
            OpError::Selection(e) => OpFault::Selection(e@),
            OpError::LineEdit(e) => OpFault::LineEdit(e@),
            OpError::AtOutOfRange { at, cells } => OpFault::AtOutOfRange(*at as nat, *cells as nat),
            OpError::DestinationAtOutOfRange { at, cells } => OpFault::DestinationAtOutOfRange(
                *at as nat,
                *cells as nat,
            ),
            OpError::DuplicateAtOutOfRange { at } => OpFault::DuplicateAtOutOfRange(*at as nat),
            OpError::AtOutsideRange { at, max } => OpFault::AtOutsideRange(*at as nat, *max as nat),
            OpError::CellOutsideRange { cell } => OpFault::CellOutsideRange(*cell as nat),
            OpError::CellOutsideRangeOf { cell, cells } => OpFault::CellOutsideRangeOf(
                *cell as nat,
                *cells as nat,
            ),
            OpError::CellIndexOutOfRange { cell, cells } => OpFault::CellIndexOutOfRange(
                *cell as nat,
                *cells as nat,
            ),
            OpError::MergeNotContiguous => OpFault::MergeNotContiguous,
            OpError::MergeMixedTypes => OpFault::MergeMixedTypes,
            OpError::SplitPoint => OpFault::SplitPoint,
            OpError::NoStripTarget => OpFault::NoStripTarget,
            OpError::NotebookMetadataNeedsAll => OpFault::NotebookMetadataNeedsAll,
            OpError::InvalidCellId => OpFault::InvalidCellId,
            OpError::DuplicateCellId(s) => OpFault::DuplicateCellId(s@),
            OpError::UnknownCellId(s) => OpFault::UnknownCellId(s@),
            OpError::MetadataNotObject => OpFault::MetadataNotObject,
            OpError::NbeditNotObject => OpFault::NbeditNotObject,
            OpError::BookmarksNotObject => OpFault::BookmarksNotObject,
            OpError::NoBookmarks => OpFault::NoBookmarks,
            OpError::UnknownBookmark(s) => OpFault::UnknownBookmark(s@),
            OpError::InvalidCellType => OpFault::InvalidCellType,
            OpError::NothingToEdit => OpFault::NothingToEdit,
            OpError::TooManyLineModes => OpFault::TooManyLineModes,
            OpError::LineModeNeedsSource => OpFault::LineModeNeedsSource,
        }
    }
}

/// The text the user sees for a refused operation.
pub open spec fn op_message(f: OpFault) -> Seq<char> {
    match f {
        OpFault::Selection(s) => crate::selection::fault_message(s),
        OpFault::LineEdit(e) => crate::edit::line_edit_message(e),
        OpFault::AtOutOfRange(a, n) => "--at "@ + decimal(a) + " is out of range (notebook has "@
            + decimal(n) + " cells)"@,
        OpFault::DestinationAtOutOfRange(a, n) => "--at "@ + decimal(a)
            + " is out of range (destination has "@ + decimal(n) + " cells)"@,
        OpFault::DuplicateAtOutOfRange(a) => "--at "@ + decimal(a) + " is out of range"@,
        OpFault::AtOutsideRange(a, m) => "at is outside the valid range 1..="@ + decimal(m),
        OpFault::CellOutsideRange(c) => "Cell "@ + decimal(c) + " is outside the valid range"@,
        OpFault::CellOutsideRangeOf(c, n) => "Cell "@ + decimal(c)
            + " is outside the valid range 1..="@ + decimal(n),
        OpFault::CellIndexOutOfRange(c, n) => "Cell index "@ + decimal(c)
            + " is out of range (notebook has "@ + decimal(n) + " cells)"@,
        OpFault::MergeNotContiguous => "Merge requires two or more contiguous cells"@,
        OpFault::MergeMixedTypes => "Merge requires cells of the same type"@,
        OpFault::SplitPoint => "--at-line must split between existing lines"@,
        OpFault::NoStripTarget => "Select at least one strip target"@,
        OpFault::NotebookMetadataNeedsAll => "--notebook-metadata requires selection 'all'"@,
        OpFault::InvalidCellId => "Cell ID must be 1-64 ASCII letters, numbers, '-' or '_'"@,
        OpFault::DuplicateCellId(s) => "Cell ID '"@ + s + "' already exists"@,
        OpFault::UnknownCellId(s) => "No cell has ID '"@ + s + "'"@,
        OpFault::MetadataNotObject => "Notebook metadata must be an object"@,
        OpFault::NbeditNotObject => "metadata.nbedit must be an object"@,
        OpFault::BookmarksNotObject => "metadata.nbedit.bookmarks must be an object"@,
        OpFault::NoBookmarks => "No bookmarks"@,
        OpFault::UnknownBookmark(s) => "No bookmark named '"@ + s + "'"@,
        OpFault::InvalidCellType => "cell_type must be code, markdown, or raw"@,
        OpFault::NothingToEdit => "Provide source, source_path, or cell_type"@,
        OpFault::TooManyLineModes =>
            "Only one of lines, insert_after, insert_before, or delete_lines may be used"@,
        OpFault::LineModeNeedsSource =>
            "Line replacement and insertion require source or source_path"@,
    }
}

impl OpError {
    /// The message shown to the user.
    pub fn message(&self) -> (r: String)
        ensures
            r@ == op_message(self@),
    {
        let mut out: Vec<char> = Vec::new();
        match self {
            OpError::Selection(e) => {
                return e.message();
            },
            OpError::LineEdit(e) => {
                return e.message();
            },
            OpError::AtOutOfRange { at, cells } => {
                append_str(&mut out, "--at ");
                push_decimal(&mut out, *at);
                append_str(&mut out, " is out of range (notebook has ");
                push_decimal(&mut out, *cells);
                append_str(&mut out, " cells)");
            },
            OpError::DestinationAtOutOfRange { at, cells } => {
                append_str(&mut out, "--at ");
                push_decimal(&mut out, *at);
                append_str(&mut out, " is out of range (destination has ");
                push_decimal(&mut out, *cells);
                append_str(&mut out, " cells)");
            },
            OpError::DuplicateAtOutOfRange { at } => {
                append_str(&mut out, "--at ");
                push_decimal(&mut out, *at);
                append_str(&mut out, " is out of range");
            },
            OpError::AtOutsideRange { at, max } => {
                append_str(&mut out, "at is outside the valid range 1..=");
                push_decimal(&mut out, *max);
            },
            OpError::CellOutsideRange { cell } => {
                append_str(&mut out, "Cell ");
                push_decimal(&mut out, *cell);
                append_str(&mut out, " is outside the valid range");
            },
            OpError::CellOutsideRangeOf { cell, cells } => {
                append_str(&mut out, "Cell ");
                push_decimal(&mut out, *cell);
                append_str(&mut out, " is outside the valid range 1..=");
                push_decimal(&mut out, *cells);
            },
            OpError::CellIndexOutOfRange { cell, cells } => {
                append_str(&mut out, "Cell index ");
                push_decimal(&mut out, *cell);
                append_str(&mut out, " is out of range (notebook has ");
                push_decimal(&mut out, *cells);
                append_str(&mut out, " cells)");
            },
            OpError::MergeNotContiguous => {
                append_str(&mut out, "Merge requires two or more contiguous cells");
            },
            OpError::MergeMixedTypes => {
                append_str(&mut out, "Merge requires cells of the same type");
            },
            OpError::SplitPoint => {
                append_str(&mut out, "--at-line must split between existing lines");
            },
            OpError::NoStripTarget => {
                append_str(&mut out, "Select at least one strip target");
            },
            OpError::NotebookMetadataNeedsAll => {
                append_str(&mut out, "--notebook-metadata requires selection 'all'");
            },
            OpError::InvalidCellId => {
                append_str(&mut out, "Cell ID must be 1-64 ASCII letters, numbers, '-' or '_'");
            },
            OpError::DuplicateCellId(s) => {
                append_str(&mut out, "Cell ID '");
                append_str(&mut out, s.as_str());
                append_str(&mut out, "' already exists");
            },
            OpError::UnknownCellId(s) => {
                append_str(&mut out, "No cell has ID '");
                append_str(&mut out, s.as_str());
                append_str(&mut out, "'");
            },
            OpError::MetadataNotObject => {
                append_str(&mut out, "Notebook metadata must be an object");
            },
            OpError::NbeditNotObject => {
                append_str(&mut out, "metadata.nbedit must be an object");
            },
            OpError::BookmarksNotObject => {
                append_str(&mut out, "metadata.nbedit.bookmarks must be an object");
            },
            OpError::NoBookmarks => {
                append_str(&mut out, "No bookmarks");
            },
            OpError::UnknownBookmark(s) => {
                append_str(&mut out, "No bookmark named '");
                append_str(&mut out, s.as_str());
                append_str(&mut out, "'");
            },
            OpError::InvalidCellType => {
                append_str(&mut out, "cell_type must be code, markdown, or raw");
            },
            OpError::NothingToEdit => {
                append_str(&mut out, "Provide source, source_path, or cell_type");
            },
            OpError::TooManyLineModes => {
                append_str(
                    &mut out,
                    "Only one of lines, insert_after, insert_before, or delete_lines may be used",
                );
            },
            OpError::LineModeNeedsSource => {
                append_str(&mut out, "Line replacement and insertion require source or source_path");
            },
        }
        proof {
            match self@ {
                OpFault::DuplicateCellId(s) => {
                    assert(out@ =~= "Cell ID '"@ + s + "' already exists"@);
                },
                OpFault::UnknownCellId(s) => {
                    assert(out@ =~= "No cell has ID '"@ + s + "'"@);
                },
                OpFault::UnknownBookmark(s) => {
                    assert(out@ =~= "No bookmark named '"@ + s + "'"@);
                },
                _ => {},
            }
        }
        string_of(out.as_slice())
    }
}


// ---------------------------------------------------------------------------
// Sequences with some positions left out
// ---------------------------------------------------------------------------
/// The elements whose position is not in `s`, in order.
pub open spec fn without_set<A>(xs: Seq<A>, s: Set<nat>) -> Seq<A>
    decreases xs.len(),
{
    if xs.len() == 0 {
        Seq::empty()
    } else if s.contains((xs.len() - 1) as nat) {
        without_set(xs.drop_last(), s)
    } else {
        without_set(xs.drop_last(), s).push(xs.last())
    }
}

/// The elements whose position is in `s`, in order.
pub open spec fn only_set<A>(xs: Seq<A>, s: Set<nat>) -> Seq<A>
    decreases xs.len(),
{
    if xs.len() == 0 {
        Seq::empty()
    } else if s.contains((xs.len() - 1) as nat) {
        only_set(xs.drop_last(), s).push(xs.last())
    } else {
        only_set(xs.drop_last(), s)
    }
}

/// The set of positions that a list of indices names.
pub open spec fn index_set(v: Seq<usize>) -> Set<nat> {
    Set::new(|n: nat| exists|k: int| 0 <= k < v.len() && v[k] == n)
}

/// Marks the listed positions among `n`.
fn marks_of(indices: &Vec<usize>, n: usize) -> (m: Vec<bool>)
    requires
        forall|k: int| 0 <= k < indices@.len() ==> #[trigger] indices@[k] < n,
    ensures
        m@.len() == n,
        forall|i: int| 0 <= i < n ==> (#[trigger] m@[i] <==> index_set(indices@).contains(i as nat)),
{
    let mut m: Vec<bool> = vec![false; n];
    let mut k: usize = 0;
    while k < indices.len()
        invariant
            k <= indices@.len(),
            m@.len() == n,
            forall|j: int| 0 <= j < indices@.len() ==> #[trigger] indices@[j] < n,
            forall|i: int|
                0 <= i < n ==> (#[trigger] m@[i] <==> exists|j: int|
                    0 <= j < k && indices@[j] == i),
        decreases indices.len() - k,
    {
        let x = indices[k];
        m.set(x, true);
        proof {
            assert forall|i: int| 0 <= i < n implies (#[trigger] m@[i] <==> exists|j: int|
                0 <= j < k + 1 && indices@[j] == i) by {
                if i == x {
                    assert(indices@[k as int] == i);
                }
            }
        }
        k = k + 1;
    }
    m
}

/// Splits `v` into the unmarked and the marked elements, both in order.
pub fn partition_marked<A>(v: Vec<A>, marks: &Vec<bool>) -> (r: (Vec<A>, Vec<A>))
    requires
        marks@.len() == v@.len(),
    ensures
        r.0@ == without_set(v@, Set::new(|n: nat| n < marks@.len() && marks@[n as int])),
        r.1@ == only_set(v@, Set::new(|n: nat| n < marks@.len() && marks@[n as int])),
{
    let ghost orig = v@;
    let ghost s = Set::new(|n: nat| n < marks@.len() && marks@[n as int]);
    let mut kept: Vec<A> = Vec::new();
    let mut taken: Vec<A> = Vec::new();
    let mut i: usize = 0;
    for c in it: v.into_iter()
        invariant
            i == it.index(),
            it.seq() == orig,
            marks@.len() == orig.len(),
            s == Set::new(|n: nat| n < marks@.len() && marks@[n as int]),
            kept@ == without_set(orig.take(i as int), s),
            taken@ == only_set(orig.take(i as int), s),
    {
        assert(orig.take(i + 1).drop_last() =~= orig.take(i as int));
        let chosen = marks[i];
        assert(i < marks.len());
        if chosen {
            taken.push(c);
        } else {
            kept.push(c);
        }
        i = i + 1;
    }
    assert(orig.take(orig.len() as int) =~= orig);
    (kept, taken)
}

pub proof fn lemma_marks_set(marks: Seq<bool>, indices: Seq<usize>)
    requires
        forall|k: int| 0 <= k < indices.len() ==> #[trigger] indices[k] < marks.len(),
        forall|i: int|
            0 <= i < marks.len() ==> (#[trigger] marks[i] <==> index_set(indices).contains(
                i as nat,
            )),
    ensures
        Set::new(|n: nat| n < marks.len() && marks[n as int]) == index_set(indices),
{
    assert forall|n: nat| index_set(indices).contains(n) implies n < marks.len() by {
        let k = choose|k: int| 0 <= k < indices.len() && indices[k] == n;
        assert(indices[k] < marks.len());
    }
    assert(Set::new(|n: nat| n < marks.len() && marks[n as int]) =~= index_set(indices));
}

/// Moves `items` into `v` at `pos`, in order.
fn insert_all<A>(v: &mut Vec<A>, pos: usize, items: Vec<A>)
    requires
        pos <= old(v)@.len(),
    ensures
        final(v)@ == old(v)@.take(pos as int) + items@ + old(v)@.skip(pos as int),
{
    let ghost orig = v@;
    let ghost its = items@;
    let count = items.len();
    let mut offset: usize = 0;
    for c in it: items.into_iter()
        invariant
            count == its.len(),
            offset == it.index(),
            it.seq() == its,
            pos <= orig.len(),
            v@ == orig.take(pos as int) + its.take(offset as int) + orig.skip(pos as int),
    {
        assert(offset < its.len());
        assert(v@.len() == orig.len() + offset);
        let l = v.len();
        assert(pos + offset <= l);
        v.insert(pos + offset, c);
        assert(v@ =~= orig.take(pos as int) + its.take(offset + 1) + orig.skip(pos as int));
        offset = offset + 1;
    }
    assert(its.take(its.len() as int) =~= its);
}

// ---------------------------------------------------------------------------
// Creating, copying, deleting, duplicating, moving
// ---------------------------------------------------------------------------
/// The view of `Cell::new(cell_type)` after `set_source(src)`.
pub open spec fn new_cell_view(cell_type: Seq<char>, src: Seq<char>) -> CellV {
    CellV {
        id: None,
        cell_type,
        metadata: JsonV::Object(Seq::empty()),
        source: SourceV::Lines(crate::text::split_incl(src)),
        execution_count: if cell_type == word_code() {
            Some(JsonV::Null)
        } else {
            None
        },
        outputs: Seq::empty(),
        extra: Seq::empty(),
    }
}

/// `nb` with only its cells replaced.
pub open spec fn with_cells(nb: NotebookV, cells: Seq<CellV>) -> NotebookV {
    NotebookV { cells, ..nb }
}

/// Where `create --at` puts a new cell among `len` cells (0-based).
pub fn insert_position(at: Option<usize>, len: usize) -> (r: Result<usize, OpError>)
    ensures
        match at {
            Some(n) => if n == 0 || n > len + 1 {
                r matches Err(e) && e@ == OpFault::AtOutOfRange(n as nat, len as nat)
            } else {
                r == Ok::<usize, OpError>((n - 1) as usize)
            },
            None => r == Ok::<usize, OpError>(len),
        },
{
    match at {
        Some(n) => {
            if n == 0 || n - 1 > len {
                return Err(OpError::AtOutOfRange { at: n, cells: len });
            }
            Ok(n - 1)
        },
        None => Ok(len),
    }
}

/// `create`: a new cell of `cell_type` with `source`, at `--at` or at the end.
pub fn create_cell(nb: &mut Notebook, cell_type: &str, at: Option<usize>, source: String) -> (r:
    Result<usize, OpError>)
    ensures
        match at {
            Some(n) => if n == 0 || n > old(nb)@.cells.len() + 1 {
                r matches Err(e) && e@ == OpFault::AtOutOfRange(
                    n as nat,
                    old(nb)@.cells.len(),
                ) && final(nb)@ == old(nb)@
            } else {
                r == Ok::<usize, OpError>((n - 1) as usize)
            },
            None => r == Ok::<usize, OpError>(old(nb)@.cells.len() as usize),
        },
        r matches Ok(pos) ==> final(nb)@ == with_cells(
            old(nb)@,
            old(nb)@.cells.insert(pos as int, new_cell_view(cell_type@, source@)),
        ),
{
    let pos = insert_position(at, nb.cells.len())?;
    let mut cell = Cell::new(cell_type);
    cell.set_source(source);
    let ghost before = nb.cells@;
    nb.cells.insert(pos, cell);
    assert(cells_view(nb.cells@) =~= cells_view(before).insert(pos as int, cell@));
    Ok(pos)
}

/// `copy`: copies of the listed source cells, inserted into `dst` at `--at`
/// (1-based) or appended.
pub fn copy_cells(src: &Notebook, indices: &Vec<usize>, dst: &mut Notebook, at: Option<usize>) -> (r:
    Result<usize, OpError>)
    requires
        forall|k: int| 0 <= k < indices@.len() ==> #[trigger] indices@[k] < src@.cells.len(),
    ensures
        match at {
            Some(n) => if n == 0 || n > old(dst)@.cells.len() + 1 {
                r matches Err(e) && e@ == OpFault::DestinationAtOutOfRange(
                    n as nat,
                    old(dst)@.cells.len(),
                ) && final(dst)@ == old(dst)@
            } else {
                r == Ok::<usize, OpError>((n - 1) as usize)
            },
            None => r == Ok::<usize, OpError>(old(dst)@.cells.len() as usize),
        },
        r matches Ok(pos) ==> final(dst)@ == with_cells(
            old(dst)@,
            old(dst)@.cells.take(pos as int) + indices@.map_values(|i: usize| src@.cells[i as int])
                + old(dst)@.cells.skip(pos as int),
        ),
{
    let len = dst.cells.len();
    let pos = match at {
        Some(n) => {
            if n == 0 || n - 1 > len {
                return Err(OpError::DestinationAtOutOfRange { at: n, cells: len });
            }
            n - 1
        },
        None => len,
    };
    let mut copies: Vec<Cell> = Vec::new();
    let mut k: usize = 0;
    while k < indices.len()
        invariant
            k <= indices@.len(),
            forall|j: int| 0 <= j < indices@.len() ==> #[trigger] indices@[j] < src@.cells.len(),
            copies@.len() == k,
            forall|j: int|
                0 <= j < k ==> (#[trigger] copies@[j])@ == src@.cells[indices@[j] as int],
        decreases indices.len() - k,
    {
        copies.push(src.cells[indices[k]].duplicate());
        k = k + 1;
    }
    let ghost before = dst.cells@;
    let ghost cv = cells_view(copies@);
    insert_all(&mut dst.cells, pos, copies);
    assert(cv =~= indices@.map_values(|i: usize| src@.cells[i as int]));
    assert(cells_view(dst.cells@) =~= cells_view(before).take(pos as int) + cv + cells_view(
        before,
    ).skip(pos as int));
    Ok(pos)
}

/// `delete`: removes the listed cells.
pub fn delete_cells(nb: &mut Notebook, indices: &Vec<usize>)
    requires
        forall|k: int| 0 <= k < indices@.len() ==> #[trigger] indices@[k] < old(nb)@.cells.len(),
    ensures
        final(nb)@ == with_cells(
            old(nb)@,
            without_set(old(nb)@.cells, index_set(indices@)),
        ),
{
    let n = nb.cells.len();
    let marks = marks_of(indices, n);
    let mut cells: Vec<Cell> = Vec::new();
    std::mem::swap(&mut cells, &mut nb.cells);
    let ghost orig = cells@;
    let (kept, _gone) = partition_marked(cells, &marks);
    proof {
        lemma_marks_set(marks@, indices@);
        lemma_without_set_map(orig, index_set(indices@));
    }
    nb.cells = kept;
}

/// Viewing commutes with leaving positions out.
pub proof fn lemma_without_set_map(xs: Seq<Cell>, s: Set<nat>)
    ensures
        cells_view(without_set(xs, s)) == without_set(cells_view(xs), s),
        cells_view(only_set(xs, s)) == only_set(cells_view(xs), s),
    decreases xs.len(),
{
    if xs.len() > 0 {
        lemma_without_set_map(xs.drop_last(), s);
        assert(cells_view(xs).drop_last() =~= cells_view(xs.drop_last()));
        assert(cells_view(without_set(xs.drop_last(), s).push(xs.last())) =~= cells_view(
            without_set(xs.drop_last(), s),
        ).push(xs.last()@));
        assert(cells_view(only_set(xs.drop_last(), s).push(xs.last())) =~= cells_view(
            only_set(xs.drop_last(), s),
        ).push(xs.last()@));
    } else {
        assert(cells_view(xs) =~= Seq::<CellV>::empty());
        assert(cells_view(Seq::<Cell>::empty()) =~= Seq::<CellV>::empty());
    }
}

proof fn lemma_partition_multiset<A>(xs: Seq<A>, s: Set<nat>)
    ensures
        without_set(xs, s).to_multiset().add(only_set(xs, s).to_multiset()) == xs.to_multiset(),
    decreases xs.len(),
{
    broadcast use vstd::multiset::group_multiset_axioms;

    if xs.len() == 0 {
        assert(without_set(xs, s) =~= Seq::<A>::empty());
        assert(only_set(xs, s) =~= Seq::<A>::empty());
        assert(xs =~= Seq::<A>::empty());
        assert(Seq::<A>::empty().to_multiset() =~= vstd::multiset::Multiset::<A>::empty()) by {
            broadcast use vstd::seq_lib::group_to_multiset_ensures;
        }
        assert(vstd::multiset::Multiset::<A>::empty().add(vstd::multiset::Multiset::<A>::empty()) =~= vstd::multiset::Multiset::<A>::empty());
    } else {
        let d = xs.drop_last();
        let x = xs.last();
        lemma_partition_multiset(d, s);
        assert(xs =~= d.push(x));
        vstd::seq_lib::to_multiset_build(d, x);
        if s.contains((xs.len() - 1) as nat) {
            vstd::seq_lib::to_multiset_build(only_set(d, s), x);
            assert(without_set(xs, s).to_multiset().add(only_set(xs, s).to_multiset())
                =~= xs.to_multiset());
        } else {
            vstd::seq_lib::to_multiset_build(without_set(d, s), x);
            assert(without_set(xs, s).to_multiset().add(only_set(xs, s).to_multiset())
                =~= xs.to_multiset());
        }
    }
}

/// Law: moving cells only reorders them; the notebook keeps every cell, as
/// many times as before.
pub proof fn lemma_move_keeps_cells(cs: Seq<CellV>, s: Set<nat>, k: int)
    requires
        0 <= k <= without_set(cs, s).len(),
    ensures
        (without_set(cs, s).take(k) + only_set(cs, s) + without_set(cs, s).skip(
            k,
        )).to_multiset() == cs.to_multiset(),
{
    broadcast use vstd::multiset::group_multiset_axioms;

    let rest = without_set(cs, s);
    let sel = only_set(cs, s);
    let a = rest.take(k);
    let b = rest.skip(k);
    lemma_partition_multiset(cs, s);
    vstd::seq_lib::lemma_multiset_commutative(a + sel, b);
    vstd::seq_lib::lemma_multiset_commutative(a, sel);
    vstd::seq_lib::lemma_multiset_commutative(a, b);
    assert(a + b =~= rest);
    assert((a + sel + b).to_multiset() =~= rest.to_multiset().add(sel.to_multiset()));
}

/// `c` with its id removed.
pub open spec fn without_id(c: CellV) -> CellV {
    CellV { id: None, ..c }
}

/// `duplicate`: copies (without ids) of the listed cells inserted at `--at`
/// (1-based, default after the last cell); then every cell gets an id.
pub fn duplicate_cells(nb: &mut Notebook, indices: &Vec<usize>, at: Option<usize>) -> (r: Result<
    usize,
    OpError,
>)
    requires
        forall|k: int| 0 <= k < indices@.len() ==> #[trigger] indices@[k] < old(nb)@.cells.len(),
        old(nb)@.cells.len() + indices@.len() < usize::MAX / 2,
    ensures
        ({
            let len = old(nb)@.cells.len();
            let pos = match at {
                Some(n) => n as nat,
                None => len + 1,
            };
            if pos == 0 || pos > len + 1 {
                r matches Err(e) && e@ == OpFault::DuplicateAtOutOfRange(pos) && final(nb)@ == old(
                    nb,
                )@
            } else {
                r == Ok::<usize, OpError>(pos as usize) && final(nb)@ == with_cells(
                    old(nb)@,
                    final(nb)@.cells,
                ) && ids_ensured(
                    old(nb)@.cells.take(pos - 1) + indices@.map_values(
                        |i: usize| without_id(old(nb)@.cells[i as int]),
                    ) + old(nb)@.cells.skip(pos - 1),
                    final(nb)@.cells,
                )
            }
        }),
{
    let len = nb.cells.len();
    let pos = match at {
        Some(n) => n,
        None => len + 1,
    };
    if pos == 0 || pos > len + 1 {
        return Err(OpError::DuplicateAtOutOfRange { at: pos });
    }
    let mut copies: Vec<Cell> = Vec::new();
    let mut k: usize = 0;
    while k < indices.len()
        invariant
            k <= indices@.len(),
            forall|j: int| 0 <= j < indices@.len() ==> #[trigger] indices@[j] < nb@.cells.len(),
            copies@.len() == k,
            forall|j: int|
                0 <= j < k ==> (#[trigger] copies@[j])@ == without_id(nb@.cells[indices@[j] as int]),
        decreases indices.len() - k,
    {
        let mut c = nb.cells[indices[k]].duplicate();
        c.id = None;
        copies.push(c);
        k = k + 1;
    }
    let ghost before = nb.cells@;
    let ghost cv = cells_view(copies@);
    insert_all(&mut nb.cells, pos - 1, copies);
    assert(cv =~= indices@.map_values(|i: usize| without_id(cells_view(before)[i as int])));
    assert(cells_view(nb.cells@) =~= cells_view(before).take(pos - 1) + cv + cells_view(
        before,
    ).skip(pos - 1));
    nb.ensure_cell_ids();
    Ok(pos)
}

/// `move`: the selected cells (in order) put at the destination within the
/// remaining cells; `to` is `last` or a 1-based position, clamped to the end.
pub fn move_cells(nb: &mut Notebook, indices: &Vec<usize>, to: &str) -> (r: Result<
    usize,
    OpError,
>)
    requires
        forall|k: int| 0 <= k < indices@.len() ==> #[trigger] indices@[k] < old(nb)@.cells.len(),
    ensures
        ({
            let total = old(nb)@.cells.len();
            let e = crate::text::trim(to@);
            let dest: Result<nat, SelectionFault> = if crate::text::eq_ignore_ascii_case(
                e,
                crate::selection::word_last(),
            ) {
                if total == 0 {
                    Err(SelectionFault::NoCells)
                } else {
                    Ok((total - 1) as nat)
                }
            } else {
                crate::selection::index_of_text(e, total)
            };
            match dest {
                Err(f) => r matches Err(err) && err@ == OpFault::Selection(f) && final(nb)@ == old(
                    nb,
                )@,
                Ok(d) => {
                    let s = index_set(indices@);
                    let rest = without_set(old(nb)@.cells, s);
                    let sel = only_set(old(nb)@.cells, s);
                    let k = if d < rest.len() {
                        d as int
                    } else {
                        rest.len() as int
                    };
                    r == Ok::<usize, OpError>(d as usize) && final(nb)@ == with_cells(
                        old(nb)@,
                        rest.take(k) + sel + rest.skip(k),
                    )
                },
            }
        }),
{
    let n = nb.cells.len();
    let dest = match crate::selection::resolve_single(to, n) {
        Ok(d) => d,
        Err(e) => {
            return Err(OpError::Selection(e));
        },
    };
    let marks = marks_of(indices, n);
    let mut cells: Vec<Cell> = Vec::new();
    std::mem::swap(&mut cells, &mut nb.cells);
    let ghost orig = cells@;
    let (rest, selected) = partition_marked(cells, &marks);
    proof {
        lemma_marks_set(marks@, indices@);
        lemma_without_set_map(orig, index_set(indices@));
    }
    let insert_at = if dest < rest.len() {
        dest
    } else {
        rest.len()
    };
    let mut rest = rest;
    let ghost rv = rest@;
    let ghost sv = selected@;
    insert_all(&mut rest, insert_at, selected);
    proof {
        assert(cells_view(rest@) =~= cells_view(rv).take(insert_at as int) + cells_view(sv)
            + cells_view(rv).skip(insert_at as int));
    }
    nb.cells = rest;
    Ok(dest)
}


// ---------------------------------------------------------------------------
// Outputs, types and merging
// ---------------------------------------------------------------------------
/// A code cell with its outputs cleared and its execution count reset.
pub open spec fn cleared(c: CellV) -> CellV {
    CellV { outputs: Seq::empty(), execution_count: Some(JsonV::Null), ..c }
}

fn clear_cell(c: &mut Cell)
    ensures
        final(c)@ == cleared(old(c)@),
{
    c.outputs = Vec::new();
    c.execution_count = Some(Json::Null);
    assert(jsons_view(c.outputs@) =~= Seq::<JsonV>::empty());
}

/// The listed positions whose cell is a code cell, in order.
pub open spec fn code_positions(v: Seq<usize>, cs: Seq<CellV>) -> Seq<usize>
    decreases v.len(),
{
    if v.len() == 0 {
        Seq::empty()
    } else if cs[v.last() as int].cell_type == word_code() {
        code_positions(v.drop_last(), cs).push(v.last())
    } else {
        code_positions(v.drop_last(), cs)
    }
}

/// `clear`: clears the outputs and execution counts of the listed code
/// cells; returns the 0-based indices of the cells it cleared.
pub fn clear_outputs(nb: &mut Notebook, indices: &Vec<usize>) -> (r: Vec<usize>)
    requires
        forall|k: int| 0 <= k < indices@.len() ==> #[trigger] indices@[k] < old(nb)@.cells.len(),
        forall|a: int, b: int| 0 <= a < b < indices@.len() ==> indices@[a] < indices@[b],
    ensures
        final(nb)@.cells.len() == old(nb)@.cells.len(),
        final(nb)@ == with_cells(old(nb)@, final(nb)@.cells),
        forall|i: int|
            0 <= i < old(nb)@.cells.len() ==> #[trigger] final(nb)@.cells[i] == (if index_set(
                indices@,
            ).contains(i as nat) && old(nb)@.cells[i].cell_type == word_code() {
                cleared(old(nb)@.cells[i])
            } else {
                old(nb)@.cells[i]
            }),
        r@ == code_positions(indices@, old(nb)@.cells),
{
    let ghost before = nb@.cells;
    let mut done: Vec<usize> = Vec::new();
    let mut k: usize = 0;
    while k < indices.len()
        invariant
            k <= indices@.len(),
            forall|j: int| 0 <= j < indices@.len() ==> #[trigger] indices@[j] < before.len(),
            forall|a: int, b: int| 0 <= a < b < indices@.len() ==> indices@[a] < indices@[b],
            nb@ == with_cells(old(nb)@, nb@.cells),
            before == old(nb)@.cells,
            nb@.cells.len() == before.len(),
            forall|i: int|
                0 <= i < before.len() ==> #[trigger] nb@.cells[i] == (if index_set(
                    indices@.take(k as int),
                ).contains(i as nat) && before[i].cell_type == word_code() {
                    cleared(before[i])
                } else {
                    before[i]
                }),
            done@ == code_positions(indices@.take(k as int), before),
        decreases indices.len() - k,
    {
        let idx = indices[k];
        assert(indices@.take(k + 1).drop_last() =~= indices@.take(k as int));
        proof {
            let prev = indices@.take(k as int);
            let next = indices@.take(k + 1);
            assert(next[k as int] == idx);
            assert forall|i: nat| #[trigger] index_set(next).contains(i) == (index_set(
                prev,
            ).contains(i) || i == idx) by {
                if index_set(prev).contains(i) {
                    let j = choose|j: int| 0 <= j < prev.len() && prev[j] == i;
                    assert(next[j] == i);
                }
                if index_set(next).contains(i) && i != idx {
                    let j = choose|j: int| 0 <= j < next.len() && next[j] == i;
                    assert(prev[j] == i);
                }
            }
            assert(!index_set(prev).contains(idx as nat)) by {
                if index_set(prev).contains(idx as nat) {
                    let j = choose|j: int| 0 <= j < prev.len() && prev[j] == idx;
                    assert(indices@[j] < indices@[k as int]);
                }
            }
            assert(nb@.cells[idx as int] == before[idx as int]);
        }
        if nb.cells[idx].is_code() {
            let ghost cells_at = nb@.cells;
            clear_cell(&mut nb.cells[idx]);
            done.push(idx);
            proof {
                assert forall|i: int| 0 <= i < before.len() && i != idx implies #[trigger] nb@.cells[i]
                    == cells_at[i] by {}
            }
        }
        k = k + 1;
    }
    assert(indices@.take(indices@.len() as int) =~= indices@);
    done
}

/// `edit --type`: the new type; code cells keep (or gain) an execution
/// count, other cells lose their count and outputs.
pub open spec fn retyped(c: CellV, t: Seq<char>) -> CellV {
    if t == word_code() {
        CellV {
            cell_type: t,
            execution_count: if c.execution_count is None {
                Some(JsonV::Null)
            } else {
                c.execution_count
            },
            ..c
        }
    } else {
        CellV { cell_type: t, execution_count: None, outputs: Seq::empty(), ..c }
    }
}

pub fn change_cell_type(c: &mut Cell, t: &str)
    ensures
        final(c)@ == retyped(old(c)@, t@),
{
    c.cell_type = string_of(crate::text::chars_of(t).as_slice());
    if c.is_code() {
        if c.execution_count.is_none() {
            c.execution_count = Some(Json::Null);
        }
    } else {
        c.execution_count = None;
        c.outputs = Vec::new();
        assert(jsons_view(c.outputs@) =~= Seq::<JsonV>::empty());
    }
}

/// The cell types that tools accept.
pub open spec fn is_known_type(t: Seq<char>) -> bool {
    t == word_code() || t == "markdown"@ || t == "raw"@
}

pub fn is_known_type_str(t: &str) -> (r: bool)
    ensures
        r == is_known_type(t@),
{
    let code = crate::text::str_equal(t, "code");
    proof {
        reveal_strlit("code");
        assert("code"@ =~= word_code());
    }
    code || crate::text::str_equal(t, "markdown") || crate::text::str_equal(t, "raw")
}

/// The sources of `cs`, concatenated.
pub open spec fn sources_concat(cs: Seq<CellV>) -> Seq<char>
    decreases cs.len(),
{
    if cs.len() == 0 {
        Seq::empty()
    } else {
        sources_concat(cs.drop_last()) + source_text(cs.last().source)
    }
}

/// The merged cell: the first cell with all sources concatenated (code
/// cells also lose their outputs).
pub open spec fn merged_cell(cs: Seq<CellV>) -> CellV {
    let first = CellV {
        source: SourceV::Lines(crate::text::split_incl(sources_concat(cs))),
        ..cs[0]
    };
    if cs[0].cell_type == word_code() {
        cleared(first)
    } else {
        first
    }
}

pub open spec fn contiguous(v: Seq<usize>) -> bool {
    forall|k: int| 0 <= k < v.len() - 1 ==> #[trigger] v[k + 1] == v[k] + 1
}

/// `merge`: joins two or more contiguous cells of one type into the first.
pub fn merge_cells(nb: &mut Notebook, indices: &Vec<usize>) -> (r: Result<usize, OpError>)
    requires
        forall|k: int| 0 <= k < indices@.len() ==> #[trigger] indices@[k] < old(nb)@.cells.len(),
    ensures
        ({
            let v = indices@;
            let cs = old(nb)@.cells;
            if v.len() < 2 || !contiguous(v) {
                r matches Err(e) && e@ == OpFault::MergeNotContiguous && final(nb)@ == old(nb)@
            } else if exists|k: int| 0 <= k < v.len() && #[trigger] cs[v[k] as int].cell_type != cs[v[0] as int].cell_type {
                r matches Err(e) && e@ == OpFault::MergeMixedTypes && final(nb)@ == old(nb)@
            } else {
                let first = v[0] as int;
                let last = v.last() as int;
                r == Ok::<usize, OpError>(v[0]) && final(nb)@ == with_cells(
                    old(nb)@,
                    cs.take(first) + seq![merged_cell(cs.subrange(first, last + 1))] + cs.skip(
                        last + 1,
                    ),
                )
            }
        }),
{
    let n = indices.len();
    if n < 2 {
        return Err(OpError::MergeNotContiguous);
    }
    let mut k: usize = 0;
    while k < n - 1
        invariant
            n == indices@.len(),
            n >= 2,
            k <= n - 1,
            forall|j: int| 0 <= j < n ==> #[trigger] indices@[j] < old(nb)@.cells.len(),
            old(nb).cells.len() == old(nb)@.cells.len(),
            forall|j: int| 0 <= j < k ==> #[trigger] indices@[j + 1] == indices@[j] + 1,
        decreases n - k,
    {
        if indices[k + 1] != indices[k] + 1 {
            return Err(OpError::MergeNotContiguous);
        }
        k = k + 1;
    }
    let first = indices[0];
    let last = indices[n - 1];
    proof {
        assert forall|j: int| 0 <= j < n implies #[trigger] indices@[j] == first + j by {
            lemma_contiguous_offset(indices@, j);
        }
    }
    let mut k: usize = 0;
    while k < n
        invariant
            n == indices@.len(),
            forall|j: int| 0 <= j < n ==> #[trigger] indices@[j] < nb@.cells.len(),
            forall|j: int| 0 <= j < k ==> #[trigger] nb@.cells[indices@[j] as int].cell_type
                == nb@.cells[first as int].cell_type,
            first == indices@[0],
            nb@ == old(nb)@,
            contiguous(indices@),
        decreases n - k,
    {
        if nb.cells[indices[k]].cell_type != nb.cells[first].cell_type {
            proof {
                assert(nb@.cells[indices@[k as int] as int].cell_type != nb@.cells[indices@[0] as int].cell_type);
            }
            return Err(OpError::MergeMixedTypes);
        }
        k = k + 1;
    }
    let ghost cs = nb@.cells;
    let mut source: Vec<char> = Vec::new();
    let mut i = first;
    while i <= last
        invariant
            first <= i <= last + 1,
            last < cs.len(),
            cs.len() == nb.cells.len(),
            cs == nb@.cells,
            source@ == sources_concat(cs.subrange(first as int, i as int)),
        decreases last + 1 - i,
    {
        assert(cs.subrange(first as int, i + 1).drop_last() =~= cs.subrange(first as int, i as int));
        let s = nb.cells[i].source_str();
        crate::text::append_str(&mut source, s.as_str());
        i = i + 1;
    }
    let mut merged = nb.cells[first].duplicate();
    merged.set_source(string_of(source.as_slice()));
    if merged.is_code() {
        clear_cell(&mut merged);
    }
    let ghost mc = merged@;
    nb.cells.set(first, merged);
    let mut tail = nb.cells.split_off(last + 1);
    nb.cells.truncate(first + 1);
    nb.cells.append(&mut tail);
    proof {
        assert(cells_view(nb.cells@) =~= cs.take(first as int) + seq![mc] + cs.skip(last + 1));
    }
    Ok(first)
}

/// The two sources that `split --at-line` makes of `src`: its first
/// `at_line` lines, and the rest (keeping a final newline).
pub open spec fn split_parts(src: Seq<char>, at_line: nat) -> (Seq<char>, Seq<char>) {
    let ls = crate::text::lines(src);
    let rest = crate::text::join(ls.skip(at_line as int), seq!['\n']);
    (
        crate::text::join(ls.take(at_line as int), seq!['\n']),
        if crate::text::ends_with_nl(src) {
            rest.push('\n')
        } else {
            rest
        },
    )
}

/// The cell that keeps the first part of a split (code cells lose their
/// outputs).
pub open spec fn split_head(c: CellV, first: Seq<char>) -> CellV {
    let h = CellV { source: SourceV::Lines(crate::text::split_incl(first)), ..c };
    if c.cell_type == word_code() {
        cleared(h)
    } else {
        h
    }
}

/// `split`: cell `index` (1-based) becomes two cells at line `at_line`;
/// the new second cell is a copy without id, and then every cell gets an id.
pub fn split_cell(nb: &mut Notebook, index: usize, at_line: usize) -> (r: Result<(), OpError>)
    requires
        old(nb)@.cells.len() + 1 < usize::MAX / 2,
    ensures
        ({
            let cs = old(nb)@.cells;
            if index == 0 || index > cs.len() {
                r matches Err(e) && e@ == OpFault::CellOutsideRange(index as nat) && final(nb)@
                    == old(nb)@
            } else {
                let c = cs[index - 1];
                let src = source_text(c.source);
                if at_line == 0 || at_line >= crate::text::lines(src).len() {
                    r matches Err(e) && e@ == OpFault::SplitPoint && final(nb)@ == old(nb)@
                } else {
                    let parts = split_parts(src, at_line as nat);
                    let head = split_head(c, parts.0);
                    let tail = CellV {
                        id: None,
                        source: SourceV::Lines(crate::text::split_incl(parts.1)),
                        ..head
                    };
                    r is Ok && final(nb)@ == with_cells(old(nb)@, final(nb)@.cells) && ids_ensured(
                        cs.update(index - 1, head).insert(index as int, tail),
                        final(nb)@.cells,
                    )
                }
            }
        }),
{
    let n = nb.cells.len();
    if index == 0 || index > n {
        return Err(OpError::CellOutsideRange { cell: index });
    }
    let source = nb.cells[index - 1].source_str();
    let chars = crate::text::chars_of(source.as_str());
    let mut head_lines = crate::text::lines_of(chars.as_slice());
    if at_line == 0 || at_line >= head_lines.len() {
        return Err(OpError::SplitPoint);
    }
    let ghost all = crate::text::views(head_lines@);
    let tail_lines = head_lines.split_off(at_line);
    proof {
        assert(crate::text::views(head_lines@) =~= all.take(at_line as int));
        assert(crate::text::views(tail_lines@) =~= all.skip(at_line as int));
    }
    let sep: Vec<char> = vec!['\n'];
    let first = crate::text::join_chars(&head_lines, sep.as_slice());
    let mut second = crate::text::join_chars(&tail_lines, sep.as_slice());
    let trailing = chars.len() > 0 && chars[chars.len() - 1] == '\n';
    if trailing {
        second.push('\n');
    }
    let ghost cs = nb@.cells;
    let ghost parts = split_parts(source_text(cs[index - 1].source), at_line as nat);
    assert(sep@ =~= seq!['\n']);
    assert(chars@ == source_text(cs[index - 1].source));
    assert(all == crate::text::lines(chars@));
    assert(first@ == parts.0);
    assert(second@ == parts.1);
    nb.cells[index - 1].set_source(string_of(first.as_slice()));
    if nb.cells[index - 1].is_code() {
        clear_cell(&mut nb.cells[index - 1]);
    }
    let mut sibling = nb.cells[index - 1].duplicate();
    sibling.id = None;
    sibling.set_source(string_of(second.as_slice()));
    let ghost mid = nb@.cells;
    nb.cells.insert(index, sibling);
    proof {
        assert(mid[index - 1] == split_head(cs[index - 1], parts.0));
        assert(mid =~= cs.update(index - 1, mid[index - 1]));
        assert(nb@.cells =~= mid.insert(index as int, sibling@));
    }
    nb.ensure_cell_ids();
    Ok(())
}

/// What `strip` does to one selected cell.
pub open spec fn stripped(c: CellV, outputs: bool, cell_metadata: bool) -> CellV {
    let a = if outputs && c.cell_type == word_code() {
        cleared(c)
    } else {
        c
    };
    if cell_metadata {
        CellV { metadata: JsonV::Object(Seq::empty()), ..a }
    } else {
        a
    }
}

/// `strip`: removes outputs, cell metadata and/or notebook metadata.
pub fn strip_cells(
    nb: &mut Notebook,
    selection: &str,
    outputs: bool,
    cell_metadata: bool,
    notebook_metadata: bool,
    dry_run: bool,
) -> (r: Result<(), OpError>)
    ensures
        ({
            let cs = old(nb)@.cells;
            if !outputs && !cell_metadata && !notebook_metadata {
                r matches Err(e) && e@ == OpFault::NoStripTarget && final(nb)@ == old(nb)@
            } else {
                match crate::selection::selection(selection@, cs.len()) {
                    Err(f) => r matches Err(e) && e@ == OpFault::Selection(f) && final(nb)@ == old(
                        nb,
                    )@,
                    Ok(s) => if notebook_metadata && selection@ != crate::selection::word_all() {
                        r matches Err(e) && e@ == OpFault::NotebookMetadataNeedsAll && final(nb)@
                            == old(nb)@
                    } else if dry_run {
                        r is Ok && final(nb)@ == old(nb)@
                    } else {
                        r is Ok && final(nb)@ == (NotebookV {
                            metadata: if notebook_metadata {
                                JsonV::Object(Seq::empty())
                            } else {
                                old(nb)@.metadata
                            },
                            cells: Seq::new(
                                cs.len(),
                                |i: int|
                                    if s.contains(i as nat) {
                                        stripped(cs[i], outputs, cell_metadata)
                                    } else {
                                        cs[i]
                                    },
                            ),
                            ..old(nb)@
                        })
                    },
                }
            }
        }),
{
    if !outputs && !cell_metadata && !notebook_metadata {
        return Err(OpError::NoStripTarget);
    }
    let indices = match crate::selection::resolve(selection, nb.cells.len()) {
        Ok(v) => v,
        Err(e) => {
            return Err(OpError::Selection(e));
        },
    };
    let is_all = crate::text::str_equal(selection, "all");
    proof {
        reveal_strlit("all");
        assert("all"@ =~= crate::selection::word_all());
    }
    if notebook_metadata && !is_all {
        return Err(OpError::NotebookMetadataNeedsAll);
    }
    if dry_run {
        return Ok(());
    }
    let ghost before = nb@.cells;
    let ghost sel = crate::selection::selection(selection@, before.len())->Ok_0;
    let mut k: usize = 0;
    while k < indices.len()
        invariant
            k <= indices@.len(),
            lists_sorted(indices@, sel),
            forall|j: int| 0 <= j < indices@.len() ==> #[trigger] indices@[j] < before.len(),
            nb@ == with_cells(old(nb)@, nb@.cells),
            before == old(nb)@.cells,
            nb@.cells.len() == before.len(),
            forall|i: int|
                0 <= i < before.len() ==> #[trigger] nb@.cells[i] == (if index_set(
                    indices@.take(k as int),
                ).contains(i as nat) {
                    stripped(before[i], outputs, cell_metadata)
                } else {
                    before[i]
                }),
        decreases indices.len() - k,
    {
        let idx = indices[k];
        proof {
            let prev = indices@.take(k as int);
            let next = indices@.take(k + 1);
            assert(next[k as int] == idx);
            assert forall|i: nat| #[trigger] index_set(next).contains(i) == (index_set(
                prev,
            ).contains(i) || i == idx) by {
                if index_set(prev).contains(i) {
                    let j = choose|j: int| 0 <= j < prev.len() && prev[j] == i;
                    assert(next[j] == i);
                }
                if index_set(next).contains(i) && i != idx {
                    let j = choose|j: int| 0 <= j < next.len() && next[j] == i;
                    assert(prev[j] == i);
                }
            }
            assert(!index_set(prev).contains(idx as nat)) by {
                if index_set(prev).contains(idx as nat) {
                    let j = choose|j: int| 0 <= j < prev.len() && prev[j] == idx;
                    assert(indices@[j] < indices@[k as int]);
                }
            }
            assert(nb@.cells[idx as int] == before[idx as int]);
        }
        let ghost cells_at = nb@.cells;
        if outputs && nb.cells[idx].is_code() {
            clear_cell(&mut nb.cells[idx]);
        }
        if cell_metadata {
            nb.cells[idx].metadata = Json::empty_object();
        }
        proof {
            assert(nb@.cells[idx as int] == stripped(before[idx as int], outputs, cell_metadata));
            assert forall|i: int| 0 <= i < before.len() && i != idx implies #[trigger] nb@.cells[i]
                == cells_at[i] by {}
        }
        k = k + 1;
    }
    if notebook_metadata {
        nb.metadata = Json::empty_object();
    }
    proof {
        assert(indices@.take(indices@.len() as int) =~= indices@);
        assert forall|i: nat| #[trigger] index_set(indices@).contains(i) == sel.contains(i) by {
            if sel.contains(i) {
                let j = choose|j: int| 0 <= j < indices@.len() && indices@[j] == i;
            }
        }
        let s = sel;
        assert(nb@.cells =~= Seq::new(
            before.len(),
            |i: int|
                if s.contains(i as nat) {
                    stripped(before[i], outputs, cell_metadata)
                } else {
                    before[i]
                },
        ));
    }
    Ok(())
}

proof fn lemma_contiguous_offset(v: Seq<usize>, j: int)
    requires
        0 <= j < v.len(),
        forall|k: int| 0 <= k < v.len() - 1 ==> #[trigger] v[k + 1] == v[k] + 1,
    ensures
        v[j] == v[0] + j,
    decreases j,
{
    if j > 0 {
        lemma_contiguous_offset(v, j - 1);
        assert(v[(j - 1) + 1] == v[j - 1] + 1);
    }
}

} // verus!
