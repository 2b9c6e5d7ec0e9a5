//! Editing one cell (its source, some of its lines, its type), creating a
//! cell from a tool call, and the counts that `info` shows.
use crate::edit::{
    deleted_lines_text, rejoin, spliced, LineEditError, LineEditFault,
};
use crate::json::{Json, JsonV};
use crate::notebook::{
    cells_view, ids_ensured, jsons_view, source_text, word_code, Cell, CellV, Notebook,
    NotebookV, SourceV,
};
use crate::ops::{is_known_type, retyped, with_cells, OpError, OpFault};
use crate::selection::{lists_sorted, selection};
use crate::text::{ends_with_nl, lines, split_incl, str_equal};
use vstd::prelude::*;

verus! {

/// What an edit does to a cell's source.
#[derive(Debug)]
pub enum SourceEdit {
    /// Delete the lines a selection names.
    DeleteLines(String),
    /// Insert the lines of the text after a 1-based line.
    InsertAfter(usize, String),
    /// Insert the lines of the text before a 1-based line.
    InsertBefore(usize, String),
    /// Replace the span from the first to the last selected line.
    ReplaceLines(String, String),
    /// Replace the whole source, or leave it.
    Replace(Option<String>),
}

pub enum SourceEditV {
    DeleteLines(Seq<char>),
    InsertAfter(nat, Seq<char>),
    InsertBefore(nat, Seq<char>),
    ReplaceLines(Seq<char>, Seq<char>),
    Replace(Option<Seq<char>>),
}

impl View for SourceEdit {
    type V = SourceEditV;

    open spec fn view(&self) -> SourceEditV {
        match self {
            SourceEdit::DeleteLines(e) => SourceEditV::DeleteLines(e@),
            SourceEdit::InsertAfter(a, c) => SourceEditV::InsertAfter(*a as nat, c@),
            SourceEdit::InsertBefore(b, c) => SourceEditV::InsertBefore(*b as nat, c@),
            SourceEdit::ReplaceLines(e, c) => SourceEditV::ReplaceLines(e@, c@),
            SourceEdit::Replace(o) => SourceEditV::Replace(
                match o {
                    Some(s) => Some(s@),
                    None => None,
                },
            ),
        }
    }
}

/// `out` is what the edit makes of the source `cur` of cell `cell`: the new
/// source (`None`: unchanged) and the number of deleted lines, or the
/// refusal.
pub open spec fn source_edit_outcome(
    cur: Seq<char>,
    e: SourceEditV,
    cell: nat,
    out: Result<(Option<Seq<char>>, nat), LineEditFault>,
) -> bool {
    let ls = lines(cur);
    match e {
        SourceEditV::DeleteLines(expr) => if ls.len() == 0 {
            out == Err::<(Option<Seq<char>>, nat), LineEditFault>(
                LineEditFault::EmptyCellDelete(cell),
            )
        } else {
            match selection(expr, ls.len()) {
                Err(f) => out == Err::<(Option<Seq<char>>, nat), LineEditFault>(
                    LineEditFault::Selection(f),
                ),
                Ok(s) => exists|picked: Seq<usize>|
                    lists_sorted(picked, s) && out == Ok::<(Option<Seq<char>>, nat), LineEditFault>(
                        (Some(deleted_lines_text(cur, s)), picked.len()),
                    ),
            }
        },
        SourceEditV::InsertAfter(after, content) => if after == 0 || after > ls.len() {
            out == Err::<(Option<Seq<char>>, nat), LineEditFault>(
                LineEditFault::InsertAfterOutOfRange(after, cell, ls.len()),
            )
        } else {
            out == Ok::<(Option<Seq<char>>, nat), LineEditFault>(
                (
                    Some(
                        rejoin(
                            spliced(ls, after as int, after as int, lines(content)),
                            ends_with_nl(cur),
                        ),
                    ),
                    0,
                ),
            )
        },
        SourceEditV::InsertBefore(before, content) => if before == 0 || before > ls.len() {
            out == Err::<(Option<Seq<char>>, nat), LineEditFault>(
                LineEditFault::InsertBeforeOutOfRange(before, cell, ls.len()),
            )
        } else {
            out == Ok::<(Option<Seq<char>>, nat), LineEditFault>(
                (
                    Some(
                        rejoin(
                            spliced(ls, before - 1, before - 1, lines(content)),
                            ends_with_nl(cur),
                        ),
                    ),
                    0,
                ),
            )
        },
        SourceEditV::ReplaceLines(expr, content) => if ls.len() == 0 {
            out == Err::<(Option<Seq<char>>, nat), LineEditFault>(
                LineEditFault::EmptyCellTarget(cell),
            )
        } else {
            match selection(expr, ls.len()) {
                Err(f) => out == Err::<(Option<Seq<char>>, nat), LineEditFault>(
                    LineEditFault::Selection(f),
                ),
                Ok(s) => exists|picked: Seq<usize>|
                    lists_sorted(picked, s) && picked.len() > 0 && out == Ok::<
                        (Option<Seq<char>>, nat),
                        LineEditFault,
                    >(
                        (
                            Some(
                                rejoin(
                                    spliced(
                                        ls,
                                        picked[0] as int,
                                        picked.last() + 1,
                                        lines(content),
                                    ),
                                    ends_with_nl(cur),
                                ),
                            ),
                            0,
                        ),
                    ),
            }
        },
        SourceEditV::Replace(o) => out == Ok::<(Option<Seq<char>>, nat), LineEditFault>((o, 0)),
    }
}

/// The cell with a new source, if there is one.
pub open spec fn with_source(c: CellV, src: Option<Seq<char>>) -> CellV {
    match src {
        Some(s) => CellV { source: SourceV::Lines(split_incl(s)), ..c },
        None => c,
    }
}

/// The cell with a new type, if there is one (as `edit --type` sets it).
pub open spec fn with_type(c: CellV, t: Option<Seq<char>>) -> CellV {
    match t {
        Some(t) => retyped(c, t),
        None => c,
    }
}

fn apply_source_edit(current: &String, edit: SourceEdit, cell: usize) -> (r: Result<
    (Option<String>, usize),
    LineEditError,
>)
    ensures
        exists|out: Result<(Option<Seq<char>>, nat), LineEditFault>|
            #[trigger] source_edit_outcome(current@, edit@, cell as nat, out) && match (r, out) {
                (Ok((s, n)), Ok((t, m))) => n == m && match (s, t) {
                    (Some(x), Some(y)) => x@ == y,
                    (None, None) => true,
                    _ => false,
                },
                (Err(e), Err(f)) => e@ == f,
                _ => false,
            },
{
    match edit {
        SourceEdit::DeleteLines(expr) => {
            match crate::edit::delete_lines(current, expr.as_str(), cell) {
                Ok((text, count)) => {
                    proof {
                        let s = selection(expr@, lines(current@).len())->Ok_0;
                        let picked = choose|picked: Seq<usize>|
                            lists_sorted(picked, s) && count == picked.len();
                        let out = Ok::<(Option<Seq<char>>, nat), LineEditFault>(
                            (Some(text@), count as nat),
                        );
                        assert(source_edit_outcome(current@, edit@, cell as nat, out));
                    }
                    Ok((Some(text), count))
                },
                Err(e) => {
                    proof {
                        let out = Err::<(Option<Seq<char>>, nat), LineEditFault>(e@);
                        assert(source_edit_outcome(current@, edit@, cell as nat, out));
                    }
                    Err(e)
                },
            }
        },
        SourceEdit::InsertAfter(after, content) => {
            match crate::edit::insert_lines_after(current, after, &content, cell) {
                Ok(text) => {
                    proof {
                        let out = Ok::<(Option<Seq<char>>, nat), LineEditFault>((Some(text@), 0));
                        assert(source_edit_outcome(current@, edit@, cell as nat, out));
                    }
                    Ok((Some(text), 0))
                },
                Err(e) => {
                    proof {
                        let out = Err::<(Option<Seq<char>>, nat), LineEditFault>(e@);
                        assert(source_edit_outcome(current@, edit@, cell as nat, out));
                    }
                    Err(e)
                },
            }
        },
        SourceEdit::InsertBefore(before, content) => {
            match crate::edit::insert_lines_before(current, before, &content, cell) {
                Ok(text) => {
                    proof {
                        let out = Ok::<(Option<Seq<char>>, nat), LineEditFault>((Some(text@), 0));
                        assert(source_edit_outcome(current@, edit@, cell as nat, out));
                    }
                    Ok((Some(text), 0))
                },
                Err(e) => {
                    proof {
                        let out = Err::<(Option<Seq<char>>, nat), LineEditFault>(e@);
                        assert(source_edit_outcome(current@, edit@, cell as nat, out));
                    }
                    Err(e)
                },
            }
        },
        SourceEdit::ReplaceLines(expr, content) => {
            match crate::edit::replace_lines(current, expr.as_str(), &content, cell) {
                Ok(text) => {
                    proof {
                        let out = Ok::<(Option<Seq<char>>, nat), LineEditFault>((Some(text@), 0));
                        assert(source_edit_outcome(current@, edit@, cell as nat, out));
                    }
                    Ok((Some(text), 0))
                },
                Err(e) => {
                    proof {
                        let out = Err::<(Option<Seq<char>>, nat), LineEditFault>(e@);
                        assert(source_edit_outcome(current@, edit@, cell as nat, out));
                    }
                    Err(e)
                },
            }
        },
        SourceEdit::Replace(o) => {
            proof {
                let out = Ok::<(Option<Seq<char>>, nat), LineEditFault>(
                    (
                        match &o {
                            Some(s) => Some(s@),
                            None => None,
                        },
                        0,
                    ),
                );
                assert(source_edit_outcome(current@, edit@, cell as nat, out));
            }
            Ok((o, 0))
        },
    }
}

/// `edit`: changes cell `index` (1-based) as `edit` says, then its type if
/// one is given; returns the number of deleted lines (0 for other edits).
pub fn edit_cell(nb: &mut Notebook, index: usize, edit: SourceEdit, new_type: Option<&str>) -> (r:
    Result<usize, OpError>)
    ensures
        ({
            let cs = old(nb)@.cells;
            if index == 0 || index > cs.len() {
                r matches Err(e) && e@ == OpFault::CellIndexOutOfRange(index as nat, cs.len())
                    && final(nb)@ == old(nb)@
            } else {
                exists|out: Result<(Option<Seq<char>>, nat), LineEditFault>|
                    #[trigger] source_edit_outcome(
                        source_text(cs[index - 1].source),
                        edit@,
                        index as nat,
                        out,
                    ) && match out {
                        Err(f) => r matches Err(e) && e@ == OpFault::LineEdit(f) && final(nb)@
                            == old(nb)@,
                        Ok((src, count)) => r == Ok::<usize, OpError>(count as usize)
                            && final(nb)@ == with_cells(
                            old(nb)@,
                            cs.update(
                                index - 1,
                                with_type(
                                    with_source(cs[index - 1], src),
                                    match new_type {
                                        Some(t) => Some(t@),
                                        None => None,
                                    },
                                ),
                            ),
                        ),
                    }
            }
        }),
{
    let n = nb.cells.len();
    if index == 0 || index > n {
        return Err(OpError::CellIndexOutOfRange { cell: index, cells: n });
    }
    let current = nb.cells[index - 1].source_str();
    let ghost cs = nb@.cells;
    let (src, count) = match apply_source_edit(&current, edit, index) {
        Ok(x) => x,
        Err(e) => {
            return Err(OpError::LineEdit(e));
        },
    };
    if let Some(s) = src {
        nb.cells[index - 1].set_source(s);
    }
    if let Some(t) = new_type {
        crate::ops::change_cell_type(&mut nb.cells[index - 1], t);
    }
    assert(nb@.cells =~= cs.update(index - 1, nb@.cells[index - 1]));
    Ok(count)
}

// ---------------------------------------------------------------------------
// Tool calls
// ---------------------------------------------------------------------------
/// A tool's line edit may name one mode at most; insertion and replacement
/// need a source. `Ok(true)`: a line edit; `Ok(false)`: a whole-cell edit.
pub fn check_line_modes(
    lines_given: bool,
    insert_after_given: bool,
    insert_before_given: bool,
    delete_given: bool,
    source_given: bool,
) -> (r: Result<bool, OpError>)
    ensures
        ({
            let count = (if lines_given {
                1int
            } else {
                0int
            }) + (if insert_after_given {
                1int
            } else {
                0int
            }) + (if insert_before_given {
                1int
            } else {
                0int
            }) + (if delete_given {
                1int
            } else {
                0int
            });
            if count > 1 {
                r matches Err(e) && e@ == OpFault::TooManyLineModes
            } else if count == 1 && !delete_given && !source_given {
                r matches Err(e) && e@ == OpFault::LineModeNeedsSource
            } else {
                r == Ok::<bool, OpError>(count == 1)
            }
        }),
{
    let mut count: usize = 0;
    if lines_given {
        count = count + 1;
    }
    if insert_after_given {
        count = count + 1;
    }
    if insert_before_given {
        count = count + 1;
    }
    if delete_given {
        count = count + 1;
    }
    if count > 1 {
        return Err(OpError::TooManyLineModes);
    }
    if count == 1 && !delete_given && !source_given {
        return Err(OpError::LineModeNeedsSource);
    }
    Ok(count == 1)
}

/// The cell type a tool sets: code cells keep their execution count, other
/// cells lose it and their outputs.
pub open spec fn tool_retyped(c: CellV, t: Seq<char>) -> CellV {
    if t == word_code() {
        CellV { cell_type: t, ..c }
    } else {
        CellV { cell_type: t, outputs: Seq::empty(), execution_count: None, ..c }
    }
}

/// `notebook_edit_cell` without line modes: a new source and/or type for
/// cell `index` (1-based); then every cell gets an id.
pub fn edit_cell_tool(
    nb: &mut Notebook,
    index: usize,
    source: Option<String>,
    cell_type: Option<&str>,
) -> (r: Result<(), OpError>)
    requires
        old(nb)@.cells.len() < usize::MAX / 2,
    ensures
        ({
            let cs = old(nb)@.cells;
            if index == 0 || index > cs.len() {
                r matches Err(e) && e@ == OpFault::CellOutsideRangeOf(index as nat, cs.len())
                    && final(nb)@ == old(nb)@
            } else if source is None && cell_type is None {
                r matches Err(e) && e@ == OpFault::NothingToEdit && final(nb)@ == old(nb)@
            } else if cell_type matches Some(t) && !is_known_type(t@) {
                r matches Err(e) && e@ == OpFault::InvalidCellType && final(nb)@ == old(nb)@
            } else {
                let c1 = with_source(
                    cs[index - 1],
                    match source {
                        Some(s) => Some(s@),
                        None => None,
                    },
                );
                let c2 = match cell_type {
                    Some(t) => tool_retyped(c1, t@),
                    None => c1,
                };
                r is Ok && final(nb)@ == with_cells(old(nb)@, final(nb)@.cells) && ids_ensured(
                    cs.update(index - 1, c2),
                    final(nb)@.cells,
                )
            }
        }),
{
    let n = nb.cells.len();
    if index == 0 || index > n {
        return Err(OpError::CellOutsideRangeOf { cell: index, cells: n });
    }
    if source.is_none() && cell_type.is_none() {
        return Err(OpError::NothingToEdit);
    }
    if let Some(t) = cell_type {
        if !crate::ops::is_known_type_str(t) {
            return Err(OpError::InvalidCellType);
        }
    }
    let ghost cs = nb@.cells;
    if let Some(s) = source {
        nb.cells[index - 1].set_source(s);
    }
    if let Some(t) = cell_type {
        nb.cells[index - 1].cell_type = t.to_owned();
        if !str_equal(t, "code") {
            nb.cells[index - 1].outputs = Vec::new();
            nb.cells[index - 1].execution_count = None;
            assert(nb@.cells[index - 1].outputs =~= Seq::<JsonV>::empty());
        }
        proof {
            reveal_strlit("code");
            assert("code"@ =~= word_code());
        }
    }
    assert(nb@.cells =~= cs.update(index - 1, nb@.cells[index - 1]));
    nb.ensure_cell_ids();
    Ok(())
}

/// `notebook_create_cell`: a new cell of `cell_type` (code, markdown or raw)
/// with `source`, at `at` (1-based, default after the last cell); then every
/// cell gets an id. Returns the position.
pub fn create_cell_tool(nb: &mut Notebook, cell_type: &str, source: String, at: Option<usize>) -> (r:
    Result<usize, OpError>)
    requires
        old(nb)@.cells.len() + 1 < usize::MAX / 2,
    ensures
        ({
            let len = old(nb)@.cells.len();
            let pos = match at {
                Some(n) => n as nat,
                None => len + 1,
            };
            if !is_known_type(cell_type@) {
                r matches Err(e) && e@ == OpFault::InvalidCellType && final(nb)@ == old(nb)@
            } else if pos == 0 || pos > len + 1 {
                r matches Err(e) && e@ == OpFault::AtOutsideRange(pos, len + 1) && final(nb)@
                    == old(nb)@
            } else {
                r == Ok::<usize, OpError>(pos as usize) && final(nb)@ == with_cells(
                    old(nb)@,
                    final(nb)@.cells,
                ) && ids_ensured(
                    old(nb)@.cells.insert(
                        pos - 1,
                        crate::ops::new_cell_view(cell_type@, source@),
                    ),
                    final(nb)@.cells,
                )
            }
        }),
{
    if !crate::ops::is_known_type_str(cell_type) {
        return Err(OpError::InvalidCellType);
    }
    let len = nb.cells.len();
    let pos = match at {
        Some(n) => n,
        None => len + 1,
    };
    if pos == 0 || pos > len + 1 {
        return Err(OpError::AtOutsideRange { at: pos, max: len + 1 });
    }
    let mut cell = Cell::new(cell_type);
    cell.set_source(source);
    let ghost before = nb.cells@;
    nb.cells.insert(pos - 1, cell);
    assert(cells_view(nb.cells@) =~= cells_view(before).insert(pos - 1, cell@));
    nb.ensure_cell_ids();
    Ok(pos)
}

// ---------------------------------------------------------------------------
// info
// ---------------------------------------------------------------------------
/// How many of the cells have type `t`.
pub open spec fn type_count(cs: Seq<CellV>, t: Seq<char>) -> nat
    decreases cs.len(),
{
    if cs.len() == 0 {
        0
    } else {
        type_count(cs.drop_last(), t) + if cs.last().cell_type == t {
            1nat
        } else {
            0nat
        }
    }
}

proof fn lemma_type_count_bound(cs: Seq<CellV>, t: Seq<char>)
    ensures
        type_count(cs, t) <= cs.len(),
    decreases cs.len(),
{
    if cs.len() > 0 {
        lemma_type_count_bound(cs.drop_last(), t);
    }
}

/// The number of cells of type `t`.
pub fn count_cells_of_type(nb: &Notebook, t: &str) -> (r: usize)
    ensures
        r == type_count(nb@.cells, t@),
{
    let ghost cs = nb@.cells;
    let mut count: usize = 0;
    let mut i: usize = 0;
    while i < nb.cells.len()
        invariant
            i <= cs.len(),
            cs == nb@.cells,
            cs.len() == nb.cells@.len(),
            count == type_count(cs.take(i as int), t@),
        decreases nb.cells.len() - i,
    {
        assert(cs.take(i + 1).drop_last() =~= cs.take(i as int));
        proof {
            lemma_type_count_bound(cs.take(i as int), t@);
        }
        if str_equal(nb.cells[i].cell_type.as_str(), t) {
            count = count + 1;
        }
        i = i + 1;
    }
    assert(cs.take(cs.len() as int) =~= cs);
    count
}

/// The number of lines of a cell's source (as `str::lines` counts them).
pub fn line_count(c: &Cell) -> (r: usize)
    ensures
        r == lines(source_text(c@.source)).len(),
{
    let src = c.source_str();
    let cs = crate::text::chars_of(src.as_str());
    let ls = crate::text::lines_of(cs.as_slice());
    ls.len()
}

} // verus!
