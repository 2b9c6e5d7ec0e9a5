//! Line-level edits of a cell's source: delete, insert after/before, and
//! replace a span of lines. Lines are what `str::lines` yields; the result
//! is joined with `\n` and keeps a trailing newline when the source had one.
use crate::selection::{lists_sorted, selection, SelectionError, SelectionFault};
use crate::text::{
    append_chars, append_str, chars_of, decimal, ends_with_nl, join, join_chars, lines,
    lines_of, push_decimal, string_of, views,
};
use vstd::prelude::*;

verus! {

/// Why a line edit was refused.
#[derive(Debug)]
pub enum LineEditError {
    /// `delete_lines` on a cell without lines.
    EmptyCellDelete { cell: usize },
    /// `lines` on a cell without lines.
    EmptyCellTarget { cell: usize },
    InsertAfterOutOfRange { after: usize, cell: usize, lines: usize },
    InsertBeforeOutOfRange { before: usize, cell: usize, lines: usize },
    Selection(SelectionError),
}

/// The mathematical content of a [`LineEditError`].
pub enum LineEditFault {
    EmptyCellDelete(nat),
    EmptyCellTarget(nat),
    InsertAfterOutOfRange(nat, nat, nat),
    InsertBeforeOutOfRange(nat, nat, nat),
    Selection(SelectionFault),
}

impl View for LineEditError {
    type V = LineEditFault;

    open spec fn view(&self) -> LineEditFault {
        match self {
            LineEditError::EmptyCellDelete { cell } => LineEditFault::EmptyCellDelete(*cell as nat),
            LineEditError::EmptyCellTarget { cell } => LineEditFault::EmptyCellTarget(*cell as nat),
            LineEditError::InsertAfterOutOfRange { after, cell, lines } =>
                LineEditFault::InsertAfterOutOfRange(*after as nat, *cell as nat, *lines as nat),
            LineEditError::InsertBeforeOutOfRange { before, cell, lines } =>
                LineEditFault::InsertBeforeOutOfRange(*before as nat, *cell as nat, *lines as nat),
            LineEditError::Selection(e) => LineEditFault::Selection(e@),
        }
    }
}

/// The lines joined with `\n`, with a final `\n` when `keep_nl` holds.
pub open spec fn rejoin(ls: Seq<Seq<char>>, keep_nl: bool) -> Seq<char> {
    if keep_nl {
        join(ls, "\n"@).push('\n')
    } else {
        join(ls, "\n"@)
    }
}

/// The lines whose index is not in `s`.
pub open spec fn unselected_lines(ls: Seq<Seq<char>>, s: Set<nat>) -> Seq<Seq<char>>
    decreases ls.len(),
{
    if ls.len() == 0 {
        Seq::empty()
    } else if s.contains((ls.len() - 1) as nat) {
        unselected_lines(ls.drop_last(), s)
    } else {
        unselected_lines(ls.drop_last(), s).push(ls.last())
    }
}

/// `delete_lines` result: the source without the selected lines.
pub open spec fn deleted_lines_text(src: Seq<char>, s: Set<nat>) -> Seq<char> {
    let joined = join(unselected_lines(lines(src), s), "\n"@);
    if ends_with_nl(src) && joined.len() > 0 {
        joined.push('\n')
    } else {
        joined
    }
}

/// `ls` with `ins` put in place of `ls[a..b]`.
pub open spec fn spliced(ls: Seq<Seq<char>>, a: int, b: int, ins: Seq<Seq<char>>) -> Seq<
    Seq<char>,
> {
    ls.take(a) + ins + ls.skip(b)
}

fn nl() -> (r: Vec<char>)
    ensures
        r@ == "\n"@,
{
    let v = chars_of("\n");
    v
}

/// `ls[..a] ++ ins ++ ls[b..]`.
fn splice_lines(ls: &Vec<Vec<char>>, a: usize, b: usize, ins: &Vec<Vec<char>>) -> (r: Vec<
    Vec<char>,
>)
    requires
        a <= b <= ls@.len(),
    ensures
        views(r@) == spliced(views(ls@), a as int, b as int, views(ins@)),
{
    let mut out: Vec<Vec<char>> = Vec::new();
    let mut i: usize = 0;
    while i < a
        invariant
            i <= a <= b <= ls@.len(),
            views(out@) == views(ls@).take(i as int),
        decreases a - i,
    {
        let ghost old_out = out@;
        let x = crate::text::copy_all(ls[i].as_slice());
        out.push(x);
        proof {
            crate::text::lemma_views_push(old_out, x);
        }
        i = i + 1;
        assert(views(out@) =~= views(ls@).take(i as int));
    }
    let mut j: usize = 0;
    while j < ins.len()
        invariant
            j <= ins@.len(),
            views(out@) == views(ls@).take(a as int) + views(ins@).take(j as int),
        decreases ins.len() - j,
    {
        let ghost old_out = out@;
        let x = crate::text::copy_all(ins[j].as_slice());
        out.push(x);
        proof {
            crate::text::lemma_views_push(old_out, x);
        }
        j = j + 1;
        assert(views(out@) =~= views(ls@).take(a as int) + views(ins@).take(j as int));
    }
    assert(views(ins@).take(ins@.len() as int) =~= views(ins@));
    let mut k: usize = b;
    while k < ls.len()
        invariant
            b <= k <= ls@.len(),
            views(out@) == views(ls@).take(a as int) + views(ins@) + views(ls@).subrange(
                b as int,
                k as int,
            ),
        decreases ls.len() - k,
    {
        let ghost old_out = out@;
        let x = crate::text::copy_all(ls[k].as_slice());
        out.push(x);
        proof {
            crate::text::lemma_views_push(old_out, x);
        }
        k = k + 1;
        assert(views(out@) =~= views(ls@).take(a as int) + views(ins@) + views(ls@).subrange(
            b as int,
            k as int,
        ));
    }
    assert(views(ls@).subrange(b as int, ls@.len() as int) =~= views(ls@).skip(b as int));
    out
}

fn rejoin_exec(ls: &Vec<Vec<char>>, keep_nl: bool) -> (r: String)
    ensures
        r@ == rejoin(views(ls@), keep_nl),
{
    let mut out = join_chars(ls, nl().as_slice());
    if keep_nl {
        out.push('\n');
    }
    string_of(out.as_slice())
}

/// Removes the selected lines (1-based selection syntax) from `current`;
/// returns the new source and how many lines went.
pub fn delete_lines(current: &String, expr: &str, cell: usize) -> (r: Result<
    (String, usize),
    LineEditError,
>)
    ensures
        ({
            let ls = lines(current@);
            if ls.len() == 0 {
                r matches Err(e) && e@ == LineEditFault::EmptyCellDelete(cell as nat)
            } else {
                match selection(expr@, ls.len()) {
                    Err(f) => r matches Err(e) && e@ == LineEditFault::Selection(f),
                    Ok(s) => r matches Ok((text, count)) && text@ == deleted_lines_text(
                        current@,
                        s,
                    ) && exists|picked: Seq<usize>| lists_sorted(picked, s) && count == picked.len(),
                }
            }
        }),
{
    let cur = chars_of(current.as_str());
    let all = lines_of(cur.as_slice());
    if all.len() == 0 {
        return Err(LineEditError::EmptyCellDelete { cell });
    }
    let picked = match crate::selection::resolve(expr, all.len()) {
        Ok(v) => v,
        Err(e) => {
            return Err(LineEditError::Selection(e));
        },
    };
    let ghost s = selection(expr@, all@.len() as nat)->Ok_0;
    let mut kept: Vec<Vec<char>> = Vec::new();
    let mut i: usize = 0;
    while i < all.len()
        invariant
            i <= all@.len(),
            views(all@) == lines(cur@),
            lists_sorted(picked@, s),
            views(kept@) == unselected_lines(views(all@).take(i as int), s),
        decreases all.len() - i,
    {
        assert(views(all@).take(i + 1).drop_last() =~= views(all@).take(i as int));
        let selected = contains_index(&picked, i);
        proof {
            if s.contains(i as nat) {
                let k = choose|k: int| 0 <= k < picked@.len() && picked@[k] == i as nat;
                assert(picked@[k] == i);
            }
        }
        if !selected {
            kept.push(crate::text::copy_all(all[i].as_slice()));
        }
        i = i + 1;
    }
    assert(views(all@).take(all@.len() as int) =~= views(all@));
    let mut joined = join_chars(&kept, nl().as_slice());
    let ends = cur.len() > 0 && cur[cur.len() - 1] == '\n';
    if ends && joined.len() > 0 {
        joined.push('\n');
    }
    Ok((string_of(joined.as_slice()), picked.len()))
}

fn contains_index(v: &Vec<usize>, x: usize) -> (r: bool)
    ensures
        r == v@.contains(x),
{
    let mut i: usize = 0;
    while i < v.len()
        invariant
            i <= v@.len(),
            forall|k: int| 0 <= k < i ==> v@[k] != x,
        decreases v.len() - i,
    {
        if v[i] == x {
            assert(v@[i as int] == x);
            return true;
        }
        i = i + 1;
    }
    false
}

/// Inserts the lines of `content` after line `after` (1-based).
pub fn insert_lines_after(current: &String, after: usize, content: &String, cell: usize) -> (r:
    Result<String, LineEditError>)
    ensures
        ({
            let ls = lines(current@);
            if after == 0 || after > ls.len() {
                r matches Err(e) && e@ == LineEditFault::InsertAfterOutOfRange(
                    after as nat,
                    cell as nat,
                    ls.len(),
                )
            } else {
                r matches Ok(text) && text@ == rejoin(
                    spliced(ls, after as int, after as int, lines(content@)),
                    ends_with_nl(current@),
                )
            }
        }),
{
    let cur = chars_of(current.as_str());
    let all = lines_of(cur.as_slice());
    if after == 0 || after > all.len() {
        return Err(LineEditError::InsertAfterOutOfRange { after, cell, lines: all.len() });
    }
    let ins = lines_of(chars_of(content.as_str()).as_slice());
    let spliced_lines = splice_lines(&all, after, after, &ins);
    let ends = cur.len() > 0 && cur[cur.len() - 1] == '\n';
    Ok(rejoin_exec(&spliced_lines, ends))
}

/// Inserts the lines of `content` before line `before` (1-based).
pub fn insert_lines_before(current: &String, before: usize, content: &String, cell: usize) -> (r:
    Result<String, LineEditError>)
    ensures
        ({
            let ls = lines(current@);
            if before == 0 || before > ls.len() {
                r matches Err(e) && e@ == LineEditFault::InsertBeforeOutOfRange(
                    before as nat,
                    cell as nat,
                    ls.len(),
                )
            } else {
                r matches Ok(text) && text@ == rejoin(
                    spliced(ls, before - 1, before - 1, lines(content@)),
                    ends_with_nl(current@),
                )
            }
        }),
{
    let cur = chars_of(current.as_str());
    let all = lines_of(cur.as_slice());
    if before == 0 || before > all.len() {
        return Err(LineEditError::InsertBeforeOutOfRange { before, cell, lines: all.len() });
    }
    let ins = lines_of(chars_of(content.as_str()).as_slice());
    let spliced_lines = splice_lines(&all, before - 1, before - 1, &ins);
    let ends = cur.len() > 0 && cur[cur.len() - 1] == '\n';
    Ok(rejoin_exec(&spliced_lines, ends))
}

/// Replaces the span from the first to the last selected line with the
/// lines of `content`.
pub fn replace_lines(current: &String, expr: &str, content: &String, cell: usize) -> (r: Result<
    String,
    LineEditError,
>)
    ensures
        ({
            let ls = lines(current@);
            if ls.len() == 0 {
                r matches Err(e) && e@ == LineEditFault::EmptyCellTarget(cell as nat)
            } else {
                match selection(expr@, ls.len()) {
                    Err(f) => r matches Err(e) && e@ == LineEditFault::Selection(f),
                    Ok(s) => r matches Ok(text) && exists|picked: Seq<usize>|
                        lists_sorted(picked, s) && picked.len() > 0 && text@ == rejoin(
                            spliced(ls, picked[0] as int, picked.last() + 1, lines(content@)),
                            ends_with_nl(current@),
                        ),
                }
            }
        }),
{
    let cur = chars_of(current.as_str());
    let all = lines_of(cur.as_slice());
    if all.len() == 0 {
        return Err(LineEditError::EmptyCellTarget { cell });
    }
    let picked = match crate::selection::resolve(expr, all.len()) {
        Ok(v) => v,
        Err(e) => {
            return Err(LineEditError::Selection(e));
        },
    };
    proof {
        let s = selection(expr@, all@.len() as nat)->Ok_0;
        crate::selection::lemma_selection_nonempty(expr@, all@.len() as nat);
        let n = choose|n: nat| s.contains(n);
        assert(exists|i: int| 0 <= i < picked@.len() && picked@[i] == n);
    }
    let first = picked[0];
    let last = picked[picked.len() - 1];
    let ins = lines_of(chars_of(content.as_str()).as_slice());
    let spliced_lines = splice_lines(&all, first, last + 1, &ins);
    let ends = cur.len() > 0 && cur[cur.len() - 1] == '\n';
    Ok(rejoin_exec(&spliced_lines, ends))
}

/// The text the command line shows for a refused line edit.
pub open spec fn line_edit_message(f: LineEditFault) -> Seq<char> {
    match f {
        LineEditFault::EmptyCellDelete(c) => "Cell "@ + decimal(c) + " is empty, cannot delete lines"@,
        LineEditFault::EmptyCellTarget(c) => "Cell "@ + decimal(c) + " is empty, cannot target lines"@,
        LineEditFault::InsertAfterOutOfRange(a, c, n) => "--insert-after "@ + decimal(a)
            + " is out of range (cell "@ + decimal(c) + " has "@ + decimal(n) + " lines)"@,
        LineEditFault::InsertBeforeOutOfRange(b, c, n) => "--insert-before "@ + decimal(b)
            + " is out of range (cell "@ + decimal(c) + " has "@ + decimal(n) + " lines)"@,
        LineEditFault::Selection(s) => crate::selection::fault_message(s),
    }
}

impl LineEditError {
    pub fn message(&self) -> (r: String)
        ensures
            r@ == line_edit_message(self@),
    {
        let mut out: Vec<char> = Vec::new();
        match self {
            LineEditError::EmptyCellDelete { cell } => {
                append_str(&mut out, "Cell ");
                push_decimal(&mut out, *cell);
                append_str(&mut out, " is empty, cannot delete lines");
            },
            LineEditError::EmptyCellTarget { cell } => {
                append_str(&mut out, "Cell ");
                push_decimal(&mut out, *cell);
                append_str(&mut out, " is empty, cannot target lines");
            },
            LineEditError::InsertAfterOutOfRange { after, cell, lines } => {
                append_str(&mut out, "--insert-after ");
                push_decimal(&mut out, *after);
                append_str(&mut out, " is out of range (cell ");
                push_decimal(&mut out, *cell);
                append_str(&mut out, " has ");
                push_decimal(&mut out, *lines);
                append_str(&mut out, " lines)");
            },
            LineEditError::InsertBeforeOutOfRange { before, cell, lines } => {
                append_str(&mut out, "--insert-before ");
                push_decimal(&mut out, *before);
                append_str(&mut out, " is out of range (cell ");
                push_decimal(&mut out, *cell);
                append_str(&mut out, " has ");
                push_decimal(&mut out, *lines);
                append_str(&mut out, " lines)");
            },
            LineEditError::Selection(e) => {
                let m = e.message();
                return m;
            },
        }
        string_of(out.as_slice())
    }
}

} // verus!
