//! What `nbedit read` prints for a cell and its outputs.
use crate::json::{member, member_str, Json, JsonV};
use crate::notebook::{jsons_view, source_text, word_code, Cell, CellV};
use crate::output_limit::multiline_text;
use crate::selection::{selection, SelectionError, SelectionFault};
use crate::text::{
    append_chars, append_str, chars_of, decimal, ends_with_nl, lines, lines_of, push_decimal,
    str_equal, string_of, views,
};
use vstd::prelude::*;

verus! {

/// nbformat's "string or array of strings" as one text; anything else is empty.
pub open spec fn multiline_or_empty(v: JsonV) -> Seq<char> {
    match multiline_text(v) {
        Some(t) => t,
        None => Seq::empty(),
    }
}

pub fn multiline_value_to_string(v: &Json) -> (r: String)
    ensures
        r@ == multiline_or_empty(v@),
{
    match crate::output_limit::multiline_to_string(v) {
        Some(s) => s,
        None => string_of(Vec::<char>::new().as_slice()),
    }
}

/// The first `limit` characters, and a notice when more were dropped.
pub open spec fn truncated_text(value: Seq<char>, max_chars: Option<usize>) -> Seq<char> {
    match max_chars {
        None => value,
        Some(limit) => if value.len() > limit {
            value.take(limit as int) + "\n... output truncated ...\n"@
        } else {
            value
        },
    }
}

/// Keeps at most `max_chars` characters of `value`.
pub fn truncate(value: &str, max_chars: Option<usize>) -> (r: String)
    ensures
        r@ == truncated_text(value@, max_chars),
{
    match max_chars {
        None => string_of(chars_of(value).as_slice()),
        Some(limit) => {
            let chars = chars_of(value);
            if chars.len() > limit {
                let mut out = crate::text::copy_range(chars.as_slice(), 0, limit);
                append_str(&mut out, "\n... output truncated ...\n");
                string_of(out.as_slice())
            } else {
                string_of(chars.as_slice())
            }
        },
    }
}

/// The shown part of a text, followed by a newline unless the whole text
/// already ends with one.
pub open spec fn with_final_nl(shown: Seq<char>, whole: Seq<char>) -> Seq<char> {
    if ends_with_nl(whole) {
        shown
    } else {
        shown.push('\n')
    }
}

/// What `read` prints for one output.
pub open spec fn output_display(o: JsonV, max_chars: Option<usize>) -> Seq<char> {
    let ot = match member_str(o, "output_type"@) {
        Some(t) => t,
        None => "unknown"@,
    };
    if ot == "stream"@ {
        let text = match member(o, "text"@) {
            Some(v) => multiline_or_empty(v),
            None => Seq::empty(),
        };
        with_final_nl(truncated_text(text, max_chars), text)
    } else if ot == "display_data"@ || ot == "execute_result"@ {
        match member(o, "data"@) {
            Some(d) => match member(d, "text/plain"@) {
                Some(v) => {
                    let s = multiline_or_empty(v);
                    with_final_nl(truncated_text(s, max_chars), s)
                },
                None => Seq::empty(),
            },
            None => Seq::empty(),
        }
    } else if ot == "error"@ {
        let ename = match member_str(o, "ename"@) {
            Some(t) => t,
            None => Seq::empty(),
        };
        let evalue = match member_str(o, "evalue"@) {
            Some(t) => t,
            None => Seq::empty(),
        };
        truncated_text(ename + ": "@ + evalue, max_chars).push('\n')
    } else {
        "[output type: "@ + ot + "]\n"@
    }
}

fn push_with_final_nl(out: &mut Vec<char>, shown: &String, whole: &String)
    ensures
        final(out)@ == old(out)@ + with_final_nl(shown@, whole@),
{
    append_str(out, shown.as_str());
    let o = chars_of(whole.as_str());
    if !(o.len() > 0 && o[o.len() - 1] == '\n') {
        out.push('\n');
    }
}

/// Appends what `read` prints for one output.
pub fn push_output_display(out: &mut Vec<char>, output: &Json, max_chars: Option<usize>)
    ensures
        final(out)@ == old(out)@ + output_display(output@, max_chars),
{
    let ot: Vec<char> = match output.get_str("output_type") {
        Some(t) => chars_of(t.as_str()),
        None => chars_of("unknown"),
    };
    if crate::text::chars_eq(ot.as_slice(), chars_of("stream").as_slice()) {
        let text = match output.get("text") {
            Some(v) => multiline_value_to_string(v),
            None => string_of(Vec::<char>::new().as_slice()),
        };
        let shown = truncate(text.as_str(), max_chars);
        push_with_final_nl(out, &shown, &text);
    } else if crate::text::chars_eq(ot.as_slice(), chars_of("display_data").as_slice())
        || crate::text::chars_eq(ot.as_slice(), chars_of("execute_result").as_slice()) {
        match output.get("data") {
            Some(d) => match d.get("text/plain") {
                Some(v) => {
                    let s = multiline_value_to_string(v);
                    let shown = truncate(s.as_str(), max_chars);
                    push_with_final_nl(out, &shown, &s);
                },
                None => {
                    assert(old(out)@ + Seq::<char>::empty() =~= old(out)@);
                },
            },
            None => {
                assert(old(out)@ + Seq::<char>::empty() =~= old(out)@);
            },
        }
    } else if crate::text::chars_eq(ot.as_slice(), chars_of("error").as_slice()) {
        let mut line: Vec<char> = match output.get_str("ename") {
            Some(t) => chars_of(t.as_str()),
            None => Vec::new(),
        };
        append_str(&mut line, ": ");
        match output.get_str("evalue") {
            Some(t) => append_str(&mut line, t.as_str()),
            None => {},
        }
        let line = string_of(line.as_slice());
        let shown = truncate(line.as_str(), max_chars);
        append_str(out, shown.as_str());
        out.push('\n');
    } else {
        append_str(out, "[output type: ");
        append_chars(out, ot.as_slice());
        append_str(out, "]\n");
    }
}

/// What `read` prints for a whole list of outputs.
pub open spec fn outputs_display(outs: Seq<JsonV>, max_chars: Option<usize>) -> Seq<char>
    decreases outs.len(),
{
    if outs.len() == 0 {
        Seq::empty()
    } else {
        outputs_display(outs.drop_last(), max_chars) + output_display(outs.last(), max_chars)
    }
}

fn push_outputs_display(out: &mut Vec<char>, outputs: &Vec<Json>, max_chars: Option<usize>)
    ensures
        final(out)@ == old(out)@ + outputs_display(jsons_view(outputs@), max_chars),
{
    let ghost ov = jsons_view(outputs@);
    let mut i: usize = 0;
    while i < outputs.len()
        invariant
            i <= outputs@.len(),
            ov == jsons_view(outputs@),
            out@ == old(out)@ + outputs_display(ov.take(i as int), max_chars),
        decreases outputs.len() - i,
    {
        assert(ov.take(i + 1).drop_last() =~= ov.take(i as int));
        assert(ov.take(i + 1).last() == outputs@[i as int]@);
        push_output_display(out, &outputs[i], max_chars);
        i = i + 1;
    }
    assert(ov.take(outputs@.len() as int) =~= ov);
}

/// `n` right-aligned in a field of four characters.
pub open spec fn pad4(n: nat) -> Seq<char> {
    let d = decimal(n);
    if d.len() >= 4 {
        d
    } else {
        Seq::new((4 - d.len()) as nat, |i: int| ' ') + d
    }
}

fn push_pad4(out: &mut Vec<char>, n: usize)
    ensures
        final(out)@ == old(out)@ + pad4(n as nat),
{
    let d = crate::text::decimal_chars(n);
    let mut k = d.len();
    let ghost start = out@;
    while k < 4
        invariant
            d@ == decimal(n as nat),
            d@.len() <= k <= 4 || (k == d@.len() && k >= 4),
            out@ == start + Seq::new((k - d@.len()) as nat, |i: int| ' '),
        decreases 4 - k,
    {
        out.push(' ');
        k = k + 1;
        assert(out@ =~= start + Seq::new((k - d@.len()) as nat, |i: int| ' '));
    }
    append_chars(out, d.as_slice());
    proof {
        if d@.len() >= 4 {
            assert(out@ =~= start + d@);
        } else {
            assert(out@ =~= start + (Seq::new((4 - d@.len()) as nat, |i: int| ' ') + d@));
        }
    }
}

/// The lines of a cell chosen by a line selection, numbered as `read --lines` prints them.
pub open spec fn numbered_lines(ls: Seq<Seq<char>>, picked: Seq<usize>) -> Seq<char>
    decreases picked.len(),
{
    if picked.len() == 0 {
        Seq::empty()
    } else {
        let li = picked.last() as int;
        numbered_lines(ls, picked.drop_last()) + pad4((li + 1) as nat) + "  "@ + ls[li] + "\n"@
    }
}

pub open spec fn opt_text(o: Option<String>) -> Option<Seq<char>> {
    match o {
        Some(l) => Some(l@),
        None => None,
    }
}

/// How `read` shows one cell.
pub struct ReadOptions {
    pub show_outputs: bool,
    pub only_outputs: bool,
    pub max_output_chars: Option<usize>,
    pub lines: Option<String>,
}

/// What `read` prints for the cell at 0-based `index`; a line selection is
/// resolved against the cell's own lines.
pub open spec fn cell_display_ok(
    c: CellV,
    index: nat,
    show_outputs: bool,
    only_outputs: bool,
    max_chars: Option<usize>,
    lines_expr: Option<Seq<char>>,
    picked: Seq<usize>,
) -> Seq<char> {
    let header = "[Cell "@ + decimal(index + 1) + " | "@ + c.cell_type + "]\n"@;
    let src = source_text(c.source);
    let body = if only_outputs {
        if c.cell_type == word_code() && c.outputs.len() > 0 {
            outputs_display(c.outputs, max_chars)
        } else {
            "<no outputs>\n"@
        }
    } else if lines_expr is Some {
        if lines(src).len() == 0 {
            "<empty cell>\n"@
        } else {
            numbered_lines(lines(src), picked)
        }
    } else {
        with_final_nl(src, src) + (if show_outputs && c.cell_type == word_code()
            && c.outputs.len() > 0 {
            "--- outputs ---\n"@ + outputs_display(c.outputs, max_chars)
        } else {
            Seq::empty()
        })
    };
    header + body + "\n"@
}

/// Whether a line selection, if any, is needed and resolvable for this cell.
pub open spec fn cell_lines_selection(c: CellV, only_outputs: bool, lines_expr: Option<Seq<char>>) -> Option<Result<Set<nat>, SelectionFault>> {
    if !only_outputs && lines_expr is Some && lines(source_text(c.source)).len() > 0 {
        Some(selection(lines_expr->Some_0, lines(source_text(c.source)).len()))
    } else {
        None
    }
}

/// The text `nbedit read` prints for the cell at 0-based `index`.
pub fn cell_display(cell: &Cell, index: usize, opts: &ReadOptions) -> (r: Result<
    String,
    SelectionError,
>)
    requires
        index < usize::MAX,
    ensures
        match cell_lines_selection(
            cell@,
            opts.only_outputs,
            opt_text(opts.lines),
        ) {
            Some(Err(f)) => r matches Err(e) && e@ == f,
            Some(Ok(s)) => r matches Ok(text) && exists|picked: Seq<usize>|
                crate::selection::lists_sorted(picked, s) && text@ == cell_display_ok(
                    cell@,
                    index as nat,
                    opts.show_outputs,
                    opts.only_outputs,
                    opts.max_output_chars,
                    opt_text(opts.lines),
                    picked,
                ),
            None => r matches Ok(text) && text@ == cell_display_ok(
                cell@,
                index as nat,
                opts.show_outputs,
                opts.only_outputs,
                opts.max_output_chars,
                opt_text(opts.lines),
                Seq::empty(),
            ),
        },
{
    let ghost le = opt_text(opts.lines);
    let mut out: Vec<char> = Vec::new();
    append_str(&mut out, "[Cell ");
    push_decimal(&mut out, index + 1);
    append_str(&mut out, " | ");
    append_str(&mut out, cell.cell_type.as_str());
    append_str(&mut out, "]\n");
    let ghost header = out@;
    let is_code = cell.is_code();
    let source = cell.source_str();
    let ghost mut picked: Seq<usize> = Seq::empty();
    if opts.only_outputs {
        if is_code && cell.outputs.len() > 0 {
            push_outputs_display(&mut out, &cell.outputs, opts.max_output_chars);
        } else {
            append_str(&mut out, "<no outputs>\n");
        }
    } else if opts.lines.is_some() {
        let all_lines = lines_of(chars_of(source.as_str()).as_slice());
        if all_lines.len() == 0 {
            append_str(&mut out, "<empty cell>\n");
        } else {
            let expr = match &opts.lines {
                Some(l) => l,
                None => {
                    assert(false);
                    return Err(SelectionError::NoCells);
                },
            };
            let chosen = crate::selection::resolve(expr.as_str(), all_lines.len())?;
            proof {
                picked = chosen@;
            }
            let ghost before = out@;
            let mut i: usize = 0;
            while i < chosen.len()
                invariant
                    i <= chosen@.len(),
                    views(all_lines@) == lines(source@),
                    forall|k: int| 0 <= k < chosen@.len() ==> #[trigger] chosen@[k] < all_lines@.len(),
                    out@ == before + numbered_lines(views(all_lines@), chosen@.take(i as int)),
                decreases chosen.len() - i,
            {
                assert(chosen@.take(i + 1).drop_last() =~= chosen@.take(i as int));
                let li = chosen[i];
                assert(li < all_lines.len());
                push_pad4(&mut out, li + 1);
                append_str(&mut out, "  ");
                append_chars(&mut out, all_lines[li].as_slice());
                append_str(&mut out, "\n");
                i = i + 1;
            }
            assert(chosen@.take(chosen@.len() as int) =~= chosen@);
        }
    } else {
        push_with_final_nl(&mut out, &source, &source);
        if opts.show_outputs && is_code && cell.outputs.len() > 0 {
            append_str(&mut out, "--- outputs ---\n");
            push_outputs_display(&mut out, &cell.outputs, opts.max_output_chars);
        }
    }
    append_str(&mut out, "\n");
    proof {
        assert(out@ =~= cell_display_ok(
            cell@,
            index as nat,
            opts.show_outputs,
            opts.only_outputs,
            opts.max_output_chars,
            le,
            picked,
        ));
    }
    Ok(string_of(out.as_slice()))
}

/// `notebook_read` with `lines`: the selected lines of the cell, numbered
/// from 1 (none for an empty cell).
pub fn selected_source_lines(cell: &Cell, expr: &str) -> (r: Result<
    Vec<(usize, String)>,
    SelectionError,
>)
    ensures
        ({
            let ls = crate::text::lines(source_text(cell@.source));
            if ls.len() == 0 {
                r matches Ok(v) && v@.len() == 0
            } else {
                match crate::selection::selection(expr@, ls.len()) {
                    Err(f) => r matches Err(e) && e@ == f,
                    Ok(s) => r matches Ok(v) && exists|picked: Seq<usize>|
                        crate::selection::lists_sorted(picked, s) && v@.map_values(
                            |l: (usize, String)| (l.0 as nat, l.1@),
                        ) == picked.map_values(|k: usize| ((k + 1) as nat, ls[k as int])),
                }
            }
        }),
{
    let src = cell.source_str();
    let cs = crate::text::chars_of(src.as_str());
    let ls = crate::text::lines_of(cs.as_slice());
    if ls.len() == 0 {
        return Ok(Vec::new());
    }
    let picked = match crate::selection::resolve(expr, ls.len()) {
        Ok(v) => v,
        Err(e) => {
            return Err(e);
        },
    };
    let ghost lv = crate::text::views(ls@);
    let n = ls.len();
    let mut out: Vec<(usize, String)> = Vec::new();
    let mut i: usize = 0;
    while i < picked.len()
        invariant
            n == ls@.len(),
            i <= picked@.len(),
            lv == crate::text::views(ls@),
            lv == crate::text::lines(source_text(cell@.source)),
            forall|k: int| 0 <= k < picked@.len() ==> #[trigger] picked@[k] < ls@.len(),
            out@.map_values(|l: (usize, String)| (l.0 as nat, l.1@)) == picked@.take(
                i as int,
            ).map_values(|k: usize| ((k + 1) as nat, lv[k as int])),
        decreases picked.len() - i,
    {
        let k = picked[i];
        let ghost before = out@.map_values(|l: (usize, String)| (l.0 as nat, l.1@));
        out.push((k + 1, string_of(ls[k].as_slice())));
        proof {
            assert(lv[k as int] == ls@[k as int]@);
            assert(out@.map_values(|l: (usize, String)| (l.0 as nat, l.1@)) =~= before.push(
                ((k + 1) as nat, lv[k as int]),
            ));
            assert(picked@.take(i + 1).map_values(|k: usize| ((k + 1) as nat, lv[k as int]))
                =~= picked@.take(i as int).map_values(
                |k: usize| ((k + 1) as nat, lv[k as int]),
            ).push(((k + 1) as nat, lv[k as int])));
        }
        i = i + 1;
    }
    assert(picked@.take(picked@.len() as int) =~= picked@);
    Ok(out)
}

// ---------------------------------------------------------------------------
// What is shown of each kind of output
// ---------------------------------------------------------------------------
/// A text as `read` prints it: at most `max_chars` characters (with a notice
/// when more were dropped), then a line end unless the text ends with one.
pub open spec fn printed_text(s: Seq<char>, max_chars: Option<usize>) -> Seq<char> {
    let shown = match max_chars {
        Some(limit) => if s.len() > limit {
            s.take(limit as int) + "\n... output truncated ...\n"@
        } else {
            s
        },
        None => s,
    };
    if s.len() > 0 && s[s.len() - 1] == '\n' {
        shown
    } else {
        shown + seq!['\n']
    }
}

proof fn lemma_output_words_distinct()
    ensures
        "stream"@ != "display_data"@,
        "stream"@ != "execute_result"@,
        "stream"@ != "error"@,
        "error"@ != "display_data"@,
        "error"@ != "execute_result"@,
{
    reveal_strlit("stream");
    reveal_strlit("error");
    reveal_strlit("display_data");
    reveal_strlit("execute_result");
    assert("stream"@.len() != "display_data"@.len());
    assert("stream"@.len() != "execute_result"@.len());
    assert("stream"@.len() != "error"@.len());
    assert("error"@.len() != "display_data"@.len());
    assert("error"@.len() != "execute_result"@.len());
}

/// What `read` prints for each kind of output. A stream prints its text; a
/// display or an execution result prints its `text/plain` (nothing when it
/// has none), the two alike; an error prints `ename: evalue` on one line.
/// Each is cut to `max_chars` characters.
pub proof fn lemma_output_display_by_type(o: JsonV, max_chars: Option<usize>)
    ensures
        member_str(o, "output_type"@) == Some("stream"@) ==> output_display(o, max_chars)
            == printed_text(
            match member(o, "text"@) {
                Some(v) => multiline_or_empty(v),
                None => Seq::empty(),
            },
            max_chars,
        ),
        member_str(o, "output_type"@) == Some("display_data"@) || member_str(o, "output_type"@)
            == Some("execute_result"@) ==> output_display(o, max_chars) == match member(
            o,
            "data"@,
        ) {
            Some(d) => match member(d, "text/plain"@) {
                Some(v) => printed_text(multiline_or_empty(v), max_chars),
                None => Seq::<char>::empty(),
            },
            None => Seq::<char>::empty(),
        },
        member_str(o, "output_type"@) == Some("error"@) ==> {
            let line = match member_str(o, "ename"@) {
                Some(t) => t,
                None => Seq::empty(),
            } + ": "@ + match member_str(o, "evalue"@) {
                Some(t) => t,
                None => Seq::empty(),
            };
            output_display(o, max_chars) == match max_chars {
                Some(limit) => if line.len() > limit {
                    line.take(limit as int) + "\n... output truncated ...\n"@
                } else {
                    line
                },
                None => line,
            } + seq!['\n']
        },
{
    lemma_output_words_distinct();
    let ot = member_str(o, "output_type"@);
    if ot == Some("stream"@) || ot == Some("display_data"@) || ot == Some("execute_result"@) {
        let text = if ot == Some("stream"@) {
            match member(o, "text"@) {
                Some(v) => multiline_or_empty(v),
                None => Seq::empty(),
            }
        } else {
            match member(o, "data"@) {
                Some(d) => match member(d, "text/plain"@) {
                    Some(v) => multiline_or_empty(v),
                    None => Seq::empty(),
                },
                None => Seq::empty(),
            }
        };
        assert(with_final_nl(truncated_text(text, max_chars), text) =~= printed_text(
            text,
            max_chars,
        ));
    }
    if ot == Some("error"@) {
        let line = match member_str(o, "ename"@) {
            Some(t) => t,
            None => Seq::empty(),
        } + ": "@ + match member_str(o, "evalue"@) {
            Some(t) => t,
            None => Seq::empty(),
        };
        assert(truncated_text(line, max_chars).push('\n') =~= match max_chars {
            Some(limit) => if line.len() > limit {
                line.take(limit as int) + "\n... output truncated ...\n"@
            } else {
                line
            },
            None => line,
        } + seq!['\n']);
    }
}

} // verus!
