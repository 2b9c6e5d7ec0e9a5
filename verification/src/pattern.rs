//! Regular-expression search, replacement and queries over a notebook. The
//! matching itself is the `regex` crate's; what it answers is named here by
//! the pattern text and the text searched.
use crate::json::{json_compact_text, json_text, json_view, Json, JsonV};
use crate::notebook::{
    cells_view, copy_jsons, copy_opt_string, jsons_view, opt_string_view, source_text, Cell, CellV,
    Notebook, NotebookV,
};
use crate::ops::with_cells;
use crate::selection::{lists_sorted, SelectionError, SelectionFault};
use crate::text::{
    append_chars, append_str, chars_of, decimal, lines, lines_of, pad_left, push_decimal,
    push_pad_left, str_equal, string_of, views,
};
use vstd::prelude::*;

verus! {

/// The compiled regular expression of the `regex` crate, carried opaquely.
#[verifier::external_type_specification]
#[verifier::external_body]
pub struct ExRegex(regex::Regex);

/// The error `regex::Regex::new` gives for a pattern it refuses, carried
/// opaquely.
#[verifier::external_type_specification]
#[verifier::external_body]
pub struct ExRegexError(regex::Error);

/// Whether `regex::Regex::new` accepts the pattern.
pub uninterp spec fn regex_compiles(pattern: Seq<char>) -> bool;

/// Whether the regex compiled from `pattern` matches somewhere in `text`.
pub uninterp spec fn regex_is_match(pattern: Seq<char>, text: Seq<char>) -> bool;

/// `replace_all`: `text` with every match of `pattern` replaced by
/// `replacement` (with `$name` / `$1` expanded).
pub uninterp spec fn regex_replaced(pattern: Seq<char>, text: Seq<char>, replacement: Seq<char>) -> Seq<char>;

/// The number of non-overlapping matches of `pattern` in `text`.
pub uninterp spec fn regex_match_count(pattern: Seq<char>, text: Seq<char>) -> nat;

/// `regex::Regex::new`: claimed to succeed exactly when `regex_compiles`
/// holds of the pattern text.
#[verifier::external_body]
fn regex_new(pattern: &str) -> (r: Result<regex::Regex, regex::Error>)
    ensures
        r is Ok <==> regex_compiles(pattern@),
{
    regex::Regex::new(pattern)
}

/// The text of a `regex::Error` (its `Display`): what is wrong with the
/// pattern and where. Nothing is stated of it.
#[verifier::external_body]
fn regex_error_text(e: &regex::Error) -> (r: String) {
    e.to_string()
}

/// A compiled regular expression together with the pattern text it was
/// compiled from.
#[derive(Debug)]
pub struct Pattern {
    regex: regex::Regex,
    source: String,
}

impl View for Pattern {
    type V = Seq<char>;

    /// The pattern text the regex was compiled from.
    closed spec fn view(&self) -> Seq<char> {
        self.source@
    }
}

/// `regex::Regex::is_match`: claimed to answer, for the regex compiled from
/// the pattern text, the name `regex_is_match` of that text and `text`.
#[verifier::external_body]
fn regex_matches(p: &Pattern, text: &str) -> (r: bool)
    ensures
        r == regex_is_match(p@, text@),
{
    p.regex.is_match(text)
}

/// `regex::Regex::replace_all`, made an owned string: claimed to be the
/// name `regex_replaced` of the pattern text, `text` and `replacement`.
#[verifier::external_body]
fn regex_replace_all(p: &Pattern, text: &str, replacement: &str) -> (r: String)
    ensures
        r@ == regex_replaced(p@, text@, replacement@),
{
    p.regex.replace_all(text, replacement).into_owned()
}

/// `regex::Regex::find_iter(..).count()`: claimed to be the name
/// `regex_match_count` of the pattern text and `text`.
#[verifier::external_body]
fn regex_count(p: &Pattern, text: &str) -> (r: usize)
    ensures
        r as nat == regex_match_count(p@, text@),
{
    p.regex.find_iter(text).count()
}

impl Pattern {
    /// Whether the pattern matches somewhere in `text`.
    pub fn is_match(&self, text: &str) -> (r: bool)
        ensures
            r == regex_is_match(self@, text@),
    {
        regex_matches(self, text)
    }

    /// `text` with every match replaced by `replacement`.
    pub fn replace_all(&self, text: &str, replacement: &str) -> (r: String)
        ensures
            r@ == regex_replaced(self@, text@, replacement@),
    {
        regex_replace_all(self, text, replacement)
    }

    /// The number of matches in `text`.
    pub fn match_count(&self, text: &str) -> (r: usize)
        ensures
            r as nat == regex_match_count(self@, text@),
    {
        regex_count(self, text)
    }

    /// The pattern text.
    pub fn as_str(&self) -> (r: &str)
        ensures
            r@ == self@,
    {
        self.source.as_str()
    }
}

/// A pattern that does not compile, with what the regex parser said.
#[derive(Debug)]
pub struct PatternError {
    pub pattern: String,
    pub detail: String,
}

impl PatternError {
    /// `Invalid regex pattern: '{pattern}': {detail}`.
    pub fn message(&self) -> (r: String)
        ensures
            r@ == "Invalid regex pattern: '"@ + self.pattern@ + "': "@ + self.detail@,
    {
        let mut out = chars_of("Invalid regex pattern: '");
        append_str(&mut out, self.pattern.as_str());
        append_str(&mut out, "': ");
        append_str(&mut out, self.detail.as_str());
        string_of(out.as_slice())
    }
}

/// The pattern actually compiled: with `(?i)` in front for a
/// case-insensitive search.
pub open spec fn effective_pattern(pattern: Seq<char>, ignore_case: bool) -> Seq<char> {
    if ignore_case {
        "(?i)"@ + pattern
    } else {
        pattern
    }
}

/// Compiles `pattern` (case-insensitively with `ignore_case`).
pub fn build_regex(pattern: &str, ignore_case: bool) -> (r: Result<Pattern, PatternError>)
    ensures
        match r {
            Ok(p) => p@ == effective_pattern(pattern@, ignore_case) && regex_compiles(p@),
            Err(e) => !regex_compiles(effective_pattern(pattern@, ignore_case)) && e.pattern@
                == pattern@,
        },
{
    let source = if ignore_case {
        let mut cs = chars_of("(?i)");
        append_str(&mut cs, pattern);
        string_of(cs.as_slice())
    } else {
        pattern.to_owned()
    };
    match regex_new(source.as_str()) {
        Ok(regex) => Ok(Pattern { regex, source }),
        Err(e) => Err(PatternError { pattern: pattern.to_owned(), detail: regex_error_text(&e) }),
    }
}

// ---------------------------------------------------------------------------
// search
// ---------------------------------------------------------------------------
/// Cell `c` passes the type filter.
pub open spec fn type_passes(c: CellV, type_filter: Option<Seq<char>>) -> bool {
    match type_filter {
        Some(t) => c.cell_type == t,
        None => true,
    }
}

/// The 1-based numbers and texts of the lines of `ls` that match, in order.
pub open spec fn matching_lines(pattern: Seq<char>, ls: Seq<Seq<char>>) -> Seq<(nat, Seq<char>)>
    decreases ls.len(),
{
    if ls.len() == 0 {
        Seq::empty()
    } else if regex_is_match(pattern, ls.last()) {
        matching_lines(pattern, ls.drop_last()).push((ls.len(), ls.last()))
    } else {
        matching_lines(pattern, ls.drop_last())
    }
}

/// The cells with matching lines: 1-based cell number and the matches.
pub open spec fn search_hits(
    pattern: Seq<char>,
    cs: Seq<CellV>,
    type_filter: Option<Seq<char>>,
) -> Seq<(nat, Seq<(nat, Seq<char>)>)>
    decreases cs.len(),
{
    if cs.len() == 0 {
        Seq::empty()
    } else {
        let c = cs.last();
        let m = matching_lines(pattern, lines(source_text(c.source)));
        if type_passes(c, type_filter) && m.len() > 0 {
            search_hits(pattern, cs.drop_last(), type_filter).push((cs.len(), m))
        } else {
            search_hits(pattern, cs.drop_last(), type_filter)
        }
    }
}

/// One cell with matching lines.
pub struct SearchHit {
    /// The 1-based cell number.
    pub index: usize,
    /// The 1-based line numbers and texts of the matching lines.
    pub lines: Vec<(usize, String)>,
}

pub open spec fn hit_view(h: SearchHit) -> (nat, Seq<(nat, Seq<char>)>) {
    (h.index as nat, h.lines@.map_values(|l: (usize, String)| (l.0 as nat, l.1@)))
}

fn matching_lines_of(p: &Pattern, ls: &Vec<Vec<char>>) -> (r: Vec<(usize, String)>)
    ensures
        r@.map_values(|l: (usize, String)| (l.0 as nat, l.1@)) == matching_lines(p@, views(ls@)),
{
    let ghost lv = views(ls@);
    let mut out: Vec<(usize, String)> = Vec::new();
    let mut i: usize = 0;
    while i < ls.len()
        invariant
            i <= ls@.len(),
            lv == views(ls@),
            out@.map_values(|l: (usize, String)| (l.0 as nat, l.1@)) == matching_lines(
                p@,
                lv.take(i as int),
            ),
        decreases ls.len() - i,
    {
        assert(lv.take(i + 1).drop_last() =~= lv.take(i as int));
        assert(lv.take(i + 1).last() == ls@[i as int]@);
        let text = string_of(ls[i].as_slice());
        if p.is_match(text.as_str()) {
            let ghost before = out@.map_values(|l: (usize, String)| (l.0 as nat, l.1@));
            out.push((i + 1, text));
            assert(out@.map_values(|l: (usize, String)| (l.0 as nat, l.1@)) =~= before.push(
                ((i + 1) as nat, ls@[i as int]@),
            ));
        }
        i = i + 1;
    }
    assert(lv.take(lv.len() as int) =~= lv);
    out
}

fn passes(c: &Cell, type_filter: Option<&str>) -> (r: bool)
    ensures
        r == type_passes(
            c@,
            match type_filter {
                Some(t) => Some(t@),
                None => None,
            },
        ),
{
    match type_filter {
        Some(t) => str_equal(c.cell_type.as_str(), t),
        None => true,
    }
}

/// `search`: the cells (of the given type) with lines that match.
pub fn search_notebook(nb: &Notebook, p: &Pattern, type_filter: Option<&str>) -> (r: Vec<
    SearchHit,
>)
    ensures
        r@.map_values(|h: SearchHit| hit_view(h)) == search_hits(
            p@,
            nb@.cells,
            match type_filter {
                Some(t) => Some(t@),
                None => None,
            },
        ),
{
    let ghost tf = match type_filter {
        Some(t) => Some(t@),
        None => None::<Seq<char>>,
    };
    let ghost cs = nb@.cells;
    let mut out: Vec<SearchHit> = Vec::new();
    let mut i: usize = 0;
    while i < nb.cells.len()
        invariant
            i <= cs.len(),
            cs == nb@.cells,
            cs.len() == nb.cells@.len(),
            tf == match type_filter {
                Some(t) => Some(t@),
                None => None::<Seq<char>>,
            },
            out@.map_values(|h: SearchHit| hit_view(h)) == search_hits(p@, cs.take(i as int), tf),
        decreases nb.cells.len() - i,
    {
        assert(cs.take(i + 1).drop_last() =~= cs.take(i as int));
        assert(cs.take(i + 1).last() == cs[i as int]);
        let cell = &nb.cells[i];
        let src = cell.source_str();
        let cv = chars_of(src.as_str());
        let ls = lines_of(cv.as_slice());
        let m = matching_lines_of(p, &ls);
        if passes(cell, type_filter) && m.len() > 0 {
            let ghost before = out@.map_values(|h: SearchHit| hit_view(h));
            let hit = SearchHit { index: i + 1, lines: m };
            let ghost hv = hit_view(hit);
            out.push(hit);
            assert(out@.map_values(|h: SearchHit| hit_view(h)) =~= before.push(hv));
        }
        i = i + 1;
    }
    assert(cs.take(cs.len() as int) =~= cs);
    out
}

/// The total number of matching lines.
pub open spec fn hit_line_count(hits: Seq<(nat, Seq<(nat, Seq<char>)>)>) -> nat
    decreases hits.len(),
{
    if hits.len() == 0 {
        0
    } else {
        hit_line_count(hits.drop_last()) + hits.last().1.len()
    }
}

pub fn match_count(hits: &Vec<SearchHit>) -> (r: usize)
    requires
        hit_line_count(hits@.map_values(|h: SearchHit| hit_view(h))) <= usize::MAX,
    ensures
        r == hit_line_count(hits@.map_values(|h: SearchHit| hit_view(h))),
{
    let ghost hv = hits@.map_values(|h: SearchHit| hit_view(h));
    let mut total: usize = 0;
    let mut i: usize = 0;
    while i < hits.len()
        invariant
            i <= hits@.len(),
            hv == hits@.map_values(|h: SearchHit| hit_view(h)),
            hit_line_count(hv) <= usize::MAX,
            total == hit_line_count(hv.take(i as int)),
        decreases hits.len() - i,
    {
        assert(hv.take(i + 1).drop_last() =~= hv.take(i as int));
        proof {
            lemma_hit_count_prefix(hv, i + 1);
        }
        total = total + hits[i].lines.len();
        i = i + 1;
    }
    assert(hv.take(hv.len() as int) =~= hv);
    total
}

proof fn lemma_hit_count_prefix(hv: Seq<(nat, Seq<(nat, Seq<char>)>)>, n: int)
    requires
        0 <= n <= hv.len(),
    ensures
        hit_line_count(hv.take(n)) <= hit_line_count(hv),
    decreases hv.len() - n,
{
    if n < hv.len() {
        assert(hv.take(n + 1).drop_last() =~= hv.take(n));
        lemma_hit_count_prefix(hv, n + 1);
    } else {
        assert(hv.take(n) =~= hv);
    }
}

// ---------------------------------------------------------------------------
// replace
// ---------------------------------------------------------------------------
/// One cell that `replace` changes.
pub struct Replacement {
    /// The 0-based cell position.
    pub index: usize,
    /// The number of matches replaced.
    pub count: usize,
    pub old_source: String,
    pub new_source: String,
}

/// The selected cells (of the given type) that the replacement changes.
pub open spec fn replacements(
    pattern: Seq<char>,
    cs: Seq<CellV>,
    indices: Seq<usize>,
    replacement: Seq<char>,
    type_filter: Option<Seq<char>>,
) -> Seq<(usize, nat, Seq<char>, Seq<char>)>
    decreases indices.len(),
{
    if indices.len() == 0 {
        Seq::empty()
    } else {
        let i = indices.last();
        let c = cs[i as int];
        let old = source_text(c.source);
        let new = regex_replaced(pattern, old, replacement);
        let rest = replacements(pattern, cs, indices.drop_last(), replacement, type_filter);
        if type_passes(c, type_filter) && new != old {
            rest.push((i, regex_match_count(pattern, old), old, new))
        } else {
            rest
        }
    }
}

pub open spec fn replacement_view(r: Replacement) -> (usize, nat, Seq<char>, Seq<char>) {
    (r.index, r.count as nat, r.old_source@, r.new_source@)
}

/// `replace` (before writing): the selected cells whose source changes,
/// with the number of matches in each.
pub fn plan_replacements(
    nb: &Notebook,
    indices: &Vec<usize>,
    p: &Pattern,
    replacement: &str,
    type_filter: Option<&str>,
) -> (r: Vec<Replacement>)
    requires
        forall|k: int| 0 <= k < indices@.len() ==> #[trigger] indices@[k] < nb@.cells.len(),
    ensures
        r@.map_values(|x: Replacement| replacement_view(x)) == replacements(
            p@,
            nb@.cells,
            indices@,
            replacement@,
            match type_filter {
                Some(t) => Some(t@),
                None => None,
            },
        ),
{
    let ghost tf = match type_filter {
        Some(t) => Some(t@),
        None => None::<Seq<char>>,
    };
    let mut out: Vec<Replacement> = Vec::new();
    let mut k: usize = 0;
    while k < indices.len()
        invariant
            k <= indices@.len(),
            forall|q: int| 0 <= q < indices@.len() ==> #[trigger] indices@[q] < nb@.cells.len(),
            tf == match type_filter {
                Some(t) => Some(t@),
                None => None::<Seq<char>>,
            },
            out@.map_values(|x: Replacement| replacement_view(x)) == replacements(
                p@,
                nb@.cells,
                indices@.take(k as int),
                replacement@,
                tf,
            ),
        decreases indices.len() - k,
    {
        assert(indices@.take(k + 1).drop_last() =~= indices@.take(k as int));
        assert(indices@.take(k + 1).last() == indices@[k as int]);
        let idx = indices[k];
        let cell = &nb.cells[idx];
        if passes(cell, type_filter) {
            let old = cell.source_str();
            let new = p.replace_all(old.as_str(), replacement);
            if !str_equal(new.as_str(), old.as_str()) {
                let count = p.match_count(old.as_str());
                let ghost before = out@.map_values(|x: Replacement| replacement_view(x));
                let r = Replacement { index: idx, count, old_source: old, new_source: new };
                let ghost rv = replacement_view(r);
                out.push(r);
                assert(out@.map_values(|x: Replacement| replacement_view(x)) =~= before.push(rv));
            }
        }
        k = k + 1;
    }
    assert(indices@.take(indices@.len() as int) =~= indices@);
    out
}

/// `replace`: writes the planned sources into their cells.
pub fn apply_replacements(nb: &mut Notebook, planned: Vec<Replacement>)
    requires
        forall|k: int| 0 <= k < planned@.len() ==> #[trigger] planned@[k].index < old(nb)@.cells.len(),
    ensures
        final(nb)@ == with_cells(old(nb)@, final(nb)@.cells),
        final(nb)@.cells.len() == old(nb)@.cells.len(),
        forall|i: int|
            0 <= i < old(nb)@.cells.len() ==> #[trigger] final(nb)@.cells[i] == last_replacement(
                old(nb)@.cells[i],
                planned@.map_values(|x: Replacement| replacement_view(x)),
                i,
            ),
{
    let ghost pv = planned@.map_values(|x: Replacement| replacement_view(x));
    let ghost before = nb@.cells;
    let n = planned.len();
    let mut k: usize = 0;
    for r in it: planned.into_iter()
        invariant
            it.seq() == planned@,
            k == it.index(),
            n == planned@.len(),
            pv == planned@.map_values(|x: Replacement| replacement_view(x)),
            forall|q: int| 0 <= q < planned@.len() ==> #[trigger] planned@[q].index < before.len(),
            nb@ == with_cells(old(nb)@, nb@.cells),
            before == old(nb)@.cells,
            nb@.cells.len() == before.len(),
            forall|i: int|
                0 <= i < before.len() ==> #[trigger] nb@.cells[i] == last_replacement(
                    before[i],
                    pv.take(k as int),
                    i,
                ),
    {
        assert(planned@[k as int] == r);
        let ghost at = nb@.cells;
        nb.cells[r.index].set_source(r.new_source);
        proof {
            assert(pv.take(k + 1).drop_last() =~= pv.take(k as int));
            assert(pv.take(k + 1).last() == pv[k as int]);
            assert forall|i: int| 0 <= i < before.len() implies #[trigger] nb@.cells[i]
                == last_replacement(before[i], pv.take(k + 1), i) by {
                if i != r.index {
                    assert(nb@.cells[i] == at[i]);
                }
            }
        }
        k = k + 1;
    }
    assert(pv.take(pv.len() as int) =~= pv);
}

/// Cell `i` after the planned replacements: the source of the last one
/// planned for it, if any.
pub open spec fn last_replacement(
    c: CellV,
    planned: Seq<(usize, nat, Seq<char>, Seq<char>)>,
    i: int,
) -> CellV
    decreases planned.len(),
{
    if planned.len() == 0 {
        c
    } else if planned.last().0 == i {
        CellV { source: crate::notebook::SourceV::Lines(crate::text::split_incl(planned.last().3)), ..last_replacement(c, planned.drop_last(), i) }
    } else {
        last_replacement(c, planned.drop_last(), i)
    }
}

/// The dry-run preview of one change: each line that differs between the
/// old and new source (compared pairwise), as `  line {n:>3} - {old}` and
/// `  line {n:>3} + {new}`.
pub open spec fn preview_lines(old: Seq<Seq<char>>, new: Seq<Seq<char>>) -> Seq<Seq<char>>
    decreases old.len(),
{
    if old.len() == 0 || new.len() == 0 {
        Seq::empty()
    } else {
        let n = if old.len() <= new.len() {
            old.len()
        } else {
            new.len()
        };
        preview_lines(old.take(n - 1), new.take(n - 1)) + if old[n - 1] != new[n - 1] {
            seq![
                "  line "@ + pad_left(n as nat, 3) + " - "@ + old[n - 1],
                "  line "@ + pad_left(n as nat, 3) + " + "@ + new[n - 1],
            ]
        } else {
            Seq::empty()
        }
    }
}

pub fn replacement_preview(r: &Replacement) -> (out: Vec<String>)
    ensures
        out@.map_values(|s: String| s@) == preview_lines(
            lines(r.old_source@),
            lines(r.new_source@),
        ),
{
    let oc = chars_of(r.old_source.as_str());
    let nc = chars_of(r.new_source.as_str());
    let ol = lines_of(oc.as_slice());
    let nl = lines_of(nc.as_slice());
    let ghost ov = views(ol@);
    let ghost nv = views(nl@);
    let n = if ol.len() <= nl.len() {
        ol.len()
    } else {
        nl.len()
    };
    let mut out: Vec<String> = Vec::new();
    let mut i: usize = 0;
    proof {
        assert(ov.take(0) =~= Seq::<Seq<char>>::empty());
        assert(nv.take(0) =~= Seq::<Seq<char>>::empty());
    }
    while i < n
        invariant
            i <= n,
            n <= ol@.len(),
            n <= nl@.len(),
            n == ol@.len() || n == nl@.len(),
            ov == views(ol@),
            nv == views(nl@),
            out@.map_values(|s: String| s@) == preview_lines(ov.take(i as int), nv.take(i as int)),
        decreases n - i,
    {
        let ghost before = out@.map_values(|s: String| s@);
        proof {
            let a = ov.take(i + 1);
            let b = nv.take(i + 1);
            assert(a.take(i as int) =~= ov.take(i as int));
            assert(b.take(i as int) =~= nv.take(i as int));
            assert(a[i as int] == ol@[i as int]@);
            assert(b[i as int] == nl@[i as int]@);
        }
        if !crate::text::chars_eq(ol[i].as_slice(), nl[i].as_slice()) {
            let mut a = chars_of("  line ");
            push_pad_left(&mut a, i + 1, 3);
            append_str(&mut a, " - ");
            append_chars(&mut a, ol[i].as_slice());
            let mut b = chars_of("  line ");
            push_pad_left(&mut b, i + 1, 3);
            append_str(&mut b, " + ");
            append_chars(&mut b, nl[i].as_slice());
            out.push(string_of(a.as_slice()));
            out.push(string_of(b.as_slice()));
            assert(out@.map_values(|s: String| s@) =~= before + seq![a@, b@]);
        } else {
            assert(out@.map_values(|s: String| s@) =~= before + Seq::<Seq<char>>::empty());
        }
        i = i + 1;
    }
    proof {
        let lo = lines(r.old_source@);
        let ln = lines(r.new_source@);
        lemma_preview_prefix(lo, ln, n as int);
    }
    out
}

/// The preview only looks at the lines both sources have.
proof fn lemma_preview_prefix(old: Seq<Seq<char>>, new: Seq<Seq<char>>, n: int)
    requires
        n == (if old.len() <= new.len() {
            old.len()
        } else {
            new.len()
        }),
    ensures
        preview_lines(old, new) == preview_lines(old.take(n), new.take(n)),
{
    if old.len() == 0 || new.len() == 0 {
        assert(old.take(n).len() == 0 || new.take(n).len() == 0);
    } else {
        let a = old.take(n);
        let b = new.take(n);
        assert(a.take(n - 1) =~= old.take(n - 1));
        assert(b.take(n - 1) =~= new.take(n - 1));
        assert(a[n - 1] == old[n - 1]);
        assert(b[n - 1] == new[n - 1]);
    }
}

// ---------------------------------------------------------------------------
// query
// ---------------------------------------------------------------------------
/// Where `query` looks.
#[derive(Debug, Clone, Copy, PartialEq, Eq, Structural)]
pub enum QueryScope {
    Outputs,
    CellMetadata,
    NotebookMetadata,
}

pub open spec fn scope_of(s: Seq<char>) -> Option<QueryScope> {
    if s == "outputs"@ {
        Some(QueryScope::Outputs)
    } else if s == "cell-metadata"@ {
        Some(QueryScope::CellMetadata)
    } else if s == "notebook-metadata"@ {
        Some(QueryScope::NotebookMetadata)
    } else {
        None
    }
}

/// The scope named by `--scope`; anything else is refused with
/// `scope must be outputs, cell-metadata, or notebook-metadata`.
pub fn query_scope(s: &str) -> (r: Option<QueryScope>)
    ensures
        r == scope_of(s@),
{
    if str_equal(s, "outputs") {
        Some(QueryScope::Outputs)
    } else if str_equal(s, "cell-metadata") {
        Some(QueryScope::CellMetadata)
    } else if str_equal(s, "notebook-metadata") {
        Some(QueryScope::NotebookMetadata)
    } else {
        None
    }
}

/// One `query` match: the 1-based cell position and cell id (none for the
/// notebook metadata) and the serialized value that matched.
#[derive(Debug)]
pub struct QueryHit {
    pub index: Option<usize>,
    pub cell_id: Option<String>,
    pub value: String,
}

pub struct QueryHitV {
    pub index: Option<usize>,
    pub cell_id: Option<Seq<char>>,
    pub value: Seq<char>,
}

impl View for QueryHit {
    type V = QueryHitV;

    open spec fn view(&self) -> QueryHitV {
        QueryHitV { index: self.index, cell_id: opt_string_view(self.cell_id), value: self.value@ }
    }
}

/// The text a cell is searched in: its outputs as one JSON array, or its
/// metadata, serialized compactly.
pub open spec fn cell_query_text(c: CellV, scope: QueryScope) -> Seq<char> {
    if scope == QueryScope::Outputs {
        json_compact_text(JsonV::Array(c.outputs))
    } else {
        json_compact_text(c.metadata)
    }
}

/// The cells whose text the pattern matches, in order, each with its 1-based
/// position, its id and the text.
pub open spec fn cell_query_hits(pattern: Seq<char>, cells: Seq<CellV>, scope: QueryScope) -> Seq<
    QueryHitV,
>
    decreases cells.len(),
{
    if cells.len() == 0 {
        Seq::empty()
    } else {
        let before = cell_query_hits(pattern, cells.drop_last(), scope);
        let t = cell_query_text(cells.last(), scope);
        if regex_is_match(pattern, t) {
            before.push(
                QueryHitV { index: Some(cells.len() as usize), cell_id: cells.last().id, value: t },
            )
        } else {
            before
        }
    }
}

/// What `query` finds: for the notebook metadata, its serialized text when the
/// pattern matches it; otherwise the matching cells.
pub open spec fn query_hits(pattern: Seq<char>, nb: NotebookV, scope: QueryScope) -> Seq<QueryHitV> {
    if scope == QueryScope::NotebookMetadata {
        let t = json_compact_text(nb.metadata);
        if regex_is_match(pattern, t) {
            seq![QueryHitV { index: None, cell_id: None, value: t }]
        } else {
            Seq::empty()
        }
    } else {
        cell_query_hits(pattern, nb.cells, scope)
    }
}

/// The text `query` searches in one cell.
fn cell_text(c: &Cell, scope: QueryScope) -> (r: String)
    ensures
        r@ == cell_query_text(c@, scope),
{
    if scope == QueryScope::Outputs {
        let v = copy_jsons(&c.outputs);
        let all = Json::Array(v);
        proof {
            let av = match all@ {
                JsonV::Array(x) => x,
                _ => Seq::empty(),
            };
            assert(all@ == JsonV::Array(av));
            assert(av.len() == v@.len());
            assert(jsons_view(v@).len() == v@.len());
            assert forall|i: int| 0 <= i < av.len() implies av[i] == c@.outputs[i] by {
                assert(av[i] == json_view(v@[i]));
                assert(jsons_view(v@)[i] == v@[i]@);
            }
            assert(av =~= c@.outputs);
        }
        json_text(&all)
    } else {
        json_text(&c.metadata)
    }
}

/// `query`: serializes the notebook metadata, or each cell's outputs or
/// metadata, and keeps in order the texts that the pattern matches.
pub fn query_notebook(nb: &Notebook, p: &Pattern, scope: QueryScope) -> (r: Vec<QueryHit>)
    ensures
        r@.map_values(|h: QueryHit| h@) == query_hits(p@, nb@, scope),
{
    let mut out: Vec<QueryHit> = Vec::new();
    if scope == QueryScope::NotebookMetadata {
        let t = json_text(&nb.metadata);
        if p.is_match(t.as_str()) {
            out.push(QueryHit { index: None, cell_id: None, value: t });
        }
        proof {
            assert(out@.map_values(|h: QueryHit| h@) =~= query_hits(p@, nb@, scope));
        }
        return out;
    }
    let ghost cs = nb@.cells;
    let mut i: usize = 0;
    while i < nb.cells.len()
        invariant
            i <= nb.cells@.len(),
            cs == nb@.cells,
            cs.len() == nb.cells@.len(),
            scope != QueryScope::NotebookMetadata,
            out@.map_values(|h: QueryHit| h@) == cell_query_hits(p@, cs.take(i as int), scope),
        decreases nb.cells@.len() - i,
    {
        let c = &nb.cells[i];
        let t = cell_text(c, scope);
        let ghost before = out@.map_values(|h: QueryHit| h@);
        proof {
            let tk = cs.take(i + 1);
            assert(tk.drop_last() =~= cs.take(i as int));
            assert(tk.last() == c@);
            assert(tk.len() == i + 1);
        }
        if p.is_match(t.as_str()) {
            let id = copy_opt_string(&c.id);
            out.push(QueryHit { index: Some(i + 1), cell_id: id, value: t });
            proof {
                assert(out@.map_values(|h: QueryHit| h@) =~= before.push(
                    QueryHitV { index: Some((i + 1) as usize), cell_id: c@.id, value: t@ },
                ));
            }
        }
        i = i + 1;
    }
    proof {
        assert(cs.take(cs.len() as int) =~= cs);
    }
    out
}

} // verus!
