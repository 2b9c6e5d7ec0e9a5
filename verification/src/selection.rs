//! Cell selection expressions: `all`, `last`, `3`, `1,3,5`, `2-6`, `1,3-5,8`.
//!
//! The user writes 1-based indices; the library works with 0-based ones.
use crate::text::{
    append_str, chars_of, contains_char, copy_range, decimal, eq_ignore_ascii_case,
    eq_ignore_ascii_case_chars, first_index, first_index_of, parse_usize, parse_usize_chars,
    push_decimal, split_on, split_on_char, string_of, trim, trim_chars, views,
};
use vstd::prelude::*;

verus! {

/// Why a selection expression could not be resolved.
#[derive(Debug)]
pub enum SelectionError {
    /// The notebook has no cells to select from.
    NoCells,
    /// A piece of the expression is not a number.
    InvalidIndex(String),
    /// A 1-based index outside `1..=total`.
    IndexOutOfRange { index: usize, total: usize },
    /// A range whose start (1-based) is after its end (1-based).
    ReversedRange { start: usize, end: usize },
}

/// The mathematical content of a [`SelectionError`].
pub enum SelectionFault {
    NoCells,
    InvalidIndex(Seq<char>),
    IndexOutOfRange(nat, nat),
    ReversedRange(nat, nat),
}

impl View for SelectionError {
    type V = SelectionFault;

    open spec fn view(&self) -> SelectionFault {
        match self {
            SelectionError::NoCells => SelectionFault::NoCells,
            SelectionError::InvalidIndex(s) => SelectionFault::InvalidIndex(s@),
            SelectionError::IndexOutOfRange { index, total } => SelectionFault::IndexOutOfRange(
                *index as nat,
                *total as nat,
            ),
            SelectionError::ReversedRange { start, end } => SelectionFault::ReversedRange(
                *start as nat,
                *end as nat,
            ),
        }
    }
}

/// The 0-based index that the 1-based text `s` names among `total` cells.
pub open spec fn index_of_text(s: Seq<char>, total: nat) -> Result<nat, SelectionFault> {
    match parse_usize(s) {
        None => Err(SelectionFault::InvalidIndex(s)),
        Some(n) => if n == 0 || n > total {
            Err(SelectionFault::IndexOutOfRange(n as nat, total))
        } else {
            Ok((n - 1) as nat)
        },
    }
}

/// The indices that one comma-separated piece selects.
pub open spec fn part_indices(part: Seq<char>, total: nat) -> Result<Set<nat>, SelectionFault> {
    let p = trim(part);
    if p.contains('-') {
        let k = first_index(p, '-');
        match index_of_text(trim(p.take(k)), total) {
            Err(e) => Err(e),
            Ok(a) => match index_of_text(trim(p.skip(k + 1)), total) {
                Err(e) => Err(e),
                Ok(b) => if a > b {
                    Err(SelectionFault::ReversedRange(a + 1, b + 1))
                } else {
                    Ok(Set::new(|i: nat| a <= i <= b))
                },
            },
        }
    } else {
        match index_of_text(p, total) {
            Err(e) => Err(e),
            Ok(i) => Ok(set![i]),
        }
    }
}

/// The union of what the pieces select; the first failing piece decides the error.
pub open spec fn parts_indices(parts: Seq<Seq<char>>, total: nat) -> Result<
    Set<nat>,
    SelectionFault,
>
    decreases parts.len(),
{
    if parts.len() == 0 {
        Ok(Set::empty())
    } else {
        match parts_indices(parts.drop_last(), total) {
            Err(e) => Err(e),
            Ok(s) => match part_indices(parts.last(), total) {
                Err(e) => Err(e),
                Ok(t) => Ok(s.union(t)),
            },
        }
    }
}

pub open spec fn word_all() -> Seq<char> {
    seq!['a', 'l', 'l']
}

pub open spec fn word_last() -> Seq<char> {
    seq!['l', 'a', 's', 't']
}

/// The set of 0-based indices that `expr` selects among `total` cells.
pub open spec fn selection(expr: Seq<char>, total: nat) -> Result<Set<nat>, SelectionFault> {
    if total == 0 {
        Err(SelectionFault::NoCells)
    } else {
        let e = trim(expr);
        if eq_ignore_ascii_case(e, word_all()) {
            Ok(Set::new(|i: nat| i < total))
        } else if eq_ignore_ascii_case(e, word_last()) {
            Ok(set![(total - 1) as nat])
        } else {
            parts_indices(split_on(e, ','), total)
        }
    }
}

/// `v` lists exactly the members of `s`, in strictly increasing order.
pub open spec fn lists_sorted(v: Seq<usize>, s: Set<nat>) -> bool {
    &&& forall|i: int, j: int| 0 <= i < j < v.len() ==> v[i] < v[j]
    &&& forall|i: int| 0 <= i < v.len() ==> s.contains(#[trigger] v[i] as nat)
    &&& forall|n: nat| s.contains(n) ==> exists|i: int| 0 <= i < v.len() && v[i] == n
}

/// Resolves a selection expression against `total` cells and returns the
/// selected 0-based indices, sorted and without duplicates.
pub fn resolve(expr: &str, total: usize) -> (r: Result<Vec<usize>, SelectionError>)
    ensures
        match (r, selection(expr@, total as nat)) {
            (Ok(v), Ok(s)) => lists_sorted(v@, s),
            (Err(e), Err(f)) => e@ == f,
            _ => false,
        },
        r matches Ok(v) ==> forall|k: int| 0 <= k < v@.len() ==> #[trigger] v@[k] < total,
{
    let chars = chars_of(expr);
    resolve_chars(chars.as_slice(), total)
}

/// [`resolve`] on a character vector.
pub fn resolve_chars(expr: &[char], total: usize) -> (r: Result<Vec<usize>, SelectionError>)
    ensures
        match (r, selection(expr@, total as nat)) {
            (Ok(v), Ok(s)) => lists_sorted(v@, s),
            (Err(e), Err(f)) => e@ == f,
            _ => false,
        },
        r matches Ok(v) ==> forall|k: int| 0 <= k < v@.len() ==> #[trigger] v@[k] < total,
{
    if total == 0 {
        return Err(SelectionError::NoCells);
    }
    let e = trim_chars(expr);
    let all = vec!['a', 'l', 'l'];
    let last = vec!['l', 'a', 's', 't'];
    assert(all@ =~= word_all());
    assert(last@ =~= word_last());
    if eq_ignore_ascii_case_chars(e.as_slice(), all.as_slice()) {
        let mut v: Vec<usize> = Vec::new();
        let mut i: usize = 0;
        while i < total
            invariant
                i <= total,
                v@.len() == i,
                forall|k: int| 0 <= k < i ==> v@[k] == k,
            decreases total - i,
        {
            v.push(i);
            i = i + 1;
        }
        proof {
            let s = Set::new(|n: nat| n < total);
            assert forall|n: nat| s.contains(n) implies exists|k: int|
                0 <= k < v@.len() && v@[k] == n by {
                assert(v@[n as int] == n);
            }
        }
        return Ok(v);
    }
    if eq_ignore_ascii_case_chars(e.as_slice(), last.as_slice()) {
        let v = vec![total - 1];
        proof {
            let s = set![(total - 1) as nat];
            assert forall|n: nat| s.contains(n) implies exists|k: int|
                0 <= k < v@.len() && v@[k] == n by {
                assert(v@[0] == n);
            }
        }
        return Ok(v);
    }
    resolve_parts(e.as_slice(), total)
}

/// Resolves the comma-separated pieces of a (trimmed) expression.
fn resolve_parts(e: &[char], total: usize) -> (r: Result<Vec<usize>, SelectionError>)
    requires
        total > 0,
    ensures
        match (r, parts_indices(split_on(e@, ','), total as nat)) {
            (Ok(v), Ok(s)) => lists_sorted(v@, s),
            (Err(err), Err(f)) => err@ == f,
            _ => false,
        },
        r matches Ok(v) ==> forall|k: int| 0 <= k < v@.len() ==> #[trigger] v@[k] < total,
{
    let parts = split_on_char(e, ',');
    let mut marks: Vec<bool> = vec![false; total];
    let ghost mut acc: Set<nat> = Set::empty();
    let mut i: usize = 0;
    assert(views(parts@).take(0) =~= Seq::<Seq<char>>::empty());
    while i < parts.len()
        invariant
            i <= parts@.len(),
            total > 0,
            marks@.len() == total,
            views(parts@) == split_on(e@, ','),
            parts_indices(views(parts@).take(i as int), total as nat) == Ok::<
                Set<nat>,
                SelectionFault,
            >(acc),
            forall|n: int| 0 <= n < total ==> (#[trigger] marks@[n] <==> acc.contains(n as nat)),
            forall|n: nat| acc.contains(n) ==> n < total,
        decreases parts.len() - i,
    {
        proof {
            let t = views(parts@).take(i + 1);
            assert(t.drop_last() =~= views(parts@).take(i as int));
            assert(t.last() == parts@[i as int]@);
        }
        let res = mark_part(parts[i].as_slice(), total, &mut marks);
        match res {
            Err(err) => {
                proof {
                    lemma_parts_error_stays(views(parts@), i + 1, total as nat);
                }
                return Err(err);
            },
            Ok(()) => {},
        }
        proof {
            acc = acc.union(part_indices(parts@[i as int]@, total as nat)->Ok_0);
        }
        i = i + 1;
    }
    assert(views(parts@).take(parts@.len() as int) =~= views(parts@));
    let ghost sel = acc;
    Ok(sorted_marks(&marks, Ghost(sel)))
}

/// The marked indices, in increasing order.
fn sorted_marks(marks: &Vec<bool>, Ghost(sel): Ghost<Set<nat>>) -> (v: Vec<usize>)
    requires
        forall|n: int| 0 <= n < marks@.len() ==> (#[trigger] marks@[n] <==> sel.contains(n as nat)),
        forall|n: nat| sel.contains(n) ==> n < marks@.len(),
    ensures
        lists_sorted(v@, sel),
        forall|k: int| 0 <= k < v@.len() ==> #[trigger] v@[k] < marks@.len(),
{
    let total = marks.len();
    let mut v: Vec<usize> = Vec::new();
    let mut j: usize = 0;
    while j < total
        invariant
            j <= total,
            marks@.len() == total,
            forall|n: int| 0 <= n < total ==> (#[trigger] marks@[n] <==> sel.contains(n as nat)),
            forall|n: nat| sel.contains(n) ==> n < total,
            forall|a: int, b: int| 0 <= a < b < v@.len() ==> v@[a] < v@[b],
            forall|a: int| 0 <= a < v@.len() ==> v@[a] < j,
            forall|a: int| 0 <= a < v@.len() ==> sel.contains(#[trigger] v@[a] as nat),
            forall|n: nat|
                n < j && sel.contains(n) ==> exists|a: int| 0 <= a < v@.len() && v@[a] == n,
        decreases total - j,
    {
        if marks[j] {
            let ghost old_v = v@;
            v.push(j);
            proof {
                assert(v@[v@.len() - 1] == j);
                assert forall|n: nat| n < j + 1 && sel.contains(n) implies exists|a: int|
                    0 <= a < v@.len() && v@[a] == n by {
                    if n == j {
                        assert(v@[v@.len() - 1] == n);
                    } else {
                        let a = choose|a: int| 0 <= a < old_v.len() && old_v[a] == n;
                        assert(v@[a] == n);
                    }
                }
            }
        }
        j = j + 1;
    }
    v
}

proof fn lemma_parts_error_stays(ps: Seq<Seq<char>>, k: int, total: nat)
    requires
        0 <= k <= ps.len(),
        parts_indices(ps.take(k), total) is Err,
    ensures
        parts_indices(ps, total) == parts_indices(ps.take(k), total),
    decreases ps.len() - k,
{
    if k < ps.len() {
        assert(ps.take(k + 1).drop_last() =~= ps.take(k));
        lemma_parts_error_stays(ps, k + 1, total);
    } else {
        assert(ps.take(k) =~= ps);
    }
}

/// Marks what one piece selects; fails as [`part_indices`] does.
fn mark_part(part: &[char], total: usize, marks: &mut Vec<bool>) -> (r: Result<(), SelectionError>)
    requires
        old(marks)@.len() == total,
        total > 0,
    ensures
        final(marks)@.len() == total,
        match (r, part_indices(part@, total as nat)) {
            (Ok(()), Ok(t)) => (forall|n: int|
                0 <= n < total ==> (#[trigger] final(marks)@[n] <==> (old(marks)@[n] || t.contains(
                    n as nat,
                )))) && (forall|n: nat| t.contains(n) ==> n < total),
            (Err(e), Err(f)) => e@ == f,
            _ => false,
        },
{
    let p = trim_chars(part);
    if contains_char(p.as_slice(), '-') {
        let k = first_index_of(p.as_slice(), '-');
        let left = copy_range(p.as_slice(), 0, k);
        let right = copy_range(p.as_slice(), k + 1, p.len());
        assert(left@ =~= p@.take(k as int));
        assert(right@ =~= p@.skip(k + 1));
        let a = index_in(trim_chars(left.as_slice()).as_slice(), total)?;
        let b = index_in(trim_chars(right.as_slice()).as_slice(), total)?;
        if a > b {
            return Err(SelectionError::ReversedRange { start: a + 1, end: b + 1 });
        }
        let mut i = a;
        while i <= b
            invariant
                a <= i <= b + 1,
                b < total,
                marks@.len() == total,
                forall|n: int|
                    0 <= n < total ==> (#[trigger] marks@[n] <==> (old(marks)@[n] || (a <= n
                        < i))),
            decreases b + 1 - i,
        {
            marks.set(i, true);
            i = i + 1;
        }
        Ok(())
    } else {
        let n = index_in(p.as_slice(), total)?;
        marks.set(n, true);
        Ok(())
    }
}

/// The 0-based index that the 1-based text `s` names; see [`index_of_text`].
fn index_in(s: &[char], total: usize) -> (r: Result<usize, SelectionError>)
    ensures
        match (r, index_of_text(s@, total as nat)) {
            (Ok(n), Ok(m)) => n == m && n < total,
            (Err(e), Err(f)) => e@ == f,
            _ => false,
        },
{
    match parse_usize_chars(s) {
        None => Err(SelectionError::InvalidIndex(string_of(s))),
        Some(n) => {
            if n == 0 || n > total {
                Err(SelectionError::IndexOutOfRange { index: n, total })
            } else {
                Ok(n - 1)
            }
        },
    }
}

/// Resolves a destination expression (`last` or a 1-based index) to a
/// 0-based index.
pub fn resolve_single(expr: &str, total: usize) -> (r: Result<usize, SelectionError>)
    ensures
        ({
            let e = trim(expr@);
            if eq_ignore_ascii_case(e, word_last()) {
                if total == 0 {
                    r matches Err(err) && err@ == SelectionFault::NoCells
                } else {
                    r == Ok::<usize, SelectionError>((total - 1) as usize)
                }
            } else {
                match (r, index_of_text(e, total as nat)) {
                    (Ok(n), Ok(m)) => n == m,
                    (Err(err), Err(f)) => err@ == f,
                    _ => false,
                }
            }
        }),
{
    let chars = chars_of(expr);
    let e = trim_chars(chars.as_slice());
    let last = vec!['l', 'a', 's', 't'];
    assert(last@ =~= word_last());
    if eq_ignore_ascii_case_chars(e.as_slice(), last.as_slice()) {
        if total == 0 {
            return Err(SelectionError::NoCells);
        }
        return Ok(total - 1);
    }
    index_in(e.as_slice(), total)
}

proof fn lemma_part_nonempty(part: Seq<char>, total: nat)
    ensures
        part_indices(part, total) matches Ok(t) ==> exists|n: nat| t.contains(n),
{
    let p = trim(part);
    if part_indices(part, total) is Ok {
        if p.contains('-') {
            let k = first_index(p, '-');
            let a = index_of_text(trim(p.take(k)), total)->Ok_0;
            assert(part_indices(part, total)->Ok_0.contains(a));
        } else {
            let i = index_of_text(p, total)->Ok_0;
            assert(part_indices(part, total)->Ok_0.contains(i));
        }
    }
}

proof fn lemma_parts_nonempty(parts: Seq<Seq<char>>, total: nat)
    requires
        parts.len() >= 1,
    ensures
        parts_indices(parts, total) matches Ok(t) ==> exists|n: nat| t.contains(n),
{
    lemma_part_nonempty(parts.last(), total);
    if parts_indices(parts, total) is Ok {
        let t = part_indices(parts.last(), total)->Ok_0;
        let n = choose|n: nat| t.contains(n);
        assert(parts_indices(parts, total)->Ok_0.contains(n));
    }
}

/// A selection that resolves selects at least one cell.
pub proof fn lemma_selection_nonempty(expr: Seq<char>, total: nat)
    ensures
        selection(expr, total) matches Ok(s) ==> exists|n: nat| s.contains(n),
{
    if selection(expr, total) is Ok {
        let e = trim(expr);
        if eq_ignore_ascii_case(e, word_all()) {
            assert(selection(expr, total)->Ok_0.contains(0));
        } else if eq_ignore_ascii_case(e, word_last()) {
            assert(selection(expr, total)->Ok_0.contains((total - 1) as nat));
        } else {
            crate::text::lemma_split_on_len(e, ',');
            lemma_parts_nonempty(split_on(e, ','), total);
        }
    }
}

/// The text the command line shows for a selection failure.
pub open spec fn fault_message(f: SelectionFault) -> Seq<char> {
    match f {
        SelectionFault::NoCells => "The notebook has no cells"@,
        SelectionFault::InvalidIndex(s) => seq!['\''] + s + "' is not a valid cell index"@,
        SelectionFault::IndexOutOfRange(n, t) => "Cell index "@ + decimal(n)
            + " is out of range (notebook has "@ + decimal(t) + " cells)"@,
        SelectionFault::ReversedRange(a, b) => "Range start "@ + decimal(a)
            + " is greater than end "@ + decimal(b),
    }
}

impl SelectionError {
    /// The message shown to the user.
    pub fn message(&self) -> (r: String)
        ensures
            r@ == fault_message(self@),
    {
        let mut out: Vec<char> = Vec::new();
        match self {
            SelectionError::NoCells => {
                append_str(&mut out, "The notebook has no cells");
            },
            SelectionError::InvalidIndex(s) => {
                out.push('\'');
                append_str(&mut out, s.as_str());
                append_str(&mut out, "' is not a valid cell index");
            },
            SelectionError::IndexOutOfRange { index, total } => {
                append_str(&mut out, "Cell index ");
                push_decimal(&mut out, *index);
                append_str(&mut out, " is out of range (notebook has ");
                push_decimal(&mut out, *total);
                append_str(&mut out, " cells)");
            },
            SelectionError::ReversedRange { start, end } => {
                append_str(&mut out, "Range start ");
                push_decimal(&mut out, *start);
                append_str(&mut out, " is greater than end ");
                push_decimal(&mut out, *end);
            },
        }
        proof {
            match self@ {
                SelectionFault::InvalidIndex(s) => {
                    assert(out@ =~= seq!['\''] + s + "' is not a valid cell index"@);
                },
                _ => {},
            }
        }
        string_of(out.as_slice())
    }
}

} // verus!
