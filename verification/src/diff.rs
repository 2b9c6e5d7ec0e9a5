//! Differences between two notebooks: a longest-common-subsequence alignment
//! of their cells (by type and source), and of the lines of two sources.
use crate::notebook::{cells_view, source_text, Cell, CellV};
use crate::text::{append_chars, append_str, chars_eq, chars_of, lines, lines_of, push_decimal, string_of, views};
use vstd::prelude::*;

verus! {

// ---------------------------------------------------------------------------
// Longest common subsequence
// ---------------------------------------------------------------------------
/// Length of a longest common subsequence of `a[..i]` and `b[..j]`.
pub open spec fn lcs(a: Seq<Seq<char>>, b: Seq<Seq<char>>, i: nat, j: nat) -> nat
    decreases i + j,
{
    if i == 0 || j == 0 {
        0
    } else if a[i - 1] == b[j - 1] {
        lcs(a, b, (i - 1) as nat, (j - 1) as nat) + 1
    } else {
        let x = lcs(a, b, (i - 1) as nat, j);
        let y = lcs(a, b, i, (j - 1) as nat);
        if x >= y {
            x
        } else {
            y
        }
    }
}

pub proof fn lemma_lcs_bound(a: Seq<Seq<char>>, b: Seq<Seq<char>>, i: nat, j: nat)
    ensures
        lcs(a, b, i, j) <= i,
        lcs(a, b, i, j) <= j,
    decreases i + j,
{
    if i > 0 && j > 0 {
        lemma_lcs_bound(a, b, (i - 1) as nat, (j - 1) as nat);
        lemma_lcs_bound(a, b, (i - 1) as nat, j);
        lemma_lcs_bound(a, b, i, (j - 1) as nat);
    }
}

/// The table `t[i][j] == lcs(a, b, i, j)` for all `i <= a.len()`, `j <= b.len()`.
pub open spec fn is_lcs_table(t: Seq<Vec<usize>>, a: Seq<Seq<char>>, b: Seq<Seq<char>>) -> bool {
    &&& t.len() == a.len() + 1
    &&& forall|i: int| 0 <= i < t.len() ==> (#[trigger] t[i])@.len() == b.len() + 1
    &&& forall|i: int, j: int|
        0 <= i <= a.len() && 0 <= j <= b.len() ==> #[trigger] t[i]@[j] == lcs(
            a,
            b,
            i as nat,
            j as nat,
        )
}

/// The dynamic-programming table of [`lcs`].
fn lcs_table(a: &Vec<Vec<char>>, b: &Vec<Vec<char>>) -> (t: Vec<Vec<usize>>)
    requires
        a@.len() < usize::MAX,
        b@.len() < usize::MAX,
    ensures
        is_lcs_table(t@, views(a@), views(b@)),
{
    let ghost va = views(a@);
    let ghost vb = views(b@);
    let m = a.len();
    let n = b.len();
    let mut t: Vec<Vec<usize>> = Vec::new();
    let mut first: Vec<usize> = Vec::new();
    let mut j: usize = 0;
    while j <= n
        invariant
            n == vb.len(),
            n < usize::MAX,
            j <= n + 1,
            first@.len() == j,
            forall|k: int| 0 <= k < j ==> first@[k] == 0,
        decreases n + 1 - j,
    {
        first.push(0);
        j = j + 1;
    }
    t.push(first);
    let mut i: usize = 1;
    while i <= m
        invariant
            m == va.len(),
            n == vb.len(),
            m < usize::MAX,
            n < usize::MAX,
            va == views(a@),
            vb == views(b@),
            1 <= i <= m + 1,
            t@.len() == i,
            forall|r: int| 0 <= r < i ==> (#[trigger] t@[r])@.len() == n + 1,
            forall|r: int, c: int|
                0 <= r < i && 0 <= c <= n ==> #[trigger] t@[r]@[c] == lcs(va, vb, r as nat, c as nat),
        decreases m + 1 - i,
    {
        let mut row: Vec<usize> = Vec::new();
        row.push(0);
        let mut j: usize = 1;
        while j <= n
            invariant
                m == va.len(),
                n == vb.len(),
                n < usize::MAX,
                1 <= i <= m,
                va == views(a@),
                vb == views(b@),
                t@.len() == i,
                forall|r: int| 0 <= r < i ==> (#[trigger] t@[r])@.len() == n + 1,
                forall|r: int, c: int|
                    0 <= r < i && 0 <= c <= n ==> #[trigger] t@[r]@[c] == lcs(
                        va,
                        vb,
                        r as nat,
                        c as nat,
                    ),
                1 <= j <= n + 1,
                row@.len() == j,
                forall|c: int| 0 <= c < j ==> #[trigger] row@[c] == lcs(va, vb, i as nat, c as nat),
            decreases n + 1 - j,
        {
            proof {
                lemma_lcs_bound(va, vb, i as nat, j as nat);
                assert(va[i - 1] == a@[i - 1]@);
                assert(vb[j - 1] == b@[j - 1]@);
            }
            let up = t[i - 1][j];
            let left = row[j - 1];
            let diag = t[i - 1][j - 1];
            let v = if chars_eq(a[i - 1].as_slice(), b[j - 1].as_slice()) {
                diag + 1
            } else if up >= left {
                up
            } else {
                left
            };
            row.push(v);
            j = j + 1;
        }
        t.push(row);
        i = i + 1;
    }
    t
}

// ---------------------------------------------------------------------------
// The cell alignment
// ---------------------------------------------------------------------------
/// One step of the cell alignment (0-based positions).
#[derive(Debug, Clone, Copy, PartialEq, Eq, Structural)]
pub enum DiffOp {
    /// The cells match.
    Keep(usize, usize),
    /// The cell of the first notebook has no counterpart.
    Remove(usize),
    /// The cell of the second notebook has no counterpart.
    Add(usize),
    /// The cells stand at the same place but differ.
    Change(usize, usize),
}

/// The key by which cells are compared: type, `|`, source.
pub open spec fn cell_key(c: CellV) -> Seq<char> {
    c.cell_type + "|"@ + source_text(c.source)
}

pub open spec fn cell_keys(cs: Seq<CellV>) -> Seq<Seq<char>> {
    cs.map_values(|c: CellV| cell_key(c))
}

/// The alignment that backtracking through the table of [`lcs`] yields:
/// equal keys are kept; where the two shorter tables tie the cells are
/// paired as a change; otherwise the longer side is followed (an addition
/// when it is not shorter).
pub open spec fn cell_script(a: Seq<Seq<char>>, b: Seq<Seq<char>>, i: nat, j: nat) -> Seq<DiffOp>
    decreases i + j,
{
    if i == 0 && j == 0 {
        Seq::empty()
    } else if i > 0 && j > 0 && a[i - 1] == b[j - 1] {
        cell_script(a, b, (i - 1) as nat, (j - 1) as nat).push(
            DiffOp::Keep((i - 1) as usize, (j - 1) as usize),
        )
    } else if i > 0 && j > 0 && lcs(a, b, (i - 1) as nat, j) == lcs(a, b, i, (j - 1) as nat) {
        cell_script(a, b, (i - 1) as nat, (j - 1) as nat).push(
            DiffOp::Change((i - 1) as usize, (j - 1) as usize),
        )
    } else if j > 0 && (i == 0 || lcs(a, b, i, (j - 1) as nat) >= lcs(a, b, (i - 1) as nat, j)) {
        cell_script(a, b, i, (j - 1) as nat).push(DiffOp::Add((j - 1) as usize))
    } else {
        cell_script(a, b, (i - 1) as nat, j).push(DiffOp::Remove((i - 1) as usize))
    }
}

/// The key of a cell.
fn key_of(c: &Cell) -> (r: Vec<char>)
    ensures
        r@ == cell_key(c@),
{
    let mut out = chars_of(c.cell_type.as_str());
    append_str(&mut out, "|");
    let s = c.source_str();
    append_str(&mut out, s.as_str());
    out
}

fn keys_of(cs: &[Cell]) -> (r: Vec<Vec<char>>)
    ensures
        r@.len() == cs@.len(),
        views(r@) == cell_keys(cells_view(cs@)),
{
    let mut out: Vec<Vec<char>> = Vec::new();
    let mut i: usize = 0;
    while i < cs.len()
        invariant
            i <= cs@.len(),
            out@.len() == i,
            forall|k: int| 0 <= k < i ==> (#[trigger] out@[k])@ == cell_key(cs@[k]@),
        decreases cs.len() - i,
    {
        out.push(key_of(&cs[i]));
        i = i + 1;
    }
    assert(views(out@) =~= cell_keys(cells_view(cs@)));
    out
}

/// Reverses a vector.
fn reversed<A>(v: Vec<A>) -> (r: Vec<A>)
    ensures
        r@ == v@.reverse(),
{
    let mut v = v;
    let mut out: Vec<A> = Vec::new();
    let ghost orig = v@;
    while v.len() > 0
        invariant
            orig.len() == out@.len() + v@.len(),
            v@ == orig.take(v@.len() as int),
            out@ == orig.skip(v@.len() as int).reverse(),
        decreases v@.len(),
    {
        let x = v.pop().unwrap();
        out.push(x);
        assert(v@ =~= orig.take(v@.len() as int));
        assert(out@ =~= orig.skip(v@.len() as int).reverse());
    }
    assert(orig.skip(0) =~= orig);
    out
}

/// The cell alignment of `a` and `b` (the `diff` command's edit script).
pub fn diff_cells(a: &[Cell], b: &[Cell]) -> (r: Vec<DiffOp>)
    requires
        a@.len() < usize::MAX,
        b@.len() < usize::MAX,
    ensures
        r@ == cell_script(
            cell_keys(cells_view(a@)),
            cell_keys(cells_view(b@)),
            a@.len(),
            b@.len(),
        ),
{
    let ka = keys_of(a);
    let kb = keys_of(b);
    let ghost va = views(ka@);
    let ghost vb = views(kb@);
    let t = lcs_table(&ka, &kb);
    let mut ops: Vec<DiffOp> = Vec::new();
    let mut i = a.len();
    let mut j = b.len();
    while i > 0 || j > 0
        invariant
            va == views(ka@),
            vb == views(kb@),
            va.len() == a@.len(),
            vb.len() == b@.len(),
            i <= a@.len(),
            j <= b@.len(),
            is_lcs_table(t@, va, vb),
            cell_script(va, vb, a@.len(), b@.len()) == cell_script(va, vb, i as nat, j as nat)
                + ops@.reverse(),
        decreases i + j,
    {
        let ghost pre = ops@;
        let same = i > 0 && j > 0 && chars_eq(ka[i - 1].as_slice(), kb[j - 1].as_slice());
        proof {
            if i > 0 && j > 0 {
                assert(va[i - 1] == ka@[i - 1]@);
                assert(vb[j - 1] == kb@[j - 1]@);
            }
        }
        let op = if same {
            DiffOp::Keep(i - 1, j - 1)
        } else if i > 0 && j > 0 && t[i - 1][j] == t[i][j - 1] {
            DiffOp::Change(i - 1, j - 1)
        } else if j > 0 && (i == 0 || t[i][j - 1] >= t[i - 1][j]) {
            DiffOp::Add(j - 1)
        } else {
            DiffOp::Remove(i - 1)
        };
        ops.push(op);
        match op {
            DiffOp::Keep(_, _) => {
                i = i - 1;
                j = j - 1;
            },
            DiffOp::Change(_, _) => {
                i = i - 1;
                j = j - 1;
            },
            DiffOp::Add(_) => {
                j = j - 1;
            },
            DiffOp::Remove(_) => {
                i = i - 1;
            },
        }
        assert(ops@.reverse() =~= seq![op] + pre.reverse());
    }
    assert(ops@.reverse() =~= cell_script(va, vb, a@.len(), b@.len()));
    reversed(ops)
}

// ---------------------------------------------------------------------------
// Laws of the alignment
// ---------------------------------------------------------------------------
/// The positions of the first notebook that the steps name, in order.
pub open spec fn first_side(ops: Seq<DiffOp>) -> Seq<nat>
    decreases ops.len(),
{
    if ops.len() == 0 {
        Seq::empty()
    } else {
        let rest = first_side(ops.drop_last());
        match ops.last() {
            DiffOp::Keep(i, _) => rest.push(i as nat),
            DiffOp::Remove(i) => rest.push(i as nat),
            DiffOp::Change(i, _) => rest.push(i as nat),
            DiffOp::Add(_) => rest,
        }
    }
}

/// The positions of the second notebook that the steps name, in order.
pub open spec fn second_side(ops: Seq<DiffOp>) -> Seq<nat>
    decreases ops.len(),
{
    if ops.len() == 0 {
        Seq::empty()
    } else {
        let rest = second_side(ops.drop_last());
        match ops.last() {
            DiffOp::Keep(_, j) => rest.push(j as nat),
            DiffOp::Add(j) => rest.push(j as nat),
            DiffOp::Change(_, j) => rest.push(j as nat),
            DiffOp::Remove(_) => rest,
        }
    }
}

/// The positions a step names lie below `i` and `j`.
pub open spec fn op_in_range(op: DiffOp, i: nat, j: nat) -> bool {
    match op {
        DiffOp::Keep(x, y) => x < i && y < j,
        DiffOp::Change(x, y) => x < i && y < j,
        DiffOp::Remove(x) => x < i,
        DiffOp::Add(y) => y < j,
    }
}

/// The positions `0..n` in order.
pub open spec fn upto(n: nat) -> Seq<nat> {
    Seq::new(n, |k: int| k as nat)
}

/// Law: the alignment is complete and in order: it names every cell of each
/// notebook exactly once, first to last, and keeps only cells with equal keys.
pub proof fn lemma_cell_script_aligns(a: Seq<Seq<char>>, b: Seq<Seq<char>>, i: nat, j: nat)
    requires
        i <= a.len(),
        j <= b.len(),
        a.len() < usize::MAX,
        b.len() < usize::MAX,
    ensures
        first_side(cell_script(a, b, i, j)) == upto(i),
        second_side(cell_script(a, b, i, j)) == upto(j),
        forall|k: int|
            0 <= k < cell_script(a, b, i, j).len() ==> (#[trigger] cell_script(a, b, i, j)[k]
                matches DiffOp::Keep(x, y) ==> a[x as int] == b[y as int]),
        forall|k: int|
            0 <= k < cell_script(a, b, i, j).len() ==> op_in_range(
                #[trigger] cell_script(a, b, i, j)[k],
                i,
                j,
            ),
    decreases i + j,
{
    let s = cell_script(a, b, i, j);
    if i == 0 && j == 0 {
        assert(upto(0) =~= Seq::<nat>::empty());
    } else {
        let (pi, pj): (nat, nat) = if i > 0 && j > 0 && a[i - 1] == b[j - 1] {
            ((i - 1) as nat, (j - 1) as nat)
        } else if i > 0 && j > 0 && lcs(a, b, (i - 1) as nat, j) == lcs(
            a,
            b,
            i,
            (j - 1) as nat,
        ) {
            ((i - 1) as nat, (j - 1) as nat)
        } else if j > 0 && (i == 0 || lcs(a, b, i, (j - 1) as nat) >= lcs(
            a,
            b,
            (i - 1) as nat,
            j,
        )) {
            (i, (j - 1) as nat)
        } else {
            ((i - 1) as nat, j)
        };
        lemma_cell_script_aligns(a, b, pi, pj);
        let p = cell_script(a, b, pi, pj);
        assert(s.drop_last() == p);
        assert(upto(i) =~= if pi < i {
            upto(pi).push(pi)
        } else {
            upto(pi)
        });
        assert(upto(j) =~= if pj < j {
            upto(pj).push(pj)
        } else {
            upto(pj)
        });
        assert forall|k: int| 0 <= k < s.len() implies (#[trigger] s[k] matches DiffOp::Keep(x, y)
            ==> a[x as int] == b[y as int]) && op_in_range(s[k], i, j) by {
            if k < p.len() {
                assert(s[k] == p[k]);
                assert(op_in_range(p[k], pi, pj));
            }
        }
    }
}

/// Law: a notebook compared with itself is kept cell for cell.
pub proof fn lemma_identical_all_keep(a: Seq<Seq<char>>, i: nat)
    requires
        i <= a.len(),
        a.len() < usize::MAX,
    ensures
        cell_script(a, a, i, i) == Seq::new(i, |k: int| DiffOp::Keep(k as usize, k as usize)),
    decreases i,
{
    if i > 0 {
        lemma_identical_all_keep(a, (i - 1) as nat);
        assert(cell_script(a, a, i, i) =~= Seq::new(
            i,
            |k: int| DiffOp::Keep(k as usize, k as usize),
        ));
    }
}

proof fn lemma_changed_count_zero(ops: Seq<DiffOp>)
    ensures
        changed_count(ops) == 0 <==> forall|k: int| 0 <= k < ops.len() ==> #[trigger] ops[k] is Keep,
    decreases ops.len(),
{
    if ops.len() > 0 {
        let p = ops.drop_last();
        lemma_changed_count_zero(p);
        if changed_count(ops) == 0 {
            assert forall|k: int| 0 <= k < ops.len() implies #[trigger] ops[k] is Keep by {
                if k < p.len() {
                    assert(ops[k] == p[k]);
                }
            }
        }
        if forall|k: int| 0 <= k < ops.len() ==> #[trigger] ops[k] is Keep {
            assert forall|k: int| 0 <= k < p.len() implies #[trigger] p[k] is Keep by {
                assert(p[k] == ops[k]);
            }
            assert(ops[ops.len() - 1] is Keep);
        }
    }
}

proof fn lemma_keep_sides(ops: Seq<DiffOp>)
    requires
        forall|k: int| 0 <= k < ops.len() ==> #[trigger] ops[k] is Keep,
    ensures
        first_side(ops).len() == ops.len(),
        second_side(ops).len() == ops.len(),
        forall|k: int|
            0 <= k < ops.len() ==> first_side(ops)[k] == (#[trigger] ops[k])->Keep_0 as nat
                && second_side(ops)[k] == ops[k]->Keep_1 as nat,
    decreases ops.len(),
{
    if ops.len() > 0 {
        let p = ops.drop_last();
        assert forall|k: int| 0 <= k < p.len() implies #[trigger] p[k] is Keep by {
            assert(p[k] == ops[k]);
        }
        lemma_keep_sides(p);
        assert(ops[ops.len() - 1] is Keep);
        assert forall|k: int| 0 <= k < ops.len() implies first_side(ops)[k] == (
        #[trigger] ops[k])->Keep_0 as nat && second_side(ops)[k] == ops[k]->Keep_1 as nat by {
            if k < p.len() {
                assert(ops[k] == p[k]);
            }
        }
    }
}

/// Law: `diff` counts no changed cell exactly when the two notebooks hold
/// the same cells (type and source), in the same order.
pub proof fn lemma_no_change_iff_identical(a: Seq<Seq<char>>, b: Seq<Seq<char>>)
    requires
        a.len() < usize::MAX,
        b.len() < usize::MAX,
    ensures
        changed_count(cell_script(a, b, a.len(), b.len())) == 0 <==> a == b,
{
    let s = cell_script(a, b, a.len(), b.len());
    lemma_changed_count_zero(s);
    if a == b {
        lemma_identical_all_keep(a, a.len());
        assert forall|k: int| 0 <= k < s.len() implies #[trigger] s[k] is Keep by {
            assert(s[k] == DiffOp::Keep(k as usize, k as usize));
        }
    }
    if changed_count(s) == 0 {
        lemma_cell_script_aligns(a, b, a.len(), b.len());
        lemma_keep_sides(s);
        assert(first_side(s) == upto(a.len()));
        assert(second_side(s) == upto(b.len()));
        assert forall|k: int| 0 <= k < a.len() implies a[k] == b[k] by {
            assert(first_side(s)[k] == upto(a.len())[k]);
            assert(second_side(s)[k] == upto(b.len())[k]);
            assert(s[k] is Keep);
        }
        assert(a =~= b);
    }
}

// ---------------------------------------------------------------------------
// The line alignment of `diff --detailed`
// ---------------------------------------------------------------------------
/// The line alignment: `(' ', line)` kept, `('+', line)` added, `('-', line)`
/// removed.
pub open spec fn line_script(a: Seq<Seq<char>>, b: Seq<Seq<char>>, i: nat, j: nat) -> Seq<
    (char, Seq<char>),
>
    decreases i + j,
{
    if i == 0 && j == 0 {
        Seq::empty()
    } else if i > 0 && j > 0 && a[i - 1] == b[j - 1] {
        line_script(a, b, (i - 1) as nat, (j - 1) as nat).push((' ', a[i - 1]))
    } else if j > 0 && (i == 0 || lcs(a, b, i, (j - 1) as nat) >= lcs(a, b, (i - 1) as nat, j)) {
        line_script(a, b, i, (j - 1) as nat).push(('+', b[j - 1]))
    } else {
        line_script(a, b, (i - 1) as nat, j).push(('-', a[i - 1]))
    }
}

/// The line alignment of two sources.
pub fn line_diff(src_a: &str, src_b: &str) -> (r: Vec<(char, Vec<char>)>)
    requires
        lines(src_a@).len() < usize::MAX,
        lines(src_b@).len() < usize::MAX,
    ensures
        r@.map_values(|p: (char, Vec<char>)| (p.0, p.1@)) == line_script(
            lines(src_a@),
            lines(src_b@),
            lines(src_a@).len(),
            lines(src_b@).len(),
        ),
{
    let ca = chars_of(src_a);
    let cb = chars_of(src_b);
    let la = lines_of(ca.as_slice());
    let lb = lines_of(cb.as_slice());
    let ghost va = views(la@);
    let ghost vb = views(lb@);
    let t = lcs_table(&la, &lb);
    let mut ops: Vec<(char, Vec<char>)> = Vec::new();
    let mut i = la.len();
    let mut j = lb.len();
    while i > 0 || j > 0
        invariant
            va == views(la@),
            vb == views(lb@),
            i <= va.len(),
            j <= vb.len(),
            is_lcs_table(t@, va, vb),
            line_script(va, vb, va.len(), vb.len()) == line_script(va, vb, i as nat, j as nat)
                + ops@.map_values(|p: (char, Vec<char>)| (p.0, p.1@)).reverse(),
        decreases i + j,
    {
        let ghost pre = ops@.map_values(|p: (char, Vec<char>)| (p.0, p.1@));
        proof {
            if i > 0 {
                assert(va[i - 1] == la@[i - 1]@);
            }
            if j > 0 {
                assert(vb[j - 1] == lb@[j - 1]@);
            }
        }
        if i > 0 && j > 0 && chars_eq(la[i - 1].as_slice(), lb[j - 1].as_slice()) {
            ops.push((' ', crate::text::copy_all(la[i - 1].as_slice())));
            i = i - 1;
            j = j - 1;
        } else if j > 0 && (i == 0 || t[i][j - 1] >= t[i - 1][j]) {
            ops.push(('+', crate::text::copy_all(lb[j - 1].as_slice())));
            j = j - 1;
        } else {
            ops.push(('-', crate::text::copy_all(la[i - 1].as_slice())));
            i = i - 1;
        }
        proof {
            let now = ops@.map_values(|p: (char, Vec<char>)| (p.0, p.1@));
            assert(now =~= pre.push(now.last()));
            assert(now.reverse() =~= seq![now.last()] + pre.reverse());
        }
    }
    let ghost fin = ops@.map_values(|p: (char, Vec<char>)| (p.0, p.1@));
    let r = reversed(ops);
    assert(r@.map_values(|p: (char, Vec<char>)| (p.0, p.1@)) =~= fin.reverse());
    r
}

// ---------------------------------------------------------------------------
// The report
// ---------------------------------------------------------------------------
/// What `diff` prints, line by line, and how many cells differ.
pub struct DiffReport {
    pub lines: Vec<String>,
    pub changed: usize,
}

/// The lines that show a cell's source behind a prefix: each line, then an
/// empty line when the source is not empty.
pub open spec fn prefixed_source(src: Seq<char>, prefix: Seq<char>) -> Seq<Seq<char>> {
    let body = lines(src).map_values(|l: Seq<char>| prefix + l);
    if src.len() == 0 {
        body
    } else {
        body.push(Seq::empty())
    }
}

fn push_prefixed_source(out: &mut Vec<String>, src: &str, prefix: &str)
    ensures
        final(out)@.map_values(|s: String| s@) == old(out)@.map_values(|s: String| s@)
            + prefixed_source(src@, prefix@),
{
    let cs = chars_of(src);
    let ls = lines_of(cs.as_slice());
    let ghost start = out@.map_values(|s: String| s@);
    let mut i: usize = 0;
    while i < ls.len()
        invariant
            i <= ls@.len(),
            views(ls@) == lines(src@),
            out@.map_values(|s: String| s@) == start + views(ls@).take(i as int).map_values(
                |l: Seq<char>| prefix@ + l,
            ),
        decreases ls.len() - i,
    {
        let mut line = chars_of(prefix);
        append_chars(&mut line, ls[i].as_slice());
        let ghost before = out@.map_values(|s: String| s@);
        out.push(string_of(line.as_slice()));
        proof {
            assert(views(ls@)[i as int] == ls@[i as int]@);
            assert(out@.map_values(|s: String| s@) =~= before.push(prefix@ + ls@[i as int]@));
            assert(views(ls@).take(i + 1).map_values(|l: Seq<char>| prefix@ + l) =~= views(
                ls@,
            ).take(i as int).map_values(|l: Seq<char>| prefix@ + l).push(prefix@ + ls@[i as int]@));
        }
        i = i + 1;
    }
    assert(views(ls@).take(ls@.len() as int) =~= views(ls@));
    if cs.len() > 0 {
        let ghost before = out@.map_values(|s: String| s@);
        out.push(String::new());
        assert(out@.map_values(|s: String| s@) =~= before.push(Seq::empty()));
    }
}

/// The report lines for one step, with the 1-based counters after it.
pub open spec fn step_lines(
    a: Seq<CellV>,
    b: Seq<CellV>,
    op: DiffOp,
    na: nat,
    nb: nat,
    detailed: bool,
) -> Seq<Seq<char>> {
    match op {
        DiffOp::Keep(_, _) => Seq::empty(),
        DiffOp::Remove(i) => seq![
            "- [Cell "@ + crate::text::decimal(na) + " | "@ + a[i as int].cell_type + "]"@,
        ] + prefixed_source(source_text(a[i as int].source), "- "@),
        DiffOp::Add(j) => seq![
            "+ [Cell "@ + crate::text::decimal(nb) + " | "@ + b[j as int].cell_type + "]"@,
        ] + prefixed_source(source_text(b[j as int].source), "+ "@),
        DiffOp::Change(i, j) => seq![
            "~ [Cell "@ + crate::text::decimal(na) + "→"@ + crate::text::decimal(nb) + " | "@
                + b[j as int].cell_type + "]"@,
        ] + if detailed {
            detailed_lines(source_text(a[i as int].source), source_text(b[j as int].source))
        } else {
            prefixed_source(source_text(b[j as int].source), "  "@)
        },
    }
}

/// The `--detailed` lines of a changed cell: each step of the line
/// alignment as `  {mark} {line}`, then an empty line.
pub open spec fn detailed_lines(src_a: Seq<char>, src_b: Seq<char>) -> Seq<Seq<char>> {
    let a = lines(src_a);
    let b = lines(src_b);
    line_script(a, b, a.len(), b.len()).map_values(
        |p: (char, Seq<char>)| "  "@ + seq![p.0] + " "@ + p.1,
    ).push(Seq::empty())
}

/// The counters after the first `k` steps: how many cells of each notebook
/// the steps have named.
pub open spec fn counters(ops: Seq<DiffOp>) -> (nat, nat) {
    (first_side(ops).len(), second_side(ops).len())
}

/// The report lines of the first `k` steps.
pub open spec fn report_lines(
    a: Seq<CellV>,
    b: Seq<CellV>,
    ops: Seq<DiffOp>,
    detailed: bool,
) -> Seq<Seq<char>>
    decreases ops.len(),
{
    if ops.len() == 0 {
        Seq::empty()
    } else {
        let c = counters(ops);
        report_lines(a, b, ops.drop_last(), detailed) + step_lines(
            a,
            b,
            ops.last(),
            c.0,
            c.1,
            detailed,
        )
    }
}

/// The number of steps that are not kept cells.
pub open spec fn changed_count(ops: Seq<DiffOp>) -> nat
    decreases ops.len(),
{
    if ops.len() == 0 {
        0
    } else {
        changed_count(ops.drop_last()) + if ops.last() is Keep {
            0nat
        } else {
            1nat
        }
    }
}

fn push_step_lines(
    out: &mut Vec<String>,
    a: &[Cell],
    b: &[Cell],
    op: DiffOp,
    na: usize,
    nb: usize,
    detailed: bool,
)
    requires
        match op {
            DiffOp::Keep(_, _) => true,
            DiffOp::Remove(i) => i < a@.len(),
            DiffOp::Add(j) => j < b@.len(),
            DiffOp::Change(i, j) => i < a@.len() && j < b@.len() && lines(
                source_text(a@[i as int]@.source),
            ).len() < usize::MAX && lines(source_text(b@[j as int]@.source)).len() < usize::MAX,
        },
    ensures
        final(out)@.map_values(|s: String| s@) == old(out)@.map_values(|s: String| s@)
            + step_lines(cells_view(a@), cells_view(b@), op, na as nat, nb as nat, detailed),
{
    let ghost start = out@.map_values(|s: String| s@);
    match op {
        DiffOp::Keep(_, _) => {
            assert(out@.map_values(|s: String| s@) =~= start + Seq::<Seq<char>>::empty());
        },
        DiffOp::Remove(i) => {
            let mut h: Vec<char> = Vec::new();
            append_str(&mut h, "- [Cell ");
            push_decimal(&mut h, na);
            append_str(&mut h, " | ");
            append_str(&mut h, a[i].cell_type.as_str());
            append_str(&mut h, "]");
            out.push(string_of(h.as_slice()));
            let ghost mid = out@.map_values(|s: String| s@);
            assert(mid =~= start.push(h@));
            let src = a[i].source_str();
            push_prefixed_source(out, src.as_str(), "- ");
            assert(out@.map_values(|s: String| s@) =~= start + (seq![h@] + prefixed_source(
                src@,
                "- "@,
            )));
        },
        DiffOp::Add(j) => {
            let mut h: Vec<char> = Vec::new();
            append_str(&mut h, "+ [Cell ");
            push_decimal(&mut h, nb);
            append_str(&mut h, " | ");
            append_str(&mut h, b[j].cell_type.as_str());
            append_str(&mut h, "]");
            out.push(string_of(h.as_slice()));
            let ghost mid = out@.map_values(|s: String| s@);
            assert(mid =~= start.push(h@));
            let src = b[j].source_str();
            push_prefixed_source(out, src.as_str(), "+ ");
            assert(out@.map_values(|s: String| s@) =~= start + (seq![h@] + prefixed_source(
                src@,
                "+ "@,
            )));
        },
        DiffOp::Change(i, j) => {
            let mut h: Vec<char> = Vec::new();
            append_str(&mut h, "~ [Cell ");
            push_decimal(&mut h, na);
            append_str(&mut h, "→");
            push_decimal(&mut h, nb);
            append_str(&mut h, " | ");
            append_str(&mut h, b[j].cell_type.as_str());
            append_str(&mut h, "]");
            out.push(string_of(h.as_slice()));
            let ghost mid = out@.map_values(|s: String| s@);
            assert(mid =~= start.push(h@));
            let sb = b[j].source_str();
            if detailed {
                let sa = a[i].source_str();
                let steps = line_diff(sa.as_str(), sb.as_str());
                let ghost sv = steps@.map_values(|p: (char, Vec<char>)| (p.0, p.1@));
                let mut k: usize = 0;
                while k < steps.len()
                    invariant
                        k <= steps@.len(),
                        sv == steps@.map_values(|p: (char, Vec<char>)| (p.0, p.1@)),
                        out@.map_values(|s: String| s@) == mid + sv.take(k as int).map_values(
                            |p: (char, Seq<char>)| "  "@ + seq![p.0] + " "@ + p.1,
                        ),
                    decreases steps.len() - k,
                {
                    let mut line: Vec<char> = Vec::new();
                    append_str(&mut line, "  ");
                    line.push(steps[k].0);
                    append_str(&mut line, " ");
                    append_chars(&mut line, steps[k].1.as_slice());
                    let ghost before = out@.map_values(|s: String| s@);
                    out.push(string_of(line.as_slice()));
                    proof {
                        let f = |p: (char, Seq<char>)| "  "@ + seq![p.0] + " "@ + p.1;
                        assert(line@ =~= f(sv[k as int]));
                        assert(out@.map_values(|s: String| s@) =~= before.push(line@));
                        assert(sv.take(k + 1).map_values(f) =~= sv.take(k as int).map_values(
                            f,
                        ).push(f(sv[k as int])));
                    }
                    k = k + 1;
                }
                assert(sv.take(sv.len() as int) =~= sv);
                let ghost before = out@.map_values(|s: String| s@);
                out.push(String::new());
                assert(out@.map_values(|s: String| s@) =~= before.push(Seq::empty()));
                assert(out@.map_values(|s: String| s@) =~= start + (seq![h@] + detailed_lines(
                    sa@,
                    sb@,
                )));
            } else {
                push_prefixed_source(out, sb.as_str(), "  ");
                assert(out@.map_values(|s: String| s@) =~= start + (seq![h@] + prefixed_source(
                    sb@,
                    "  "@,
                )));
            }
        },
    }
}

/// `diff`: the report of the cell alignment of `a` and `b`.
pub fn diff_report(a: &[Cell], b: &[Cell], detailed: bool) -> (r: DiffReport)
    requires
        a@.len() < usize::MAX,
        b@.len() < usize::MAX,
        forall|i: int|
            0 <= i < a@.len() ==> lines(source_text((#[trigger] a@[i])@.source)).len()
                < usize::MAX,
        forall|i: int|
            0 <= i < b@.len() ==> lines(source_text((#[trigger] b@[i])@.source)).len()
                < usize::MAX,
    ensures
        ({
            let ops = cell_script(
                cell_keys(cells_view(a@)),
                cell_keys(cells_view(b@)),
                a@.len(),
                b@.len(),
            );
            &&& r.lines@.map_values(|s: String| s@) == report_lines(
                cells_view(a@),
                cells_view(b@),
                ops,
                detailed,
            )
            &&& r.changed == changed_count(ops)
        }),
{
    let ops = diff_cells(a, b);
    let ghost ka = cell_keys(cells_view(a@));
    let ghost kb = cell_keys(cells_view(b@));
    proof {
        lemma_cell_script_aligns(ka, kb, a@.len(), b@.len());
    }
    let mut out: Vec<String> = Vec::new();
    let mut changed: usize = 0;
    let mut na: usize = 0;
    let mut nb: usize = 0;
    let mut k: usize = 0;
    while k < ops.len()
        invariant
            k <= ops@.len(),
            ops@ == cell_script(ka, kb, a@.len(), b@.len()),
            forall|q: int| 0 <= q < ops@.len() ==> op_in_range(#[trigger] ops@[q], a@.len(), b@.len()),
            (na as nat, nb as nat) == counters(ops@.take(k as int)),
            changed == changed_count(ops@.take(k as int)),
            changed <= k,
            out@.map_values(|s: String| s@) == report_lines(
                cells_view(a@),
                cells_view(b@),
                ops@.take(k as int),
                detailed,
            ),
            forall|i: int|
                0 <= i < a@.len() ==> lines(source_text((#[trigger] a@[i])@.source)).len()
                    < usize::MAX,
            forall|i: int|
                0 <= i < b@.len() ==> lines(source_text((#[trigger] b@[i])@.source)).len()
                    < usize::MAX,
        decreases ops.len() - k,
    {
        let op = ops[k];
        let ghost pre = ops@.take(k as int);
        let ghost cur = ops@.take(k + 1);
        assert(cur.drop_last() =~= pre);
        proof {
            lemma_sides_len(cur);
            assert(ops@[k as int] == op);
        }
        match op {
            DiffOp::Keep(_, _) => {
                na = na + 1;
                nb = nb + 1;
            },
            DiffOp::Remove(_) => {
                na = na + 1;
                changed = changed + 1;
            },
            DiffOp::Add(_) => {
                nb = nb + 1;
                changed = changed + 1;
            },
            DiffOp::Change(_, _) => {
                na = na + 1;
                nb = nb + 1;
                changed = changed + 1;
            },
        }
        push_step_lines(&mut out, a, b, op, na, nb, detailed);
        k = k + 1;
    }
    assert(ops@.take(ops@.len() as int) =~= ops@);
    DiffReport { lines: out, changed }
}

/// Each side names at most one position per step.
proof fn lemma_sides_len(ops: Seq<DiffOp>)
    ensures
        first_side(ops).len() <= ops.len(),
        second_side(ops).len() <= ops.len(),
        changed_count(ops) <= ops.len(),
    decreases ops.len(),
{
    if ops.len() > 0 {
        lemma_sides_len(ops.drop_last());
    }
}

// ---------------------------------------------------------------------------
// Which cell each report header names
// ---------------------------------------------------------------------------
proof fn lemma_sides_prefix(ops: Seq<DiffOp>, t: int)
    requires
        0 <= t <= ops.len(),
    ensures
        first_side(ops.take(t)).len() <= first_side(ops).len(),
        forall|q: int|
            0 <= q < first_side(ops.take(t)).len() ==> #[trigger] first_side(ops.take(t))[q]
                == first_side(ops)[q],
        second_side(ops.take(t)).len() <= second_side(ops).len(),
        forall|q: int|
            0 <= q < second_side(ops.take(t)).len() ==> #[trigger] second_side(ops.take(t))[q]
                == second_side(ops)[q],
    decreases ops.len(),
{
    if t == ops.len() {
        assert(ops.take(t) =~= ops);
    } else {
        let d = ops.drop_last();
        assert(ops.take(t) =~= d.take(t));
        lemma_sides_prefix(d, t);
    }
}

proof fn lemma_report_prefix(a: Seq<CellV>, b: Seq<CellV>, ops: Seq<DiffOp>, detailed: bool, t: int)
    requires
        0 <= t <= ops.len(),
    ensures
        report_lines(a, b, ops.take(t), detailed).len() <= report_lines(a, b, ops, detailed).len(),
        forall|q: int|
            0 <= q < report_lines(a, b, ops.take(t), detailed).len() ==> #[trigger] report_lines(
                a,
                b,
                ops.take(t),
                detailed,
            )[q] == report_lines(a, b, ops, detailed)[q],
    decreases ops.len(),
{
    if t == ops.len() {
        assert(ops.take(t) =~= ops);
    } else {
        let d = ops.drop_last();
        assert(ops.take(t) =~= d.take(t));
        lemma_report_prefix(a, b, d, detailed, t);
    }
}

/// Law: every step of the diff report is headed by the cells it is about,
/// numbered from 1 in their own notebook: a removed cell `i` of the first
/// notebook as `- [Cell i+1 | type]`, an added cell `j` of the second as
/// `+ [Cell j+1 | type]`, a changed pair as `~ [Cell i+1→j+1 | type]`; a kept
/// cell adds no line.
pub proof fn lemma_report_headers_name_cells(a: Seq<CellV>, b: Seq<CellV>, detailed: bool, k: int)
    requires
        a.len() < usize::MAX,
        b.len() < usize::MAX,
        0 <= k < cell_script(cell_keys(a), cell_keys(b), a.len(), b.len()).len(),
    ensures
        ({
            let ops = cell_script(cell_keys(a), cell_keys(b), a.len(), b.len());
            let at = report_lines(a, b, ops.take(k), detailed).len() as int;
            let all = report_lines(a, b, ops, detailed);
            match ops[k] {
                DiffOp::Remove(i) => at < all.len() && all[at] == "- [Cell "@ + crate::text::decimal(
                    (i + 1) as nat,
                ) + " | "@ + a[i as int].cell_type + "]"@,
                DiffOp::Add(j) => at < all.len() && all[at] == "+ [Cell "@ + crate::text::decimal(
                    (j + 1) as nat,
                ) + " | "@ + b[j as int].cell_type + "]"@,
                DiffOp::Change(i, j) => at < all.len() && all[at] == "~ [Cell "@
                    + crate::text::decimal((i + 1) as nat) + "→"@ + crate::text::decimal(
                    (j + 1) as nat,
                ) + " | "@ + b[j as int].cell_type + "]"@,
                DiffOp::Keep(_, _) => report_lines(a, b, ops.take(k + 1), detailed) == report_lines(
                    a,
                    b,
                    ops.take(k),
                    detailed,
                ),
            }
        }),
{
    let ka = cell_keys(a);
    let kb = cell_keys(b);
    let ops = cell_script(ka, kb, a.len(), b.len());
    lemma_cell_script_aligns(ka, kb, a.len(), b.len());
    let pre = ops.take(k + 1);
    assert(pre.drop_last() =~= ops.take(k));
    assert(pre.last() == ops[k]);
    lemma_sides_prefix(ops, k + 1);
    lemma_report_prefix(a, b, ops, detailed, k + 1);
    let fs = first_side(pre);
    let ss = second_side(pre);
    let before = report_lines(a, b, ops.take(k), detailed);
    let step = step_lines(a, b, ops[k], fs.len(), ss.len(), detailed);
    assert(report_lines(a, b, pre, detailed) == before + step);
    match ops[k] {
        DiffOp::Remove(i) => {
            assert(fs == first_side(ops.take(k)).push(i as nat));
            assert(fs[fs.len() - 1] == upto(a.len())[fs.len() - 1]);
            assert(fs.len() == i + 1);
            assert((before + step)[before.len() as int] == step[0]);
        },
        DiffOp::Add(j) => {
            assert(ss == second_side(ops.take(k)).push(j as nat));
            assert(ss[ss.len() - 1] == upto(b.len())[ss.len() - 1]);
            assert(ss.len() == j + 1);
            assert((before + step)[before.len() as int] == step[0]);
        },
        DiffOp::Change(i, j) => {
            assert(fs == first_side(ops.take(k)).push(i as nat));
            assert(ss == second_side(ops.take(k)).push(j as nat));
            assert(fs[fs.len() - 1] == upto(a.len())[fs.len() - 1]);
            assert(ss[ss.len() - 1] == upto(b.len())[ss.len() - 1]);
            assert((before + step)[before.len() as int] == step[0]);
        },
        DiffOp::Keep(_, _) => {
            assert(before + step =~= before);
        },
    }
}

} // verus!
