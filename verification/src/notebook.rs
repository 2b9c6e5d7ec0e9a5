//! The notebook model (nbformat 4): cells with their source, outputs and
//! metadata, and the operations that every command builds on.
use crate::json::{
    json_view, key_index, lemma_view_array, lemma_view_object, member, member_str, pairs_view, Json, JsonV,
};
use crate::text::{
    append_chars, append_str, chars_of, decimal, flatten, flatten_chars, push_decimal,
    split_incl, split_inclusive_nl, str_equal, string_of, views,
};
use vstd::prelude::*;

verus! {

/// The nbformat source field: one string, or an array of lines.
#[derive(Debug)]
pub enum CellSource {
    Lines(Vec<String>),
    Single(String),
}

/// The mathematical content of a [`CellSource`].
pub enum SourceV {
    Lines(Seq<Seq<char>>),
    Single(Seq<char>),
}

pub open spec fn strings_view(v: Seq<String>) -> Seq<Seq<char>> {
    v.map_values(|s: String| s@)
}

impl View for CellSource {
    type V = SourceV;

    open spec fn view(&self) -> SourceV {
        match self {
            CellSource::Lines(v) => SourceV::Lines(strings_view(v@)),
            CellSource::Single(s) => SourceV::Single(s@),
        }
    }
}

/// The whole source text, whichever form it is stored in.
pub open spec fn source_text(s: SourceV) -> Seq<char> {
    match s {
        SourceV::Lines(v) => flatten(v),
        SourceV::Single(t) => t,
    }
}

/// One notebook cell.
#[derive(Debug)]
pub struct Cell {
    pub id: Option<String>,
    pub cell_type: String,
    pub metadata: Json,
    pub source: CellSource,
    pub execution_count: Option<Json>,
    pub outputs: Vec<Json>,
    /// Members that nbedit does not interpret (attachments, extensions).
    pub extra: Vec<(String, Json)>,
}

/// The mathematical content of a [`Cell`].
pub struct CellV {
    pub id: Option<Seq<char>>,
    pub cell_type: Seq<char>,
    pub metadata: JsonV,
    pub source: SourceV,
    pub execution_count: Option<JsonV>,
    pub outputs: Seq<JsonV>,
    pub extra: Seq<(Seq<char>, JsonV)>,
}

pub open spec fn opt_string_view(o: Option<String>) -> Option<Seq<char>> {
    match o {
        Some(s) => Some(s@),
        None => None,
    }
}

pub open spec fn opt_json_view(o: Option<Json>) -> Option<JsonV> {
    match o {
        Some(j) => Some(j@),
        None => None,
    }
}

pub open spec fn jsons_view(v: Seq<Json>) -> Seq<JsonV> {
    v.map_values(|j: Json| j@)
}

impl View for Cell {
    type V = CellV;

    open spec fn view(&self) -> CellV {
        CellV {
            id: opt_string_view(self.id),
            cell_type: self.cell_type@,
            metadata: self.metadata@,
            source: self.source@,
            execution_count: opt_json_view(self.execution_count),
            outputs: jsons_view(self.outputs@),
            extra: pairs_view(self.extra@),
        }
    }
}

/// A whole notebook.
#[derive(Debug)]
pub struct Notebook {
    pub nbformat: u32,
    pub nbformat_minor: u32,
    pub metadata: Json,
    pub cells: Vec<Cell>,
    /// Top-level members that nbedit does not interpret.
    pub extra: Vec<(String, Json)>,
}

/// The mathematical content of a [`Notebook`].
pub struct NotebookV {
    pub nbformat: u32,
    pub nbformat_minor: u32,
    pub metadata: JsonV,
    pub cells: Seq<CellV>,
    pub extra: Seq<(Seq<char>, JsonV)>,
}

pub open spec fn cells_view(v: Seq<Cell>) -> Seq<CellV> {
    v.map_values(|c: Cell| c@)
}

impl View for Notebook {
    type V = NotebookV;

    open spec fn view(&self) -> NotebookV {
        NotebookV {
            nbformat: self.nbformat,
            nbformat_minor: self.nbformat_minor,
            metadata: self.metadata@,
            cells: cells_view(self.cells@),
            extra: pairs_view(self.extra@),
        }
    }
}

pub open spec fn word_code() -> Seq<char> {
    seq!['c', 'o', 'd', 'e']
}

/// A copy of a string vector.
pub fn copy_strings(v: &Vec<String>) -> (r: Vec<String>)
    ensures
        strings_view(r@) == strings_view(v@),
{
    let mut out: Vec<String> = Vec::new();
    let mut i: usize = 0;
    while i < v.len()
        invariant
            i <= v@.len(),
            out@.len() == i,
            forall|k: int| 0 <= k < i ==> (#[trigger] out@[k])@ == v@[k]@,
        decreases v.len() - i,
    {
        out.push(v[i].clone());
        i = i + 1;
    }
    assert(strings_view(out@) =~= strings_view(v@));
    out
}

/// A copy of a vector of JSON values.
pub fn copy_jsons(v: &Vec<Json>) -> (r: Vec<Json>)
    ensures
        jsons_view(r@) == jsons_view(v@),
{
    let mut out: Vec<Json> = Vec::new();
    let mut i: usize = 0;
    while i < v.len()
        invariant
            i <= v@.len(),
            out@.len() == i,
            forall|k: int| 0 <= k < i ==> (#[trigger] out@[k])@ == v@[k]@,
        decreases v.len() - i,
    {
        out.push(v[i].duplicate());
        i = i + 1;
    }
    assert(jsons_view(out@) =~= jsons_view(v@));
    out
}

/// A copy of a member vector.
pub fn copy_pairs(v: &Vec<(String, Json)>) -> (r: Vec<(String, Json)>)
    ensures
        pairs_view(r@) == pairs_view(v@),
{
    let mut out: Vec<(String, Json)> = Vec::new();
    let mut i: usize = 0;
    while i < v.len()
        invariant
            i <= v@.len(),
            out@.len() == i,
            forall|k: int|
                0 <= k < i ==> (#[trigger] out@[k]).0@ == v@[k].0@ && out@[k].1@ == v@[k].1@,
        decreases v.len() - i,
    {
        out.push((v[i].0.clone(), v[i].1.duplicate()));
        i = i + 1;
    }
    assert(pairs_view(out@) =~= pairs_view(v@));
    out
}

pub fn copy_opt_string(o: &Option<String>) -> (r: Option<String>)
    ensures
        opt_string_view(r) == opt_string_view(*o),
{
    match o {
        Some(s) => Some(s.clone()),
        None => None,
    }
}

impl CellSource {
    pub fn duplicate(&self) -> (r: CellSource)
        ensures
            r@ == self@,
    {
        match self {
            CellSource::Lines(v) => CellSource::Lines(copy_strings(v)),
            CellSource::Single(s) => CellSource::Single(s.clone()),
        }
    }
}

impl Cell {
    /// A copy with the same content.
    pub fn duplicate(&self) -> (r: Cell)
        ensures
            r@ == self@,
    {
        Cell {
            id: copy_opt_string(&self.id),
            cell_type: self.cell_type.clone(),
            metadata: self.metadata.duplicate(),
            source: self.source.duplicate(),
            execution_count: match &self.execution_count {
                Some(j) => Some(j.duplicate()),
                None => None,
            },
            outputs: copy_jsons(&self.outputs),
            extra: copy_pairs(&self.extra),
        }
    }

    /// The full source as one string (joining an array of lines).
    pub fn source_str(&self) -> (r: String)
        ensures
            r@ == source_text(self@.source),
    {
        match &self.source {
            CellSource::Lines(v) => {
                let mut out: Vec<char> = Vec::new();
                let mut i: usize = 0;
                while i < v.len()
                    invariant
                        i <= v@.len(),
                        out@ == flatten(strings_view(v@).take(i as int)),
                    decreases v.len() - i,
                {
                    assert(strings_view(v@).take(i + 1).drop_last() =~= strings_view(v@).take(
                        i as int,
                    ));
                    append_str(&mut out, v[i].as_str());
                    i = i + 1;
                }
                assert(strings_view(v@).take(v@.len() as int) =~= strings_view(v@));
                string_of(out.as_slice())
            },
            CellSource::Single(s) => s.clone(),
        }
    }

    /// Replaces the source, stored as nbformat's array of lines (every line
    /// but the last ends with `\n`; an empty source is an empty array).
    pub fn set_source(&mut self, src: String)
        ensures
            final(self)@ == (CellV { source: SourceV::Lines(split_incl(src@)), ..old(self)@ }),
    {
        let chars = chars_of(src.as_str());
        let pieces = split_inclusive_nl(chars.as_slice());
        let mut lines: Vec<String> = Vec::new();
        let mut i: usize = 0;
        while i < pieces.len()
            invariant
                i <= pieces@.len(),
                lines@.len() == i,
                forall|k: int| 0 <= k < i ==> (#[trigger] lines@[k])@ == pieces@[k]@,
            decreases pieces.len() - i,
        {
            lines.push(string_of(pieces[i].as_slice()));
            i = i + 1;
        }
        assert(strings_view(lines@) =~= views(pieces@));
        self.source = CellSource::Lines(lines);
    }

    /// A new blank cell of the given type; code cells get a null execution count.
    pub fn new(cell_type: &str) -> (r: Cell)
        ensures
            r@.id is None,
            r@.cell_type == cell_type@,
            r@.metadata == JsonV::Object(Seq::empty()),
            r@.source == SourceV::Lines(Seq::empty()),
            r@.execution_count == (if cell_type@ == word_code() {
                Some(JsonV::Null)
            } else {
                None::<JsonV>
            }),
            r@.outputs == Seq::<JsonV>::empty(),
            r@.extra == Seq::<(Seq<char>, JsonV)>::empty(),
    {
        let is_code = str_equal(cell_type, "code");
        proof {
            reveal_strlit("code");
            assert("code"@ =~= word_code());
        }
        let lines: Vec<String> = Vec::new();
        let outputs: Vec<Json> = Vec::new();
        let extra: Vec<(String, Json)> = Vec::new();
        let c = Cell {
            id: None,
            cell_type: string_of(chars_of(cell_type).as_slice()),
            metadata: Json::empty_object(),
            source: CellSource::Lines(lines),
            execution_count: if is_code {
                Some(Json::Null)
            } else {
                None
            },
            outputs,
            extra,
        };
        assert(strings_view(lines@) =~= Seq::empty());
        assert(jsons_view(outputs@) =~= Seq::empty());
        assert(pairs_view(extra@) =~= Seq::empty());
        c
    }

    pub fn is_code(&self) -> (r: bool)
        ensures
            r == (self@.cell_type == word_code()),
    {
        let r = str_equal(self.cell_type.as_str(), "code");
        proof {
            reveal_strlit("code");
            assert("code"@ =~= word_code());
        }
        r
    }
}

/// `metadata[k1][k2]` as a string.
pub open spec fn nested_str(meta: JsonV, k1: Seq<char>, k2: Seq<char>) -> Option<Seq<char>> {
    match member(meta, k1) {
        Some(v) => member_str(v, k2),
        None => None,
    }
}

/// The id that `ensure_cell_ids` tries `k`-th (from 1) for the cell at 0-based `i`:
/// `nbedit-{i+1}`, then `nbedit-{i+1}-2`, `nbedit-{i+1}-3`, ...
pub open spec fn candidate_id(i: nat, k: nat) -> Seq<char> {
    let base = "nbedit-"@ + decimal(i + 1);
    if k <= 1 {
        base
    } else {
        base + "-"@ + decimal(k)
    }
}

/// The ids in use when `ensure_cell_ids` reaches cell `i`: every id the
/// notebook had, and the ids of the cells before `i` afterwards.
pub open spec fn ids_in_use(before: Seq<CellV>, after: Seq<CellV>, i: int) -> Set<Seq<char>> {
    Set::new(
        |s: Seq<char>|
            (exists|j: int| 0 <= j < before.len() && before[j].id == Some(s)) || (exists|j: int|
                0 <= j < i && after[j].id == Some(s)),
    )
}

/// `id` is the first of cell `i`'s candidates that is not in `used`.
pub open spec fn first_free_candidate(i: nat, used: Set<Seq<char>>, id: Seq<char>) -> bool {
    exists|k: nat|
        k >= 1 && id == candidate_id(i, k) && !used.contains(id) && forall|j: nat|
            1 <= j < k ==> used.contains(#[trigger] candidate_id(i, j))
}

/// What `ensure_cell_ids` does to the cells.
pub open spec fn ids_ensured(before: Seq<CellV>, after: Seq<CellV>) -> bool {
    &&& after.len() == before.len()
    &&& forall|i: int|
        0 <= i < after.len() ==> (#[trigger] after[i]) == (CellV { id: after[i].id, ..before[i] })
    &&& forall|i: int| 0 <= i < after.len() ==> (#[trigger] after[i]).id is Some
    &&& forall|i: int|
        0 <= i < after.len() && (#[trigger] before[i]).id is Some ==> after[i].id == before[i].id
    &&& forall|i: int|
        0 <= i < after.len() && (#[trigger] before[i]).id is None ==> first_free_candidate(
            i as nat,
            ids_in_use(before, after, i),
            after[i].id->Some_0,
        )
}

pub proof fn lemma_digits_value_decimal(n: nat)
    ensures
        crate::text::digits_value(decimal(n)) == n,
        decimal(n).len() >= 1,
    decreases n,
{
    lemma_digit_char(n % 10);
    let d = decimal(n);
    if n >= 10 {
        lemma_digits_value_decimal(n / 10);
        assert(d == decimal(n / 10).push(crate::text::digit_char(n % 10)));
        assert(d.drop_last() =~= decimal(n / 10));
        assert(d.last() == crate::text::digit_char(n % 10));
        assert(n == (n / 10) * 10 + n % 10);
        assert(crate::text::digits_value(d) == crate::text::digits_value(d.drop_last()) * 10 + ((
        d.last() as nat) - 48) as nat);
    } else {
        assert(d == seq![crate::text::digit_char(n)]);
        assert(d.drop_last() =~= Seq::<char>::empty());
        assert(crate::text::digits_value(d.drop_last()) == 0);
        assert(d.last() == crate::text::digit_char(n));
        assert(crate::text::digits_value(d) == crate::text::digits_value(d.drop_last()) * 10 + ((
        d.last() as nat) - 48) as nat);
    }
}

proof fn lemma_digit_char(d: nat)
    requires
        d < 10,
    ensures
        crate::text::digit_char(d) as nat == d + 48,
{
}

pub proof fn lemma_decimal_injective(a: nat, b: nat)
    requires
        decimal(a) == decimal(b),
    ensures
        a == b,
{
    lemma_digits_value_decimal(a);
    lemma_digits_value_decimal(b);
}

pub proof fn lemma_candidate_injective(i: nat, a: nat, b: nat)
    requires
        a >= 1,
        b >= 1,
        candidate_id(i, a) == candidate_id(i, b),
    ensures
        a == b,
{
    let base = "nbedit-"@ + decimal(i + 1);
    lemma_digits_value_decimal(a);
    lemma_digits_value_decimal(b);
    if a >= 2 && b >= 2 {
        let ca = candidate_id(i, a);
        let pre = (base + "-"@).len();
        assert(ca.skip(pre as int) =~= decimal(a));
        assert(candidate_id(i, b).skip(pre as int) =~= decimal(b));
        lemma_decimal_injective(a, b);
    } else if a >= 2 {
        assert(candidate_id(i, a).len() > base.len());
    } else if b >= 2 {
        assert(candidate_id(i, b).len() > base.len());
    }
}

/// If the candidates `1..=k` are all in `used`, there are at least `k` of them.
proof fn lemma_candidates_bound(i: nat, used: Seq<Seq<char>>, k: nat)
    requires
        forall|j: nat| 1 <= j <= k ==> used.contains(#[trigger] candidate_id(i, j)),
    ensures
        k <= used.len(),
{
    let cs = Seq::new(k, |j: int| candidate_id(i, (j + 1) as nat));
    assert forall|x: int, y: int| 0 <= x < cs.len() && 0 <= y < cs.len() && x != y implies cs[x]
        != cs[y] by {
        if cs[x] == cs[y] {
            lemma_candidate_injective(i, (x + 1) as nat, (y + 1) as nat);
        }
    }
    assert(cs.no_duplicates());
    cs.unique_seq_to_set();
    vstd::seq_lib::seq_to_set_is_finite(used);
    assert forall|x: Seq<char>| cs.to_set().contains(x) implies used.to_set().contains(x) by {
        let j = choose|j: int| 0 <= j < cs.len() && cs[j] == x;
        assert(used.contains(candidate_id(i, (j + 1) as nat)));
    }
    used.lemma_cardinality_of_set();
    vstd::set_lib::lemma_len_subset(cs.to_set(), used.to_set());
}

fn contains_string(v: &Vec<String>, s: &String) -> (r: bool)
    ensures
        r == strings_view(v@).contains(s@),
{
    let mut i: usize = 0;
    while i < v.len()
        invariant
            i <= v@.len(),
            forall|k: int| 0 <= k < i ==> v@[k]@ != s@,
        decreases v.len() - i,
    {
        if v[i] == *s {
            assert(strings_view(v@)[i as int] == s@);
            return true;
        }
        i = i + 1;
    }
    proof {
        if strings_view(v@).contains(s@) {
            let k = choose|k: int| 0 <= k < v@.len() && strings_view(v@)[k] == s@;
            assert(v@[k]@ != s@);
        }
    }
    false
}

/// Cell `i`'s `k`-th candidate id.
fn make_candidate(i: usize, k: usize) -> (r: String)
    requires
        i < usize::MAX,
    ensures
        r@ == candidate_id(i as nat, k as nat),
{
    let mut out: Vec<char> = Vec::new();
    append_str(&mut out, "nbedit-");
    push_decimal(&mut out, i + 1);
    if k > 1 {
        append_str(&mut out, "-");
        push_decimal(&mut out, k);
    }
    string_of(out.as_slice())
}

proof fn lemma_push_contains(v: Seq<Seq<char>>, x: Seq<char>, t: Seq<char>)
    ensures
        v.push(x).contains(t) == (v.contains(t) || t == x),
{
    if v.push(x).contains(t) && t != x {
        let k = choose|k: int| 0 <= k < v.push(x).len() && v.push(x)[k] == t;
        assert(v[k] == t);
    }
    if v.contains(t) {
        let k = choose|k: int| 0 <= k < v.len() && v[k] == t;
        assert(v.push(x)[k] == t);
    }
    if t == x {
        assert(v.push(x)[v.len() as int] == t);
    }
}

proof fn lemma_ids_in_use_prefix(before: Seq<CellV>, a: Seq<CellV>, b: Seq<CellV>, i: int)
    requires
        0 <= i <= a.len(),
        i <= b.len(),
        forall|j: int| 0 <= j < i ==> a[j] == b[j],
    ensures
        ids_in_use(before, a, i) == ids_in_use(before, b, i),
{
    assert forall|s: Seq<char>| ids_in_use(before, a, i).contains(s) implies ids_in_use(
        before,
        b,
        i,
    ).contains(s) by {
        if exists|j: int| 0 <= j < i && a[j].id == Some(s) {
            let j = choose|j: int| 0 <= j < i && a[j].id == Some(s);
            assert(b[j].id == Some(s));
        }
    }
    assert forall|s: Seq<char>| ids_in_use(before, b, i).contains(s) implies ids_in_use(
        before,
        a,
        i,
    ).contains(s) by {
        if exists|j: int| 0 <= j < i && b[j].id == Some(s) {
            let j = choose|j: int| 0 <= j < i && b[j].id == Some(s);
            assert(a[j].id == Some(s));
        }
    }
    assert(ids_in_use(before, a, i) =~= ids_in_use(before, b, i));
}

impl Notebook {
    /// Total number of cells.
    pub fn len(&self) -> (r: usize)
        ensures
            r == self@.cells.len(),
    {
        self.cells.len()
    }

    pub fn is_empty(&self) -> (r: bool)
        ensures
            r == (self@.cells.len() == 0),
    {
        self.cells.len() == 0
    }

    /// Kernel display name from metadata, if present.
    pub fn kernel_name(&self) -> (r: Option<&str>)
        ensures
            match (r, nested_str(self@.metadata, "kernelspec"@, "display_name"@)) {
                (Some(x), Some(y)) => x@ == y,
                (None, None) => true,
                _ => false,
            },
    {
        match self.metadata.get("kernelspec") {
            Some(k) => match k.get_str("display_name") {
                Some(s) => Some(s.as_str()),
                None => None,
            },
            None => None,
        }
    }

    /// Kernel identifier used to resolve a registered kernelspec.
    pub fn kernel_spec_name(&self) -> (r: Option<&str>)
        ensures
            match (r, nested_str(self@.metadata, "kernelspec"@, "name"@)) {
                (Some(x), Some(y)) => x@ == y,
                (None, None) => true,
                _ => false,
            },
    {
        match self.metadata.get("kernelspec") {
            Some(k) => match k.get_str("name") {
                Some(s) => Some(s.as_str()),
                None => None,
            },
            None => None,
        }
    }

    /// Language name from metadata (`kernelspec.language`, else
    /// `language_info.name`), if present.
    pub fn language(&self) -> (r: Option<&str>)
        ensures
            match (
                r,
                match nested_str(self@.metadata, "kernelspec"@, "language"@) {
                    Some(l) => Some(l),
                    None => nested_str(self@.metadata, "language_info"@, "name"@),
                },
            ) {
                (Some(x), Some(y)) => x@ == y,
                (None, None) => true,
                _ => false,
            },
    {
        let first = match self.metadata.get("kernelspec") {
            Some(k) => match k.get_str("language") {
                Some(s) => Some(s.as_str()),
                None => None,
            },
            None => None,
        };
        if first.is_some() {
            return first;
        }
        match self.metadata.get("language_info") {
            Some(k) => match k.get_str("name") {
                Some(s) => Some(s.as_str()),
                None => None,
            },
            None => None,
        }
    }

    /// Adds stable, nbformat-compatible ids to cells that have none, keeping
    /// every id that is already there.
    pub fn ensure_cell_ids(&mut self)
        requires
            old(self).cells@.len() < usize::MAX / 2,
        ensures
            ids_ensured(old(self)@.cells, final(self)@.cells),
            final(self)@ == (NotebookV { cells: final(self)@.cells, ..old(self)@ }),
    {
        let ghost before = self@.cells;
        let n = self.cells.len();
        let mut used: Vec<String> = Vec::new();
        let mut i: usize = 0;
        while i < n
            invariant
                i <= n,
                n == self.cells@.len(),
                before == self@.cells,
                used@.len() <= i,
                forall|s: Seq<char>|
                    strings_view(used@).contains(s) <==> exists|j: int|
                        0 <= j < i && before[j].id == Some(s),
            decreases n - i,
        {
            match &self.cells[i].id {
                Some(id) => {
                    let ghost old_used = strings_view(used@);
                    used.push(id.clone());
                    proof {
                        assert(before[i as int] == self.cells@[i as int]@);
                        assert(before[i as int].id == Some(id@));
                        assert(strings_view(used@) =~= old_used.push(id@));
                        assert forall|t: Seq<char>|
                            strings_view(used@).contains(t) <==> exists|j: int|
                                0 <= j < i + 1 && before[j].id == Some(t) by {
                            lemma_push_contains(old_used, id@, t);
                            if exists|j: int| 0 <= j < i + 1 && before[j].id == Some(t) {
                                let j = choose|j: int| 0 <= j < i + 1 && before[j].id == Some(t);
                                if j < i {
                                    assert(old_used.contains(t));
                                }
                            }
                            if old_used.contains(t) {
                                let j = choose|j: int| 0 <= j < i && before[j].id == Some(t);
                                assert(0 <= j < i + 1 && before[j].id == Some(t));
                            }
                            if t == id@ {
                                assert(0 <= i < i + 1 && before[i as int].id == Some(t));
                            }
                        }
                    }
                },
                None => {},
            }
            i = i + 1;
        }
        // `used` now holds every id the cells already had; assign the missing ones.
        let mut i: usize = 0;
        while i < n
            invariant
                i <= n,
                n == self.cells@.len(),
                n == before.len(),
                n < usize::MAX / 2,
                used@.len() <= n + i,
                forall|s: Seq<char>|
                    strings_view(used@).contains(s) <==> ids_in_use(
                        before,
                        self@.cells,
                        i as int,
                    ).contains(s),
                forall|j: int|
                    i <= j < n ==> (#[trigger] self@.cells[j]) == before[j],
                forall|j: int|
                    0 <= j < i ==> (#[trigger] self@.cells[j]) == (CellV {
                        id: self@.cells[j].id,
                        ..before[j]
                    }),
                forall|j: int| 0 <= j < i ==> (#[trigger] self@.cells[j]).id is Some,
                forall|j: int|
                    0 <= j < i && (#[trigger] before[j]).id is Some ==> self@.cells[j].id
                        == before[j].id,
                forall|j: int|
                    0 <= j < i && (#[trigger] before[j]).id is None ==> first_free_candidate(
                        j as nat,
                        ids_in_use(before, self@.cells, j),
                        self@.cells[j].id->Some_0,
                    ),
                self.nbformat == old(self).nbformat,
                self.nbformat_minor == old(self).nbformat_minor,
                self.metadata@ == old(self).metadata@,
                pairs_view(self.extra@) == pairs_view(old(self).extra@),
            decreases n - i,
        {
            let ghost cells_at = self@.cells;
            if self.cells[i].id.is_some() {
                proof {
                    assert(cells_at[i as int] == self.cells@[i as int]@);
                    assert(cells_at[i as int].id is Some);
                    assert(ids_in_use(before, cells_at, i + 1) =~= ids_in_use(
                        before,
                        cells_at,
                        i as int,
                    )) by {
                        assert forall|s: Seq<char>| ids_in_use(before, cells_at, i + 1).contains(
                            s,
                        ) implies ids_in_use(before, cells_at, i as int).contains(s) by {
                            if exists|j: int| 0 <= j < i + 1 && cells_at[j].id == Some(s) {
                                let j = choose|j: int| 0 <= j < i + 1 && cells_at[j].id == Some(s);
                                if j == i {
                                    assert(before[j].id == Some(s));
                                }
                            }
                        }
                    }
                }
            } else {
                let mut k: usize = 1;
                let mut id = make_candidate(i, k);
                let ghost used_set = ids_in_use(before, cells_at, i as int);
                while contains_string(&used, &id)
                    invariant
                        1 <= k <= used@.len() + 1,
                        i < n,
                        n < usize::MAX / 2,
                        used@.len() <= n + i,
                        id@ == candidate_id(i as nat, k as nat),
                        forall|s: Seq<char>|
                            strings_view(used@).contains(s) <==> used_set.contains(s),
                        forall|j: nat|
                            1 <= j < k ==> used_set.contains(#[trigger] candidate_id(i as nat, j)),
                    decreases used@.len() + 1 - k,
                {
                    proof {
                        assert forall|j: nat| 1 <= j <= k implies strings_view(used@).contains(
                            #[trigger] candidate_id(i as nat, j),
                        ) by {}
                        lemma_candidates_bound(i as nat, strings_view(used@), k as nat);
                    }
                    k = k + 1;
                    id = make_candidate(i, k);
                }
                let ghost old_used = strings_view(used@);
                used.push(id.clone());
                let ghost chosen = id@;
                self.cells[i].id = Some(id);
                proof {
                    assert forall|j: int| 0 <= j < n && j != i implies self@.cells[j]
                        == cells_at[j] by {
                    }
                    assert(self@.cells[i as int] == (CellV {
                        id: Some(chosen),
                        ..cells_at[i as int]
                    }));
                    assert(first_free_candidate(i as nat, used_set, chosen)) by {
                        assert(!used_set.contains(chosen));
                    }
                    lemma_ids_in_use_prefix(before, cells_at, self@.cells, i as int);
                    assert(strings_view(used@) =~= old_used.push(chosen));
                    assert forall|s: Seq<char>|
                        strings_view(used@).contains(s) <==> ids_in_use(
                            before,
                            self@.cells,
                            i + 1,
                        ).contains(s) by {
                        if strings_view(used@).contains(s) && s != chosen {
                            let q = choose|q: int|
                                0 <= q < strings_view(used@).len() && strings_view(used@)[q] == s;
                            assert(old_used[q] == s);
                            assert(used_set.contains(s));
                            if exists|j: int| 0 <= j < i && cells_at[j].id == Some(s) {
                                let j = choose|j: int| 0 <= j < i && cells_at[j].id == Some(s);
                                assert(self@.cells[j].id == Some(s));
                            }
                        }
                        if s == chosen {
                            assert(self@.cells[i as int].id == Some(s));
                            assert(strings_view(used@)[old_used.len() as int] == s);
                        }
                        if ids_in_use(before, self@.cells, i + 1).contains(s) && s != chosen {
                            if exists|j: int| 0 <= j < i + 1 && self@.cells[j].id == Some(s) {
                                let j = choose|j: int|
                                    0 <= j < i + 1 && self@.cells[j].id == Some(s);
                                assert(j != i);
                                assert(cells_at[j].id == Some(s));
                            }
                            assert(used_set.contains(s));
                            assert(old_used.contains(s));
                            let q = choose|q: int| 0 <= q < old_used.len() && old_used[q] == s;
                            assert(strings_view(used@)[q] == s);
                        }
                    }
                    assert forall|j: int|
                        0 <= j < i && (#[trigger] before[j]).id is None implies first_free_candidate(
                        j as nat,
                        ids_in_use(before, self@.cells, j),
                        self@.cells[j].id->Some_0,
                    ) by {
                        lemma_ids_in_use_prefix(before, cells_at, self@.cells, j);
                    }
                }
            }
            assert forall|j: int| 0 <= j < i + 1 implies (#[trigger] self@.cells[j]).id is Some by {
                if j < i {
                    assert(self@.cells[j] == cells_at[j]);
                }
            }
            i = i + 1;
        }
        proof {
            assert forall|j: int|
                0 <= j < n && (#[trigger] before[j]).id is None implies first_free_candidate(
                j as nat,
                ids_in_use(before, self@.cells, j),
                self@.cells[j].id->Some_0,
            ) by {}
        }
    }
}

/// Law: when the ids a notebook already had are distinct, every cell ends
/// up with an id and no two cells share one.
pub proof fn lemma_ensured_ids_distinct(before: Seq<CellV>, after: Seq<CellV>)
    requires
        ids_ensured(before, after),
        forall|a: int, b: int|
            0 <= a < b < before.len() && before[a].id is Some ==> before[a].id != before[b].id,
    ensures
        forall|i: int| 0 <= i < after.len() ==> (#[trigger] after[i]).id is Some,
        forall|a: int, b: int| 0 <= a < b < after.len() ==> after[a].id != after[b].id,
{
    assert forall|a: int, b: int| 0 <= a < b < after.len() implies after[a].id != after[b].id by {
        assert(after[a].id is Some && after[b].id is Some);
        if before[b].id is None {
            let u = ids_in_use(before, after, b);
            assert(first_free_candidate(b as nat, u, after[b].id->Some_0));
            assert(u.contains(after[a].id->Some_0));
        } else if before[a].id is None {
            let u = ids_in_use(before, after, a);
            assert(first_free_candidate(a as nat, u, after[a].id->Some_0));
            assert(after[b].id == before[b].id);
            assert(u.contains(after[b].id->Some_0));
        }
    }
}

/// Law: a source written with `set_source` reads back unchanged.
pub proof fn lemma_set_source_roundtrip(src: Seq<char>)
    ensures
        source_text(SourceV::Lines(split_incl(src))) == src,
{
    crate::text::lemma_flatten_split_incl(src);
}

// ---------------------------------------------------------------------------
// The serialised form
// ---------------------------------------------------------------------------
/// How nbformat writes a source: an array of line strings, or one string.
pub open spec fn source_json(s: SourceV) -> JsonV {
    match s {
        SourceV::Lines(v) => JsonV::Array(v.map_values(|l: Seq<char>| JsonV::Str(l))),
        SourceV::Single(t) => JsonV::Str(t),
    }
}

/// The members of a cell in the order they are written: `id` when there is
/// one, `cell_type`, `execution_count` (code cells only; `null` when unset),
/// `metadata`, `outputs` (code cells only), `source`, then the members that
/// nbedit does not interpret.
pub open spec fn cell_members(c: CellV) -> Seq<(Seq<char>, JsonV)> {
    let is_code = c.cell_type == word_code();
    let id_part: Seq<(Seq<char>, JsonV)> = match c.id {
        Some(i) => seq![("id"@, JsonV::Str(i))],
        None => Seq::empty(),
    };
    let count_part: Seq<(Seq<char>, JsonV)> = if is_code {
        seq![
            ("execution_count"@, match c.execution_count {
                Some(v) => v,
                None => JsonV::Null,
            }),
        ]
    } else {
        Seq::empty()
    };
    let outputs_part: Seq<(Seq<char>, JsonV)> = if is_code {
        seq![("outputs"@, JsonV::Array(c.outputs))]
    } else {
        Seq::empty()
    };
    id_part + seq![("cell_type"@, JsonV::Str(c.cell_type))] + count_part + seq![
        ("metadata"@, c.metadata),
    ] + outputs_part + seq![("source"@, source_json(c.source))] + c.extra
}

/// The members of a notebook in the order they are written: the format
/// numbers, the metadata, the cells, then the other top-level members.
pub open spec fn notebook_members(nb: NotebookV) -> Seq<(Seq<char>, JsonV)> {
    seq![
        ("nbformat"@, JsonV::Number(decimal(nb.nbformat as nat))),
        ("nbformat_minor"@, JsonV::Number(decimal(nb.nbformat_minor as nat))),
        ("metadata"@, nb.metadata),
        ("cells"@, JsonV::Array(nb.cells.map_values(|c: CellV| JsonV::Object(cell_members(c))))),
    ] + nb.extra
}

fn push_member(out: &mut Vec<(String, Json)>, key: &str, value: Json)
    ensures
        pairs_view(final(out)@) == pairs_view(old(out)@).push((key@, value@)),
{
    let ghost before = pairs_view(out@);
    out.push((key.to_owned(), value));
    assert(pairs_view(out@) =~= before.push((key@, value@)));
}

fn append_members(out: &mut Vec<(String, Json)>, extra: &Vec<(String, Json)>)
    ensures
        pairs_view(final(out)@) == pairs_view(old(out)@) + pairs_view(extra@),
{
    let ghost start = pairs_view(out@);
    let mut i: usize = 0;
    while i < extra.len()
        invariant
            i <= extra@.len(),
            pairs_view(out@) == start + pairs_view(extra@).take(i as int),
        decreases extra.len() - i,
    {
        let ghost before = pairs_view(out@);
        out.push((extra[i].0.clone(), extra[i].1.duplicate()));
        assert(pairs_view(out@) =~= before.push((extra@[i as int].0@, extra@[i as int].1@)));
        assert(pairs_view(extra@).take(i + 1) =~= pairs_view(extra@).take(i as int).push(
            (extra@[i as int].0@, extra@[i as int].1@),
        ));
        i = i + 1;
    }
    assert(pairs_view(extra@).take(extra@.len() as int) =~= pairs_view(extra@));
}

impl CellSource {
    /// The source as nbformat writes it.
    pub fn to_json(&self) -> (r: Json)
        ensures
            r@ == source_json(self@),
    {
        match self {
            CellSource::Lines(v) => {
                let mut out: Vec<Json> = Vec::new();
                let mut i: usize = 0;
                while i < v.len()
                    invariant
                        i <= v@.len(),
                        out@.len() == i,
                        forall|k: int| 0 <= k < i ==> (#[trigger] out@[k])@ == JsonV::Str(v@[k]@),
                    decreases v.len() - i,
                {
                    out.push(Json::Str(v[i].clone()));
                    i = i + 1;
                }
                proof {
                    lemma_view_array(out);
                    assert(out@.map_values(|x: Json| x@) =~= strings_view(v@).map_values(
                        |l: Seq<char>| JsonV::Str(l),
                    ));
                }
                Json::Array(out)
            },
            CellSource::Single(s) => Json::Str(s.clone()),
        }
    }
}

impl Cell {
    /// The cell as nbformat writes it (see [`cell_members`]).
    pub fn to_json(&self) -> (r: Json)
        ensures
            r@ == JsonV::Object(cell_members(self@)),
    {
        let is_code = self.is_code();
        let mut out: Vec<(String, Json)> = Vec::new();
        proof {
            assert(pairs_view(out@) =~= Seq::<(Seq<char>, JsonV)>::empty());
            reveal_strlit("id");
            reveal_strlit("cell_type");
            reveal_strlit("execution_count");
            reveal_strlit("metadata");
            reveal_strlit("outputs");
            reveal_strlit("source");
        }
        if let Some(id) = &self.id {
            push_member(&mut out, "id", Json::Str(id.clone()));
        }
        push_member(&mut out, "cell_type", Json::Str(self.cell_type.clone()));
        if is_code {
            let count = match &self.execution_count {
                Some(v) => v.duplicate(),
                None => Json::Null,
            };
            push_member(&mut out, "execution_count", count);
        }
        push_member(&mut out, "metadata", self.metadata.duplicate());
        if is_code {
            let outputs = copy_jsons(&self.outputs);
            proof {
                lemma_view_array(outputs);
                assert(outputs@.map_values(|x: Json| x@) =~= jsons_view(outputs@));
            }
            push_member(&mut out, "outputs", Json::Array(outputs));
        }
        push_member(&mut out, "source", self.source.to_json());
        append_members(&mut out, &self.extra);
        proof {
            lemma_view_object(out);
            assert(out@.map_values(|p: (String, Json)| (p.0@, p.1@)) =~= pairs_view(out@));
            assert(pairs_view(out@) =~= cell_members(self@));
        }
        Json::Object(out)
    }
}

impl Notebook {
    /// The notebook as nbformat writes it (see [`notebook_members`]).
    pub fn to_json(&self) -> (r: Json)
        ensures
            r@ == JsonV::Object(notebook_members(self@)),
    {
        let mut cells: Vec<Json> = Vec::new();
        let mut i: usize = 0;
        while i < self.cells.len()
            invariant
                i <= self.cells@.len(),
                cells@.len() == i,
                forall|k: int|
                    0 <= k < i ==> (#[trigger] cells@[k])@ == JsonV::Object(
                        cell_members(self.cells@[k]@),
                    ),
            decreases self.cells.len() - i,
        {
            cells.push(self.cells[i].to_json());
            i = i + 1;
        }
        let mut out: Vec<(String, Json)> = Vec::new();
        proof {
            assert(pairs_view(out@) =~= Seq::<(Seq<char>, JsonV)>::empty());
            reveal_strlit("nbformat");
            reveal_strlit("nbformat_minor");
            reveal_strlit("metadata");
            reveal_strlit("cells");
            lemma_view_array(cells);
            assert(cells@.map_values(|x: Json| x@) =~= cells_view(self.cells@).map_values(
                |c: CellV| JsonV::Object(cell_members(c)),
            ));
        }
        let major = string_of(crate::text::decimal_chars(self.nbformat as usize).as_slice());
        let minor = string_of(crate::text::decimal_chars(self.nbformat_minor as usize).as_slice());
        push_member(&mut out, "nbformat", Json::Number(major));
        push_member(&mut out, "nbformat_minor", Json::Number(minor));
        push_member(&mut out, "metadata", self.metadata.duplicate());
        push_member(&mut out, "cells", Json::Array(cells));
        append_members(&mut out, &self.extra);
        proof {
            lemma_view_object(out);
            assert(out@.map_values(|p: (String, Json)| (p.0@, p.1@)) =~= pairs_view(out@));
            assert(pairs_view(out@) =~= notebook_members(self@));
        }
        Json::Object(out)
    }
}

} // verus!
