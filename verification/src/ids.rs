//! Cell ids: renaming, references between cells, duplicates, validation and
//! repair, and the bookmarks that name cells by id.
use crate::json::{
    key_index, lemma_key_index_bounds, lemma_view_object, member, pairs_view, remove_member, set_member, with_member,
    without_member, Json, JsonV,
};
use crate::notebook::{
    cells_view, ids_ensured, opt_string_view, source_text, word_code, Cell, CellV, Notebook,
    NotebookV,
};
use crate::ops::{is_known_type, with_cells, OpError, OpFault};
use crate::text::{append_str, chars_of, contains_chars, contains_seq, decimal, push_decimal, str_equal, string_of};
use vstd::prelude::*;

verus! {

// ---------------------------------------------------------------------------
// Id syntax and lookup
// ---------------------------------------------------------------------------
/// A character allowed in a cell id: an ASCII letter or digit, `-` or `_`.
pub open spec fn is_id_char(c: char) -> bool {
    ('a' <= c && c <= 'z') || ('A' <= c && c <= 'Z') || ('0' <= c && c <= '9') || c == '-'
        || c == '_'
}

/// A cell id that `rename-id` accepts: 1 to 64 id characters.
pub open spec fn valid_cell_id(s: Seq<char>) -> bool {
    1 <= s.len() <= 64 && forall|i: int| 0 <= i < s.len() ==> is_id_char(#[trigger] s[i])
}

pub fn is_valid_cell_id(s: &str) -> (r: bool)
    ensures
        r == valid_cell_id(s@),
{
    let cs = chars_of(s);
    if cs.len() == 0 || cs.len() > 64 {
        return false;
    }
    let mut i: usize = 0;
    while i < cs.len()
        invariant
            i <= cs@.len(),
            cs@ == s@,
            forall|k: int| 0 <= k < i ==> is_id_char(#[trigger] cs@[k]),
        decreases cs.len() - i,
    {
        let c = cs[i];
        let ok = ('a' <= c && c <= 'z') || ('A' <= c && c <= 'Z') || ('0' <= c && c <= '9') || c
            == '-' || c == '_';
        if !ok {
            assert(!is_id_char(cs@[i as int]));
            return false;
        }
        i = i + 1;
    }
    true
}

/// Whether the cell's id is `id`.
pub fn has_id(c: &Cell, id: &str) -> (r: bool)
    ensures
        r == (c@.id == Some(id@)),
{
    match &c.id {
        Some(x) => str_equal(x.as_str(), id),
        None => false,
    }
}

/// Some cell has id `id`.
pub open spec fn some_cell_has_id(cs: Seq<CellV>, id: Seq<char>) -> bool {
    exists|i: int| 0 <= i < cs.len() && (#[trigger] cs[i]).id == Some(id)
}

/// The position of the first cell with id `id`.
pub fn position_of_id(cells: &Vec<Cell>, id: &str) -> (r: Option<usize>)
    ensures
        match r {
            Some(k) => k < cells@.len() && cells_view(cells@)[k as int].id == Some(id@) && forall|
                j: int,
            |
                0 <= j < k ==> (#[trigger] cells_view(cells@)[j]).id != Some(id@),
            None => !some_cell_has_id(cells_view(cells@), id@),
        },
{
    let mut i: usize = 0;
    while i < cells.len()
        invariant
            i <= cells@.len(),
            forall|j: int| 0 <= j < i ==> (#[trigger] cells_view(cells@)[j]).id != Some(id@),
        decreases cells.len() - i,
    {
        if has_id(&cells[i], id) {
            return Some(i);
        }
        i = i + 1;
    }
    None
}

// ---------------------------------------------------------------------------
// rename-id
// ---------------------------------------------------------------------------
/// `rename-id`: gives the cell with id `old_id` the id `new_id`; returns its
/// 0-based position.
pub fn rename_cell_id(nb: &mut Notebook, old_id: &str, new_id: &str) -> (r: Result<usize, OpError>)
    ensures
        ({
            let cs = old(nb)@.cells;
            if !valid_cell_id(new_id@) {
                r matches Err(e) && e@ == OpFault::InvalidCellId && final(nb)@ == old(nb)@
            } else if some_cell_has_id(cs, new_id@) {
                r matches Err(e) && e@ == OpFault::DuplicateCellId(new_id@) && final(nb)@ == old(
                    nb,
                )@
            } else if !some_cell_has_id(cs, old_id@) {
                r matches Err(e) && e@ == OpFault::UnknownCellId(old_id@) && final(nb)@ == old(
                    nb,
                )@
            } else {
                r matches Ok(k) && k < cs.len() && cs[k as int].id == Some(old_id@) && (forall|
                    j: int,
                |
                    0 <= j < k ==> (#[trigger] cs[j]).id != Some(old_id@)) && final(nb)@
                    == with_cells(
                    old(nb)@,
                    cs.update(k as int, CellV { id: Some(new_id@), ..cs[k as int] }),
                )
            }
        }),
{
    if !is_valid_cell_id(new_id) {
        return Err(OpError::InvalidCellId);
    }
    if position_of_id(&nb.cells, new_id).is_some() {
        return Err(OpError::DuplicateCellId(new_id.to_owned()));
    }
    match position_of_id(&nb.cells, old_id) {
        None => Err(OpError::UnknownCellId(old_id.to_owned())),
        Some(k) => {
            let ghost before = nb@.cells;
            nb.cells[k].id = Some(new_id.to_owned());
            assert(nb@.cells =~= before.update(
                k as int,
                CellV { id: Some(new_id@), ..before[k as int] },
            ));
            Ok(k)
        },
    }
}

// ---------------------------------------------------------------------------
// refs
// ---------------------------------------------------------------------------
/// Cell `i` mentions id `id` in its source, and is not that cell itself.
pub open spec fn refers_to(c: CellV, id: Seq<char>) -> bool {
    c.id != Some(id) && contains_seq(source_text(c.source), id)
}

/// The 1-based positions of the cells among `cs` that refer to `id`, in order.
pub open spec fn referring_cells(cs: Seq<CellV>, id: Seq<char>) -> Seq<nat>
    decreases cs.len(),
{
    if cs.len() == 0 {
        Seq::empty()
    } else if refers_to(cs.last(), id) {
        referring_cells(cs.drop_last(), id).push(cs.len())
    } else {
        referring_cells(cs.drop_last(), id)
    }
}

/// `refs`: the 1-based positions of the cells whose source mentions the id
/// `cell_id` (the cell that has it left out); the id must exist.
pub fn find_cell_references(nb: &Notebook, cell_id: &str) -> (r: Result<Vec<usize>, OpError>)
    ensures
        if !some_cell_has_id(nb@.cells, cell_id@) {
            r matches Err(e) && e@ == OpFault::UnknownCellId(cell_id@)
        } else {
            r matches Ok(v) && v@.map_values(|i: usize| i as nat) == referring_cells(
                nb@.cells,
                cell_id@,
            )
        },
{
    if position_of_id(&nb.cells, cell_id).is_none() {
        return Err(OpError::UnknownCellId(cell_id.to_owned()));
    }
    let needle = chars_of(cell_id);
    let ghost cs = nb@.cells;
    let mut out: Vec<usize> = Vec::new();
    let mut i: usize = 0;
    while i < nb.cells.len()
        invariant
            i <= cs.len(),
            cs == nb@.cells,
            cs.len() == nb.cells@.len(),
            needle@ == cell_id@,
            out@.map_values(|k: usize| k as nat) == referring_cells(cs.take(i as int), cell_id@),
        decreases nb.cells.len() - i,
    {
        assert(cs.take(i + 1).drop_last() =~= cs.take(i as int));
        let cell = &nb.cells[i];
        let own = has_id(cell, cell_id);
        let src = cell.source_str();
        let text = chars_of(src.as_str());
        let ghost before = out@;
        if !own && contains_chars(text.as_slice(), needle.as_slice()) {
            out.push(i + 1);
            assert(out@.map_values(|k: usize| k as nat) =~= before.map_values(|k: usize| k as nat).push(
                (i + 1) as nat,
            ));
        }
        i = i + 1;
    }
    assert(cs.take(cs.len() as int) =~= cs);
    Ok(out)
}

// ---------------------------------------------------------------------------
// Duplicated ids
// ---------------------------------------------------------------------------
/// Cell `i` has an id that an earlier cell already has.
pub open spec fn repeats_earlier_id(cs: Seq<CellV>, i: int) -> bool {
    cs[i].id is Some && exists|j: int| 0 <= j < i && (#[trigger] cs[j]).id == cs[i].id
}

fn same_id(a: &Option<String>, b: &Option<String>) -> (r: bool)
    ensures
        r == (opt_string_view(*a) == opt_string_view(*b)),
{
    match (a, b) {
        (Some(x), Some(y)) => str_equal(x.as_str(), y.as_str()),
        (None, None) => true,
        _ => false,
    }
}

/// Whether cell `i` repeats the id of an earlier cell.
pub fn repeats_id(cells: &Vec<Cell>, i: usize) -> (r: bool)
    requires
        i < cells@.len(),
    ensures
        r == repeats_earlier_id(cells_view(cells@), i as int),
{
    if cells[i].id.is_none() {
        return false;
    }
    let mut j: usize = 0;
    while j < i
        invariant
            i < cells@.len(),
            j <= i,
            cells_view(cells@)[i as int].id is Some,
            forall|k: int| 0 <= k < j ==> (#[trigger] cells_view(cells@)[k]).id != cells_view(
                cells@,
            )[i as int].id,
        decreases i - j,
    {
        if same_id(&cells[j].id, &cells[i].id) {
            assert(cells_view(cells@)[j as int].id == cells_view(cells@)[i as int].id);
            return true;
        }
        j = j + 1;
    }
    false
}

/// `ids`: for each cell, whether its id repeats one of an earlier cell.
pub fn duplicate_id_flags(nb: &Notebook) -> (r: Vec<bool>)
    ensures
        r@.len() == nb@.cells.len(),
        forall|i: int| 0 <= i < r@.len() ==> r@[i] == repeats_earlier_id(nb@.cells, i),
{
    let mut out: Vec<bool> = Vec::new();
    let mut i: usize = 0;
    while i < nb.cells.len()
        invariant
            i <= nb.cells@.len(),
            out@.len() == i,
            forall|k: int| 0 <= k < i ==> out@[k] == repeats_earlier_id(nb@.cells, k),
        decreases nb.cells.len() - i,
    {
        out.push(repeats_id(&nb.cells, i));
        i = i + 1;
    }
    out
}

// ---------------------------------------------------------------------------
// validate and repair
// ---------------------------------------------------------------------------
/// The problems `validate` reports for cell `i` (0-based), in order; with
/// `name_types` the unsupported type is named.
pub open spec fn cell_issues(cs: Seq<CellV>, i: int, name_types: bool) -> Seq<Seq<char>> {
    let n = decimal((i + 1) as nat);
    let kind: Seq<Seq<char>> = if is_known_type(cs[i].cell_type) {
        Seq::empty()
    } else if name_types {
        seq!["Cell "@ + n + " has unsupported type '"@ + cs[i].cell_type + "'"@]
    } else {
        seq!["Cell "@ + n + " has unsupported type"@]
    };
    let id: Seq<Seq<char>> = if cs[i].id is None {
        seq!["Cell "@ + n + " has no ID"@]
    } else if repeats_earlier_id(cs, i) {
        seq!["Cell "@ + n + " duplicates an ID"@]
    } else {
        Seq::empty()
    };
    kind + id
}

/// The problems of the first `n` cells, in order.
pub open spec fn issues_upto(cs: Seq<CellV>, n: int, name_types: bool) -> Seq<Seq<char>>
    decreases n,
{
    if n <= 0 {
        Seq::empty()
    } else {
        issues_upto(cs, n - 1, name_types) + cell_issues(cs, n - 1, name_types)
    }
}

/// `validate`: every problem found, in cell order; none means valid. The
/// command line names unsupported types (`name_types`); the tool does not.
pub fn validation_issues(nb: &Notebook, name_types: bool) -> (r: Vec<String>)
    ensures
        r@.map_values(|s: String| s@) == issues_upto(
            nb@.cells,
            nb@.cells.len() as int,
            name_types,
        ),
{
    let ghost cs = nb@.cells;
    let mut out: Vec<String> = Vec::new();
    let mut i: usize = 0;
    while i < nb.cells.len()
        invariant
            i <= cs.len(),
            cs == nb@.cells,
            cs.len() == nb.cells@.len(),
            out@.map_values(|s: String| s@) == issues_upto(cs, i as int, name_types),
        decreases nb.cells.len() - i,
    {
        let ghost before = out@.map_values(|s: String| s@);
        let cell = &nb.cells[i];
        let mut kind: Vec<String> = Vec::new();
        if !crate::ops::is_known_type_str(cell.cell_type.as_str()) {
            let mut m: Vec<char> = Vec::new();
            append_str(&mut m, "Cell ");
            push_decimal(&mut m, i + 1);
            if name_types {
                append_str(&mut m, " has unsupported type '");
                append_str(&mut m, cell.cell_type.as_str());
                append_str(&mut m, "'");
            } else {
                append_str(&mut m, " has unsupported type");
            }
            kind.push(string_of(m.as_slice()));
        }
        let mut id: Vec<String> = Vec::new();
        if cell.id.is_none() {
            let mut m: Vec<char> = Vec::new();
            append_str(&mut m, "Cell ");
            push_decimal(&mut m, i + 1);
            append_str(&mut m, " has no ID");
            id.push(string_of(m.as_slice()));
        } else if repeats_id(&nb.cells, i) {
            let mut m: Vec<char> = Vec::new();
            append_str(&mut m, "Cell ");
            push_decimal(&mut m, i + 1);
            append_str(&mut m, " duplicates an ID");
            id.push(string_of(m.as_slice()));
        }
        proof {
            assert(kind@.map_values(|s: String| s@) + id@.map_values(|s: String| s@)
                =~= cell_issues(cs, i as int, name_types));
        }
        let ghost kv = kind@.map_values(|s: String| s@);
        let ghost iv = id@.map_values(|s: String| s@);
        out.append(&mut kind);
        out.append(&mut id);
        proof {
            assert(out@.map_values(|s: String| s@) =~= before + kv + iv);
        }
        i = i + 1;
    }
    out
}

/// What `repair` does to cell `i` before ids are assigned: a repeated id is
/// dropped, non-object metadata becomes `{}`, a code cell gets an execution
/// count.
pub open spec fn repaired(cs: Seq<CellV>, i: int) -> CellV {
    let c = cs[i];
    CellV {
        id: if repeats_earlier_id(cs, i) {
            None
        } else {
            c.id
        },
        metadata: if c.metadata is Object {
            c.metadata
        } else {
            JsonV::Object(Seq::empty())
        },
        execution_count: if c.cell_type == word_code() && c.execution_count is None {
            Some(JsonV::Null)
        } else {
            c.execution_count
        },
        ..c
    }
}

/// `repair`: drops repeated ids, fixes metadata and execution counts, then
/// gives every cell an id.
pub fn repair_notebook(nb: &mut Notebook)
    requires
        old(nb)@.cells.len() < usize::MAX / 2,
    ensures
        final(nb)@ == with_cells(old(nb)@, final(nb)@.cells),
        ids_ensured(
            Seq::new(old(nb)@.cells.len(), |i: int| repaired(old(nb)@.cells, i)),
            final(nb)@.cells,
        ),
{
    let ghost cs = nb@.cells;
    let n = nb.cells.len();
    let flags = duplicate_id_flags(nb);
    let mut i: usize = 0;
    while i < n
        invariant
            i <= n,
            n == cs.len(),
            nb.cells@.len() == n,
            flags@.len() == n,
            forall|k: int| 0 <= k < n ==> flags@[k] == repeats_earlier_id(cs, k),
            nb@ == with_cells(old(nb)@, nb@.cells),
            cs == old(nb)@.cells,
            forall|k: int| 0 <= k < i ==> #[trigger] nb@.cells[k] == repaired(cs, k),
            forall|k: int| i <= k < n ==> #[trigger] nb@.cells[k] == cs[k],
        decreases n - i,
    {
        let ghost at = nb@.cells;
        let ghost c0 = cs[i as int];
        assert(at[i as int] == c0);
        if flags[i] {
            nb.cells[i].id = None;
        }
        assert(nb@.cells[i as int] == (CellV { id: repaired(cs, i as int).id, ..c0 }));
        if !nb.cells[i].metadata.is_object() {
            nb.cells[i].metadata = Json::empty_object();
        }
        assert(nb@.cells[i as int] == (CellV {
            id: repaired(cs, i as int).id,
            metadata: repaired(cs, i as int).metadata,
            ..c0
        }));
        if nb.cells[i].is_code() && nb.cells[i].execution_count.is_none() {
            nb.cells[i].execution_count = Some(Json::Null);
        }
        proof {
            assert(nb@.cells[i as int] == repaired(cs, i as int));
            assert forall|k: int| 0 <= k < n && k != i implies #[trigger] nb@.cells[k] == at[k] by {}
        }
        i = i + 1;
    }
    assert(nb@.cells =~= Seq::new(cs.len(), |i: int| repaired(cs, i)));
    nb.ensure_cell_ids();
}

/// Law: after `repair` every cell has an id and no two cells share one.
pub proof fn lemma_repair_gives_distinct_ids(cs: Seq<CellV>, after: Seq<CellV>)
    requires
        ids_ensured(Seq::new(cs.len(), |i: int| repaired(cs, i)), after),
    ensures
        forall|i: int| 0 <= i < after.len() ==> (#[trigger] after[i]).id is Some,
        forall|a: int, b: int| 0 <= a < b < after.len() ==> after[a].id != after[b].id,
{
    let before = Seq::new(cs.len(), |i: int| repaired(cs, i));
    assert forall|a: int, b: int|
        0 <= a < b < before.len() && before[a].id is Some implies before[a].id != before[b].id by {
        if before[a].id == before[b].id {
            assert(before[a] == repaired(cs, a));
            assert(before[b] == repaired(cs, b));
            assert(!repeats_earlier_id(cs, b));
            assert(cs[b].id == before[b].id);
            assert(cs[a].id == before[a].id);
            assert(cs[a].id == cs[b].id);
        }
    }
    crate::notebook::lemma_ensured_ids_distinct(before, after);
}

// ---------------------------------------------------------------------------
// Bookmarks (metadata.nbedit.bookmarks: name -> cell id)
// ---------------------------------------------------------------------------
/// The members of object member `key` of `ps`: those of an empty object when
/// it is absent, `None` when it is not an object.
pub open spec fn object_member(ps: Seq<(Seq<char>, JsonV)>, key: Seq<char>) -> Option<
    Seq<(Seq<char>, JsonV)>,
> {
    match key_index(ps, key) {
        None => Some(Seq::empty()),
        Some(k) => match ps[k].1 {
            JsonV::Object(q) => Some(q),
            _ => None,
        },
    }
}

/// A copy of the members of object member `key`, as [`object_member`] says.
fn object_member_pairs(pairs: &Vec<(String, Json)>, key: &str) -> (r: Option<Vec<(String, Json)>>)
    ensures
        match (r, object_member(pairs_view(pairs@), key@)) {
            (Some(v), Some(q)) => pairs_view(v@) == q,
            (None, None) => true,
            _ => false,
        },
{
    match crate::json::find_key(pairs, key) {
        None => {
            let v: Vec<(String, Json)> = Vec::new();
            assert(pairs_view(v@) =~= Seq::empty());
            Some(v)
        },
        Some(k) => match &pairs[k].1 {
            Json::Object(q) => {
                proof {
                    lemma_view_object(*q);
                }
                Some(crate::notebook::copy_pairs(q))
            },
            _ => None,
        },
    }
}

/// The bookmark map after `bookmark set`, if the metadata has room for it.
pub open spec fn bookmark_set_metadata(meta: JsonV, name: Seq<char>, id: Seq<char>) -> Option<
    JsonV,
> {
    match meta {
        JsonV::Object(ps) => match object_member(ps, "nbedit"@) {
            Some(ps2) => match object_member(ps2, "bookmarks"@) {
                Some(ps3) => Some(
                    JsonV::Object(
                        with_member(
                            ps,
                            "nbedit"@,
                            JsonV::Object(
                                with_member(
                                    ps2,
                                    "bookmarks"@,
                                    JsonV::Object(with_member(ps3, name, JsonV::Str(id))),
                                ),
                            ),
                        ),
                    ),
                ),
                None => None,
            },
            None => None,
        },
        _ => None,
    }
}

/// `bookmark set`: names cell `index` (1-based) by its id, giving every cell
/// an id first.
pub fn set_bookmark(nb: &mut Notebook, name: &str, index: usize) -> (r: Result<(), OpError>)
    requires
        old(nb)@.cells.len() < usize::MAX / 2,
    ensures
        ({
            let cs = old(nb)@.cells;
            let meta = old(nb)@.metadata;
            if index == 0 || index > cs.len() {
                r matches Err(e) && e@ == OpFault::CellOutsideRange(index as nat) && final(nb)@
                    == old(nb)@
            } else if !(meta is Object) {
                r matches Err(e) && e@ == OpFault::MetadataNotObject && final(nb)@ == old(nb)@
            } else if object_member(meta->Object_0, "nbedit"@) is None {
                r matches Err(e) && e@ == OpFault::NbeditNotObject && final(nb)@ == old(nb)@
            } else if object_member(
                object_member(meta->Object_0, "nbedit"@)->Some_0,
                "bookmarks"@,
            ) is None {
                r matches Err(e) && e@ == OpFault::BookmarksNotObject && final(nb)@ == old(nb)@
            } else {
                &&& r is Ok
                &&& ids_ensured(cs, final(nb)@.cells)
                &&& final(nb)@.cells[index - 1].id is Some
                &&& final(nb)@ == (NotebookV {
                    cells: final(nb)@.cells,
                    metadata: bookmark_set_metadata(
                        meta,
                        name@,
                        final(nb)@.cells[index - 1].id->Some_0,
                    )->Some_0,
                    ..old(nb)@
                })
            }
        }),
{
    let n = nb.cells.len();
    if index == 0 || index > n {
        return Err(OpError::CellOutsideRange { cell: index });
    }
    let mut nbedit = match &nb.metadata {
        Json::Object(ps) => {
            proof {
                lemma_view_object(*ps);
            }
            match object_member_pairs(ps, "nbedit") {
                Some(v) => v,
                None => {
                    return Err(OpError::NbeditNotObject);
                },
            }
        },
        _ => {
            return Err(OpError::MetadataNotObject);
        },
    };
    let mut bookmarks = match object_member_pairs(&nbedit, "bookmarks") {
        Some(v) => v,
        None => {
            return Err(OpError::BookmarksNotObject);
        },
    };
    nb.ensure_cell_ids();
    let id = match &nb.cells[index - 1].id {
        Some(s) => s.clone(),
        None => {
            proof {
                assert(nb@.cells[index - 1].id is Some);
            }
            return Err(OpError::CellOutsideRange { cell: index });
        },
    };
    set_member(&mut bookmarks, name.to_owned(), Json::Str(id));
    let bm = Json::Object(bookmarks);
    proof {
        lemma_view_object(bookmarks);
    }
    set_member(&mut nbedit, "bookmarks".to_owned(), bm);
    let nv = Json::Object(nbedit);
    proof {
        lemma_view_object(nbedit);
    }
    let mut meta = Json::Null;
    std::mem::swap(&mut meta, &mut nb.metadata);
    match meta {
        Json::Object(mut ps) => {
            proof {
                lemma_view_object(ps);
            }
            set_member(&mut ps, "nbedit".to_owned(), nv);
            proof {
                lemma_view_object(ps);
            }
            nb.metadata = Json::Object(ps);
        },
        _ => {
            nb.metadata = meta;
        },
    }
    Ok(())
}

proof fn lemma_member_with_member(ps: Seq<(Seq<char>, JsonV)>, key: Seq<char>, v: JsonV)
    ensures
        member(JsonV::Object(with_member(ps, key, v)), key) == Some(v),
{
    crate::json::lemma_key_index_bounds(ps, key);
    let q = with_member(ps, key, v);
    match key_index(ps, key) {
        Some(i) => {
            assert forall|j: int| 0 <= j < i implies q[j].0 != key by {
                assert(q[j] == ps[j]);
            }
            crate::json::lemma_key_index(q, key, i);
        },
        None => {
            crate::json::lemma_key_index_absent(ps, key);
            assert forall|j: int| 0 <= j < ps.len() implies q[j].0 != key by {
                assert(q[j] == ps[j]);
            }
            crate::json::lemma_key_index(q, key, ps.len() as int);
        },
    }
}

/// Law: after `bookmark set`, the bookmark list gives the cell's id under
/// the name.
pub proof fn lemma_bookmark_set_then_list(meta: JsonV, name: Seq<char>, id: Seq<char>)
    requires
        bookmark_set_metadata(meta, name, id) is Some,
    ensures
        member(bookmarks_of(bookmark_set_metadata(meta, name, id)->Some_0), name) == Some(
            JsonV::Str(id),
        ),
{
    let ps = meta->Object_0;
    let ps2 = object_member(ps, "nbedit"@)->Some_0;
    let ps3 = object_member(ps2, "bookmarks"@)->Some_0;
    let b = JsonV::Object(with_member(ps3, name, JsonV::Str(id)));
    let n = JsonV::Object(with_member(ps2, "bookmarks"@, b));
    lemma_member_with_member(ps, "nbedit"@, n);
    lemma_member_with_member(ps2, "bookmarks"@, b);
    lemma_member_with_member(ps3, name, JsonV::Str(id));
}

/// The bookmark object: `metadata.nbedit.bookmarks`, or `{}` when absent.
pub open spec fn bookmarks_of(meta: JsonV) -> JsonV {
    match member(meta, "nbedit"@) {
        Some(v) => match member(v, "bookmarks"@) {
            Some(b) => b,
            None => JsonV::Object(Seq::empty()),
        },
        None => JsonV::Object(Seq::empty()),
    }
}

/// `bookmark list`: the bookmark object.
pub fn bookmarks_value(nb: &Notebook) -> (r: Json)
    ensures
        r@ == bookmarks_of(nb@.metadata),
{
    match nb.metadata.get("nbedit") {
        Some(v) => match v.get("bookmarks") {
            Some(b) => b.duplicate(),
            None => Json::empty_object(),
        },
        None => Json::empty_object(),
    }
}

/// The metadata after `bookmark remove name`, if there is a bookmark object.
pub open spec fn bookmark_removed_metadata(meta: JsonV, name: Seq<char>) -> Option<JsonV> {
    match meta {
        JsonV::Object(ps) => match key_index(ps, "nbedit"@) {
            Some(k) => match ps[k].1 {
                JsonV::Object(ps2) => match key_index(ps2, "bookmarks"@) {
                    Some(k2) => match ps2[k2].1 {
                        JsonV::Object(ps3) => Some(
                            JsonV::Object(
                                ps.update(
                                    k,
                                    (
                                        "nbedit"@,
                                        JsonV::Object(
                                            ps2.update(
                                                k2,
                                                (
                                                    "bookmarks"@,
                                                    JsonV::Object(without_member(ps3, name)),
                                                ),
                                            ),
                                        ),
                                    ),
                                ),
                            ),
                        ),
                        _ => None,
                    },
                    None => None,
                },
                _ => None,
            },
            None => None,
        },
        _ => None,
    }
}

/// `bookmark remove`: deletes the bookmark `name`.
pub fn remove_bookmark(nb: &mut Notebook, name: &str) -> (r: Result<(), OpError>)
    ensures
        match bookmark_removed_metadata(old(nb)@.metadata, name@) {
            None => r matches Err(e) && e@ == OpFault::NoBookmarks && final(nb)@ == old(nb)@,
            Some(m) => if key_index(bookmarks_of(old(nb)@.metadata)->Object_0, name@) is None {
                r matches Err(e) && e@ == OpFault::UnknownBookmark(name@) && final(nb)@ == old(
                    nb,
                )@
            } else {
                r is Ok && final(nb)@ == (NotebookV { metadata: m, ..old(nb)@ })
            },
        },
{
    let mut meta = Json::Null;
    std::mem::swap(&mut meta, &mut nb.metadata);
    let mut ps = match meta {
        Json::Object(ps) => ps,
        other => {
            nb.metadata = other;
            return Err(OpError::NoBookmarks);
        },
    };
    proof {
        lemma_view_object(ps);
    }
    let k = match crate::json::find_key(&ps, "nbedit") {
        Some(k) => k,
        None => {
            nb.metadata = Json::Object(ps);
            return Err(OpError::NoBookmarks);
        },
    };
    let ghost ps_v = pairs_view(ps@);
    let ghost ps_e = ps@;
    proof {
        lemma_key_index_bounds(ps_v, "nbedit"@);
    }
    let (key1, inner) = ps.remove(k);
    let mut ps2 = match inner {
        Json::Object(q) => q,
        other => {
            ps.insert(k, (key1, other));
            assert(pairs_view(ps@) =~= ps_v);
            proof {
                lemma_view_object(ps);
            }
            nb.metadata = Json::Object(ps);
            return Err(OpError::NoBookmarks);
        },
    };
    let ghost ps2_v = pairs_view(ps2@);
    proof {
        lemma_view_object(ps2);
        assert(ps_v[k as int] == (key1@, JsonV::Object(ps2_v)));
    }
    let k2 = match crate::json::find_key(&ps2, "bookmarks") {
        Some(k2) => k2,
        None => {
            ps.insert(k, (key1, Json::Object(ps2)));
            proof {
                lemma_view_object(ps2);
                assert(pairs_view(ps@) =~= ps_v);
                lemma_view_object(ps);
            }
            nb.metadata = Json::Object(ps);
            return Err(OpError::NoBookmarks);
        },
    };
    proof {
        lemma_key_index_bounds(ps2_v, "bookmarks"@);
    }
    let (key2, inner2) = ps2.remove(k2);
    let mut ps3 = match inner2 {
        Json::Object(q) => q,
        other => {
            ps2.insert(k2, (key2, other));
            ps.insert(k, (key1, Json::Object(ps2)));
            proof {
                assert(pairs_view(ps2@) =~= ps2_v);
                lemma_view_object(ps2);
                assert(pairs_view(ps@) =~= ps_v);
                lemma_view_object(ps);
            }
            nb.metadata = Json::Object(ps);
            return Err(OpError::NoBookmarks);
        },
    };
    let ghost ps3_v = pairs_view(ps3@);
    proof {
        lemma_view_object(ps3);
        assert(ps2_v[k2 as int] == (key2@, JsonV::Object(ps3_v)));
        assert(bookmarks_of(old(nb)@.metadata) == JsonV::Object(ps3_v));
    }
    let found = remove_member(&mut ps3, name);
    ps2.insert(k2, (key2, Json::Object(ps3)));
    ps.insert(k, (key1, Json::Object(ps2)));
    proof {
        lemma_view_object(ps3);
        assert(pairs_view(ps2@) =~= ps2_v.update(
            k2 as int,
            ("bookmarks"@, JsonV::Object(without_member(ps3_v, name@))),
        ));
        lemma_view_object(ps2);
        assert(pairs_view(ps@) =~= ps_v.update(
            k as int,
            (
                "nbedit"@,
                JsonV::Object(
                    ps2_v.update(
                        k2 as int,
                        ("bookmarks"@, JsonV::Object(without_member(ps3_v, name@))),
                    ),
                ),
            ),
        ));
        lemma_view_object(ps);
        if !found {
            assert(without_member(ps3_v, name@) == ps3_v);
            assert(ps2_v.update(k2 as int, ("bookmarks"@, JsonV::Object(ps3_v))) =~= ps2_v);
            assert(ps_v.update(k as int, ("nbedit"@, JsonV::Object(ps2_v))) =~= ps_v);
        }
    }
    nb.metadata = Json::Object(ps);
    if found {
        Ok(())
    } else {
        Err(OpError::UnknownBookmark(name.to_owned()))
    }
}

proof fn lemma_key_index_same_keys(
    ps: Seq<(Seq<char>, JsonV)>,
    qs: Seq<(Seq<char>, JsonV)>,
    key: Seq<char>,
)
    requires
        ps.len() == qs.len(),
        forall|j: int| 0 <= j < ps.len() ==> #[trigger] ps[j].0 == qs[j].0,
    ensures
        key_index(ps, key) == key_index(qs, key),
    decreases ps.len(),
{
    if ps.len() > 0 {
        let a = ps.drop_first();
        let b = qs.drop_first();
        assert forall|j: int| 0 <= j < a.len() implies #[trigger] a[j].0 == b[j].0 by {
            assert(a[j] == ps[j + 1]);
            assert(b[j] == qs[j + 1]);
        }
        lemma_key_index_same_keys(a, b, key);
        assert(ps[0].0 == qs[0].0);
    }
}

proof fn lemma_without_after_with(ps: Seq<(Seq<char>, JsonV)>, key: Seq<char>, v: JsonV)
    ensures
        without_member(with_member(ps, key, v), key) == without_member(ps, key),
{
    crate::json::lemma_key_index_bounds(ps, key);
    let q = with_member(ps, key, v);
    match key_index(ps, key) {
        Some(k) => {
            assert forall|j: int| 0 <= j < k implies q[j].0 != key by {
                assert(q[j] == ps[j]);
            }
            crate::json::lemma_key_index(q, key, k);
            assert(q.remove(k) =~= ps.remove(k));
        },
        None => {
            crate::json::lemma_key_index_absent(ps, key);
            assert forall|j: int| 0 <= j < ps.len() implies q[j].0 != key by {
                assert(q[j] == ps[j]);
            }
            crate::json::lemma_key_index(q, key, ps.len() as int);
            assert(q.remove(ps.len() as int) =~= ps);
        },
    }
}

/// Law: `bookmark remove` undoes `bookmark set`: after a bookmark is set, a
/// removal of that name succeeds and leaves the bookmark object as it was
/// before, without that name.
pub proof fn lemma_bookmark_set_then_remove(meta: JsonV, name: Seq<char>, id: Seq<char>)
    requires
        bookmark_set_metadata(meta, name, id) is Some,
    ensures
        ({
            let m1 = bookmark_set_metadata(meta, name, id)->Some_0;
            &&& key_index(bookmarks_of(m1)->Object_0, name) is Some
            &&& bookmark_removed_metadata(m1, name) matches Some(m2) && bookmarks_of(m2)
                == JsonV::Object(without_member(bookmarks_of(meta)->Object_0, name))
        }),
{
    let ps = meta->Object_0;
    let ps2 = object_member(ps, "nbedit"@)->Some_0;
    let ps3 = object_member(ps2, "bookmarks"@)->Some_0;
    let p3 = with_member(ps3, name, JsonV::Str(id));
    let b = JsonV::Object(p3);
    let p2 = with_member(ps2, "bookmarks"@, b);
    let n = JsonV::Object(p2);
    let p1 = with_member(ps, "nbedit"@, n);
    assert(bookmarks_of(meta) == JsonV::Object(ps3));
    lemma_member_with_member(ps, "nbedit"@, n);
    lemma_member_with_member(ps2, "bookmarks"@, b);
    lemma_member_with_member(ps3, name, JsonV::Str(id));
    crate::json::lemma_key_index_bounds(p1, "nbedit"@);
    crate::json::lemma_key_index_bounds(p2, "bookmarks"@);
    let k = key_index(p1, "nbedit"@)->Some_0;
    let k2 = key_index(p2, "bookmarks"@)->Some_0;
    assert(p1[k].1 == n);
    assert(p2[k2].1 == b);
    let r3 = without_member(p3, name);
    let q2 = p2.update(k2, ("bookmarks"@, JsonV::Object(r3)));
    let q1 = p1.update(k, ("nbedit"@, JsonV::Object(q2)));
    assert forall|j: int| 0 <= j < p1.len() implies #[trigger] p1[j].0 == q1[j].0 by {}
    assert forall|j: int| 0 <= j < p2.len() implies #[trigger] p2[j].0 == q2[j].0 by {}
    lemma_key_index_same_keys(p1, q1, "nbedit"@);
    lemma_key_index_same_keys(p2, q2, "bookmarks"@);
    lemma_without_after_with(ps3, name, JsonV::Str(id));
    let m1 = JsonV::Object(p1);
    assert(bookmark_set_metadata(meta, name, id) == Some(m1));
    assert(bookmarks_of(m1) == b);
    assert(bookmark_removed_metadata(m1, name) == Some(JsonV::Object(q1)));
    assert(bookmarks_of(JsonV::Object(q1)) == JsonV::Object(r3));
}

} // verus!
