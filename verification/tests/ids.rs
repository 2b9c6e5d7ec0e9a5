use nbedit::ids::{
    bookmarks_value, duplicate_id_flags, find_cell_references, is_valid_cell_id, remove_bookmark,
    rename_cell_id, repair_notebook, set_bookmark, validation_issues,
};
use nbedit::json::Json;
use nbedit::notebook::{Cell, Notebook};

fn ids_code(src: &str) -> Cell {
    let mut c = Cell::new("code");
    c.set_source(src.to_string());
    c
}

fn with_id(mut c: Cell, id: &str) -> Cell {
    c.id = Some(id.to_string());
    c
}

fn ids_notebook(cells: Vec<Cell>) -> Notebook {
    Notebook {
        nbformat: 4,
        nbformat_minor: 5,
        metadata: Json::Object(Vec::new()),
        cells,
        extra: Vec::new(),
    }
}

#[test]
fn renames_unique_id() {
    let mut nb = ids_notebook(vec![with_id(Cell::new("code"), "old")]);
    rename_cell_id(&mut nb, "old", "new").unwrap();
    assert_eq!(nb.cells[0].id.as_deref(), Some("new"));
}

#[test]
fn rename_refuses_bad_duplicate_and_unknown_ids() {
    let mut nb = ids_notebook(vec![with_id(ids_code("a"), "one"), with_id(ids_code("b"), "two")]);
    assert_eq!(
        rename_cell_id(&mut nb, "one", "bad id").unwrap_err().message(),
        "Cell ID must be 1-64 ASCII letters, numbers, '-' or '_'"
    );
    assert_eq!(
        rename_cell_id(&mut nb, "one", "two").unwrap_err().message(),
        "Cell ID 'two' already exists"
    );
    assert_eq!(
        rename_cell_id(&mut nb, "three", "four").unwrap_err().message(),
        "No cell has ID 'three'"
    );
    assert!(!is_valid_cell_id(""));
    assert!(!is_valid_cell_id(&"a".repeat(65)));
    assert!(is_valid_cell_id(&"a".repeat(64)));
    assert!(is_valid_cell_id("Cell_1-b"));
}

#[test]
fn references_are_other_cells_that_mention_the_id() {
    let nb = ids_notebook(vec![
        with_id(ids_code("x = 1"), "setup"),
        with_id(ids_code("# uses setup"), "b"),
        ids_code("print(x)"),
        ids_code("see setup again"),
    ]);
    assert_eq!(find_cell_references(&nb, "setup").unwrap(), vec![2, 4]);
    assert_eq!(
        find_cell_references(&nb, "missing").unwrap_err().message(),
        "No cell has ID 'missing'"
    );
}

#[test]
fn duplicate_flags_mark_later_repeats() {
    let nb = ids_notebook(vec![
        with_id(ids_code("a"), "x"),
        with_id(ids_code("b"), "x"),
        ids_code("c"),
        with_id(ids_code("d"), "y"),
    ]);
    assert_eq!(duplicate_id_flags(&nb), vec![false, true, false, false]);
}

#[test]
fn validation_lists_types_and_id_problems() {
    let mut odd = with_id(ids_code("a"), "x");
    odd.cell_type = "sql".to_string();
    let nb = ids_notebook(vec![odd, with_id(ids_code("b"), "x"), ids_code("c")]);
    assert_eq!(
        validation_issues(&nb, true),
        vec![
            "Cell 1 has unsupported type 'sql'",
            "Cell 2 duplicates an ID",
            "Cell 3 has no ID"
        ]
    );
    assert_eq!(validation_issues(&nb, false)[0], "Cell 1 has unsupported type");
    let ok = ids_notebook(vec![with_id(ids_code("a"), "x")]);
    assert!(validation_issues(&ok, true).is_empty());
}

#[test]
fn repair_replaces_duplicate_ids() {
    let a = with_id(Cell::new("code"), "same");
    let b = with_id(Cell::new("code"), "same");
    let mut n = ids_notebook(vec![a, b]);
    repair_notebook(&mut n);
    assert_ne!(n.cells[0].id, n.cells[1].id);
    assert_eq!(n.cells[0].id.as_deref(), Some("same"));
}

#[test]
fn repair_fixes_metadata_and_execution_counts() {
    let mut c = ids_code("x");
    c.metadata = Json::Null;
    c.execution_count = None;
    let mut n = ids_notebook(vec![c]);
    repair_notebook(&mut n);
    assert_eq!(n.cells[0].metadata, Json::Object(Vec::new()));
    assert_eq!(n.cells[0].execution_count, Some(Json::Null));
    assert!(validation_issues(&n, true).is_empty());
}

#[test]
fn stores_id() {
    let mut n = ids_notebook(vec![Cell::new("code")]);
    set_bookmark(&mut n, "start", 1).unwrap();
    let id = n.cells[0].id.clone().unwrap();
    let bookmarks = bookmarks_value(&n);
    assert_eq!(bookmarks.get("start"), Some(&Json::Str(id)));
}

#[test]
fn bookmark_remove_and_errors() {
    let mut n = ids_notebook(vec![ids_code("a")]);
    assert_eq!(
        remove_bookmark(&mut n, "start").unwrap_err().message(),
        "No bookmarks"
    );
    assert_eq!(
        set_bookmark(&mut n, "start", 2).unwrap_err().message(),
        "Cell 2 is outside the valid range"
    );
    set_bookmark(&mut n, "start", 1).unwrap();
    assert_eq!(
        remove_bookmark(&mut n, "other").unwrap_err().message(),
        "No bookmark named 'other'"
    );
    remove_bookmark(&mut n, "start").unwrap();
    assert_eq!(bookmarks_value(&n).get("start"), None);
    n.metadata = Json::Array(vec![]);
    assert_eq!(
        set_bookmark(&mut n, "x", 1).unwrap_err().message(),
        "Notebook metadata must be an object"
    );
}

#[test]
fn bookmarks_default_to_an_empty_object() {
    let n = ids_notebook(vec![]);
    assert_eq!(bookmarks_value(&n), Json::Object(Vec::new()));
}
