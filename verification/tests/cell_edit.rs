use nbedit::cell_edit::{
    check_line_modes, count_cells_of_type, create_cell_tool, edit_cell, edit_cell_tool,
    line_count, SourceEdit,
};
use nbedit::json::Json;
use nbedit::notebook::{Cell, Notebook};
use nbedit::ops::OpError;

fn edit_cell_of(cell_type: &str, src: &str) -> Cell {
    let mut c = Cell::new(cell_type);
    c.set_source(src.to_string());
    c
}

fn edit_notebook(cells: Vec<Cell>) -> Notebook {
    Notebook {
        nbformat: 4,
        nbformat_minor: 5,
        metadata: Json::Object(Vec::new()),
        cells,
        extra: Vec::new(),
    }
}

#[test]
fn line_edits_change_the_selected_lines() {
    let mut nb = edit_notebook(vec![edit_cell_of("code", "a\nb\nc\n")]);
    let deleted = edit_cell(&mut nb, 1, SourceEdit::DeleteLines("2".into()), None).unwrap();
    assert_eq!(deleted, 1);
    assert_eq!(nb.cells[0].source_str(), "a\nc\n");
    edit_cell(&mut nb, 1, SourceEdit::InsertAfter(1, "x\ny".into()), None).unwrap();
    assert_eq!(nb.cells[0].source_str(), "a\nx\ny\nc\n");
    edit_cell(&mut nb, 1, SourceEdit::InsertBefore(1, "top".into()), None).unwrap();
    assert_eq!(nb.cells[0].source_str(), "top\na\nx\ny\nc\n");
    edit_cell(&mut nb, 1, SourceEdit::ReplaceLines("2-4".into(), "mid".into()), None).unwrap();
    assert_eq!(nb.cells[0].source_str(), "top\nmid\nc\n");
    edit_cell(&mut nb, 1, SourceEdit::Replace(Some("new".into())), Some("markdown")).unwrap();
    assert_eq!(nb.cells[0].source_str(), "new");
    assert_eq!(nb.cells[0].cell_type, "markdown");
}

#[test]
fn line_edits_report_their_refusals() {
    let mut nb = edit_notebook(vec![edit_cell_of("code", "a\nb"), edit_cell_of("code", "")]);
    let out_of_range = edit_cell(&mut nb, 3, SourceEdit::Replace(None), None).unwrap_err();
    assert_eq!(out_of_range.message(), "Cell index 3 is out of range (notebook has 2 cells)");
    let after = edit_cell(&mut nb, 1, SourceEdit::InsertAfter(5, "x".into()), None).unwrap_err();
    assert_eq!(after.message(), "--insert-after 5 is out of range (cell 1 has 2 lines)");
    let before = edit_cell(&mut nb, 1, SourceEdit::InsertBefore(0, "x".into()), None).unwrap_err();
    assert_eq!(before.message(), "--insert-before 0 is out of range (cell 1 has 2 lines)");
    let empty = edit_cell(&mut nb, 2, SourceEdit::DeleteLines("1".into()), None).unwrap_err();
    assert_eq!(empty.message(), "Cell 2 is empty, cannot delete lines");
    let target = edit_cell(&mut nb, 2, SourceEdit::ReplaceLines("1".into(), "x".into()), None)
        .unwrap_err();
    assert_eq!(target.message(), "Cell 2 is empty, cannot target lines");
    assert_eq!(nb.cells[0].source_str(), "a\nb");
}

#[test]
fn tool_line_modes_are_exclusive() {
    assert!(matches!(check_line_modes(true, true, false, false, true), Err(OpError::TooManyLineModes)));
    assert!(matches!(
        check_line_modes(false, true, false, false, false),
        Err(OpError::LineModeNeedsSource)
    ));
    assert_eq!(check_line_modes(false, false, false, true, false).unwrap(), true);
    assert_eq!(check_line_modes(false, false, false, false, false).unwrap(), false);
    assert_eq!(
        OpError::TooManyLineModes.message(),
        "Only one of lines, insert_after, insert_before, or delete_lines may be used"
    );
}

#[test]
fn tool_edits_and_creates_cells_with_ids() {
    let mut nb = edit_notebook(vec![edit_cell_of("code", "x = 1")]);
    assert!(matches!(edit_cell_tool(&mut nb, 1, None, None), Err(OpError::NothingToEdit)));
    assert!(matches!(
        edit_cell_tool(&mut nb, 1, None, Some("sql")),
        Err(OpError::InvalidCellType)
    ));
    let outside = edit_cell_tool(&mut nb, 2, Some("y".into()), None).unwrap_err();
    assert_eq!(outside.message(), "Cell 2 is outside the valid range 1..=1");
    edit_cell_tool(&mut nb, 1, Some("x = 2".into()), None).unwrap();
    assert_eq!(nb.cells[0].source_str(), "x = 2");
    assert!(nb.cells[0].id.is_some());
    let pos = create_cell_tool(&mut nb, "markdown", "# t".into(), None).unwrap();
    assert_eq!(pos, 2);
    assert_eq!(nb.cells[1].cell_type, "markdown");
    assert!(nb.cells[1].id.is_some());
    let refused = create_cell_tool(&mut nb, "code", String::new(), Some(4)).unwrap_err();
    assert_eq!(refused.message(), "at is outside the valid range 1..=3");
    assert_eq!(count_cells_of_type(&nb, "markdown"), 1);
    assert_eq!(count_cells_of_type(&nb, "code"), 1);
    assert_eq!(line_count(&edit_cell_of("code", "a\nb\n")), 2);
    assert_eq!(line_count(&edit_cell_of("code", "")), 0);
}

fn tool_notebook() -> Notebook {
    let mut cell = edit_cell_of("code", "x = 1");
    cell.id = Some("one".into());
    edit_notebook(vec![cell])
}

#[test]
fn tool_calls_read_and_edit_notebook() {
    let mut nb = tool_notebook();
    assert!(edit_cell_tool(&mut nb, 1, Some("x = 2".into()), None).is_ok());
    let cell = nb.cells[0].to_json();
    assert_eq!(cell.get("source").and_then(|s| s.as_array()).unwrap()[0], Json::Str("x = 2".into()));
}

#[test]
fn search_and_line_edits_return_structured_results() {
    let mut nb = tool_notebook();
    let re = nbedit::pattern::build_regex("x = 1", false).unwrap();
    let hits = nbedit::pattern::search_notebook(&nb, &re, None);
    assert_eq!(nbedit::pattern::match_count(&hits), 1);
    assert_eq!(check_line_modes(false, true, false, false, true).unwrap(), true);
    edit_cell(&mut nb, 1, SourceEdit::InsertAfter(1, "print(x)".into()), None).unwrap();
    assert_eq!(nb.cells[0].source_str(), "x = 1\nprint(x)");
}
