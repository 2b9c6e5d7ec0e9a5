use nbedit::json::Json;
use nbedit::notebook::{Cell, Notebook};
use nbedit::ops::{
    clear_outputs, copy_cells, create_cell, delete_cells, duplicate_cells, merge_cells,
    move_cells, split_cell, strip_cells,
};

fn ops_code(src: &str) -> Cell {
    let mut c = Cell::new("code");
    c.set_source(src.to_string());
    c
}

fn markdown(src: &str) -> Cell {
    let mut c = Cell::new("markdown");
    c.set_source(src.to_string());
    c
}

fn ops_notebook(cells: Vec<Cell>) -> Notebook {
    Notebook {
        nbformat: 4,
        nbformat_minor: 5,
        metadata: Json::Object(Vec::new()),
        cells,
        extra: Vec::new(),
    }
}

fn code_with_output(src: &str) -> Cell {
    let mut c = ops_code(src);
    c.outputs.push(Json::Object(vec![
        ("output_type".to_string(), Json::Str("stream".to_string())),
        ("text".to_string(), Json::Str("ok".to_string())),
    ]));
    c.execution_count = Some(Json::Number("1".to_string()));
    c
}

fn sources(nb: &Notebook) -> Vec<String> {
    nb.cells.iter().map(|c| c.source_str()).collect()
}

#[test]
fn clears_outputs_and_execution_count() {
    let mut nb = ops_notebook(vec![code_with_output("x = 1")]);
    let cleared = clear_outputs(&mut nb, &vec![0]);
    assert_eq!(cleared, vec![0]);
    assert!(nb.cells[0].outputs.is_empty());
    assert_eq!(nb.cells[0].execution_count, Some(Json::Null));
}

#[test]
fn skips_markdown_cells() {
    let mut nb = ops_notebook(vec![markdown("# title")]);
    let cleared = clear_outputs(&mut nb, &vec![0]);
    assert!(cleared.is_empty());
    assert_eq!(nb.cells[0].source_str(), "# title");
}

#[test]
fn copy_appends_when_no_at() {
    let src = ops_notebook(vec![ops_code("x = 1"), ops_code("y = 2")]);
    let mut dst = ops_notebook(vec![ops_code("z = 3")]);
    copy_cells(&src, &vec![0, 1], &mut dst, None).unwrap();
    assert_eq!(dst.cells.len(), 3);
    assert_eq!(dst.cells[1].source_str(), "x = 1");
    assert_eq!(dst.cells[2].source_str(), "y = 2");
}

#[test]
fn copy_with_at_inserts_at_position() {
    let src = ops_notebook(vec![ops_code("inserted")]);
    let mut dst = ops_notebook(vec![ops_code("first"), ops_code("second")]);
    copy_cells(&src, &vec![0], &mut dst, Some(2)).unwrap();
    assert_eq!(dst.cells.len(), 3);
    assert_eq!(dst.cells[1].source_str(), "inserted");
    assert_eq!(dst.cells[2].source_str(), "second");
}

#[test]
fn copy_preserves_source_cell_count() {
    let src = ops_notebook(vec![ops_code("a"), ops_code("b"), ops_code("c")]);
    let mut dst = ops_notebook(vec![]);
    copy_cells(&src, &vec![0, 1, 2], &mut dst, None).unwrap();
    assert_eq!(src.cells.len(), 3, "source notebook must not be modified");
    assert_eq!(dst.cells.len(), 3);
}

#[test]
fn copy_refuses_a_position_outside_the_destination() {
    let src = ops_notebook(vec![ops_code("a")]);
    let mut dst = ops_notebook(vec![ops_code("b")]);
    let e = copy_cells(&src, &vec![0], &mut dst, Some(3)).unwrap_err();
    assert_eq!(e.message(), "--at 3 is out of range (destination has 1 cells)");
    assert_eq!(dst.cells.len(), 1);
}

#[test]
fn merges_contiguous_sources() {
    let mut a = Cell::new("markdown");
    a.set_source("a\n".into());
    let mut b = Cell::new("markdown");
    b.set_source("b".into());
    let mut nb = ops_notebook(vec![a, b]);
    assert_eq!(merge_cells(&mut nb, &vec![0, 1]).unwrap(), 0);
    assert_eq!(nb.cells.len(), 1);
    assert_eq!(nb.cells[0].source_str(), "a\nb");
}

#[test]
fn merge_refuses_gaps_and_mixed_types() {
    let mut nb = ops_notebook(vec![ops_code("a"), ops_code("b"), ops_code("c")]);
    let e = merge_cells(&mut nb, &vec![0, 2]).unwrap_err();
    assert_eq!(e.message(), "Merge requires two or more contiguous cells");
    let e = merge_cells(&mut nb, &vec![1]).unwrap_err();
    assert_eq!(e.message(), "Merge requires two or more contiguous cells");
    let mut nb = ops_notebook(vec![ops_code("a"), markdown("b")]);
    let e = merge_cells(&mut nb, &vec![0, 1]).unwrap_err();
    assert_eq!(e.message(), "Merge requires cells of the same type");
    assert_eq!(nb.cells.len(), 2);
}

#[test]
fn merging_code_cells_clears_their_outputs() {
    let mut nb = ops_notebook(vec![code_with_output("a\n"), code_with_output("b"), ops_code("c")]);
    merge_cells(&mut nb, &vec![0, 1]).unwrap();
    assert_eq!(sources(&nb), vec!["a\nb", "c"]);
    assert!(nb.cells[0].outputs.is_empty());
    assert_eq!(nb.cells[0].execution_count, Some(Json::Null));
}

#[test]
fn splits_cell_and_assigns_id() {
    let mut c = Cell::new("code");
    c.id = Some("a".into());
    c.set_source("one\ntwo".into());
    let mut nb = ops_notebook(vec![c]);
    split_cell(&mut nb, 1, 1).unwrap();
    assert_eq!(nb.cells.len(), 2);
    assert_eq!(nb.cells[0].source_str(), "one");
    assert_eq!(nb.cells[1].source_str(), "two");
    assert_eq!(nb.cells[0].id.as_deref(), Some("a"));
    assert!(nb.cells[1].id.is_some());
}

#[test]
fn split_keeps_a_final_newline_on_the_second_part() {
    let mut nb = ops_notebook(vec![ops_code("a\nb\nc\n")]);
    split_cell(&mut nb, 1, 2).unwrap();
    assert_eq!(sources(&nb), vec!["a\nb", "c\n"]);
}

#[test]
fn split_refuses_bad_positions() {
    let mut nb = ops_notebook(vec![ops_code("a\nb")]);
    assert_eq!(
        split_cell(&mut nb, 2, 1).unwrap_err().message(),
        "Cell 2 is outside the valid range"
    );
    assert_eq!(
        split_cell(&mut nb, 1, 2).unwrap_err().message(),
        "--at-line must split between existing lines"
    );
    assert_eq!(
        split_cell(&mut nb, 1, 0).unwrap_err().message(),
        "--at-line must split between existing lines"
    );
    assert_eq!(nb.cells.len(), 1);
}

#[test]
fn create_inserts_at_position_or_appends() {
    let mut nb = ops_notebook(vec![ops_code("a")]);
    assert_eq!(create_cell(&mut nb, "markdown", None, "# end".into()).unwrap(), 1);
    assert_eq!(create_cell(&mut nb, "code", Some(1), "first".into()).unwrap(), 0);
    assert_eq!(sources(&nb), vec!["first", "a", "# end"]);
    assert_eq!(nb.cells[2].cell_type, "markdown");
    let e = create_cell(&mut nb, "code", Some(5), String::new()).unwrap_err();
    assert_eq!(e.message(), "--at 5 is out of range (notebook has 3 cells)");
}

#[test]
fn delete_removes_exactly_the_selected_cells() {
    let mut nb = ops_notebook(vec![ops_code("a"), ops_code("b"), ops_code("c"), ops_code("d")]);
    delete_cells(&mut nb, &vec![1, 3]);
    assert_eq!(sources(&nb), vec!["a", "c"]);
}

#[test]
fn duplicate_inserts_copies_without_ids() {
    let mut a = ops_code("a");
    a.id = Some("first".into());
    let mut nb = ops_notebook(vec![a, ops_code("b")]);
    assert_eq!(duplicate_cells(&mut nb, &vec![0], None).unwrap(), 3);
    assert_eq!(sources(&nb), vec!["a", "b", "a"]);
    assert_eq!(nb.cells[0].id.as_deref(), Some("first"));
    assert_ne!(nb.cells[2].id.as_deref(), Some("first"));
    assert!(nb.cells[2].id.is_some());
    let e = duplicate_cells(&mut nb, &vec![0], Some(9)).unwrap_err();
    assert_eq!(e.message(), "--at 9 is out of range");
}

#[test]
fn move_puts_the_selection_at_the_destination() {
    let mut nb = ops_notebook(vec![ops_code("a"), ops_code("b"), ops_code("c"), ops_code("d")]);
    assert_eq!(move_cells(&mut nb, &vec![0], "last").unwrap(), 3);
    assert_eq!(sources(&nb), vec!["b", "c", "d", "a"]);
    move_cells(&mut nb, &vec![2, 3], "1").unwrap();
    assert_eq!(sources(&nb), vec!["d", "a", "b", "c"]);
    assert!(move_cells(&mut nb, &vec![0], "9").is_err());
}

#[test]
fn strip_removes_outputs_and_metadata_of_selected_cells() {
    let mut c = code_with_output("x");
    c.metadata = Json::Object(vec![("tags".to_string(), Json::Array(vec![]))]);
    let mut nb = ops_notebook(vec![c, code_with_output("y")]);
    strip_cells(&mut nb, "1", true, true, false, false).unwrap();
    assert!(nb.cells[0].outputs.is_empty());
    assert_eq!(nb.cells[0].metadata, Json::Object(Vec::new()));
    assert_eq!(nb.cells[1].outputs.len(), 1);
}

#[test]
fn strip_checks_its_targets() {
    let mut nb = ops_notebook(vec![code_with_output("x")]);
    let e = strip_cells(&mut nb, "all", false, false, false, false).unwrap_err();
    assert_eq!(e.message(), "Select at least one strip target");
    let e = strip_cells(&mut nb, "1", false, false, true, false).unwrap_err();
    assert_eq!(e.message(), "--notebook-metadata requires selection 'all'");
    strip_cells(&mut nb, "all", true, false, false, true).unwrap();
    assert_eq!(nb.cells[0].outputs.len(), 1, "a dry run changes nothing");
    nb.metadata = Json::Object(vec![("k".to_string(), Json::Null)]);
    strip_cells(&mut nb, "all", false, false, true, false).unwrap();
    assert_eq!(nb.metadata, Json::Object(Vec::new()));
}
