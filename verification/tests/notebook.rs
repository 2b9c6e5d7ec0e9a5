use nbedit::json::Json;
use nbedit::notebook::{Cell, CellSource, Notebook};

fn nb_code(src: &str) -> Cell {
    let mut c = Cell::new("code");
    c.set_source(src.to_string());
    c
}

fn nb_notebook(cells: Vec<Cell>) -> Notebook {
    Notebook {
        nbformat: 4,
        nbformat_minor: 5,
        metadata: Json::Object(Vec::new()),
        cells,
        extra: Vec::new(),
    }
}

#[test]
fn set_source_empty_yields_empty_array() {
    let mut c = nb_code("");
    c.set_source(String::new());
    assert!(matches!(&c.source, CellSource::Lines(v) if v.is_empty()));
}

#[test]
fn set_source_single_line_no_trailing_newline() {
    let c = nb_code("x = 42");
    assert!(matches!(&c.source, CellSource::Lines(v) if v == &["x = 42"]));
}

#[test]
fn set_source_multi_line_attaches_newlines() {
    let c = nb_code("a\nb\nc");
    assert!(matches!(&c.source, CellSource::Lines(v) if v == &["a\n", "b\n", "c"]));
}

#[test]
fn set_source_trailing_newline() {
    let c = nb_code("a\nb\n");
    assert!(matches!(&c.source, CellSource::Lines(v) if v == &["a\n", "b\n"]));
}

#[test]
fn source_str_roundtrip() {
    let original = "import pandas\ndf = pd.read_csv('data.csv')";
    assert_eq!(nb_code(original).source_str(), original);
}

#[test]
fn source_str_reads_a_single_string_source() {
    let mut c = Cell::new("markdown");
    c.source = CellSource::Single("# Title\ntext".to_string());
    assert_eq!(c.source_str(), "# Title\ntext");
}

#[test]
fn ensure_cell_ids_adds_unique_ids_without_replacing_existing_ids() {
    let mut first = nb_code("a = 1");
    first.id = Some("existing".into());
    let mut nb = nb_notebook(vec![first, nb_code("b = 2"), nb_code("c = 3")]);
    nb.ensure_cell_ids();
    let ids: Vec<_> = nb
        .cells
        .iter()
        .map(|cell| cell.id.as_deref().unwrap())
        .collect();
    assert_eq!(ids[0], "existing");
    assert_eq!(
        ids.len(),
        ids.iter()
            .copied()
            .collect::<std::collections::HashSet<_>>()
            .len()
    );
}

#[test]
fn ensure_cell_ids_uses_position_and_skips_taken_candidates() {
    let mut taken = nb_code("x");
    taken.id = Some("nbedit-2".into());
    let mut nb = nb_notebook(vec![nb_code("a"), nb_code("b"), taken]);
    nb.ensure_cell_ids();
    assert_eq!(nb.cells[0].id.as_deref(), Some("nbedit-1"));
    assert_eq!(nb.cells[1].id.as_deref(), Some("nbedit-2-2"));
    assert_eq!(nb.cells[2].id.as_deref(), Some("nbedit-2"));
}

#[test]
fn new_cells_have_the_nbformat_defaults() {
    let c = Cell::new("code");
    assert_eq!(c.execution_count, Some(Json::Null));
    assert!(c.outputs.is_empty());
    assert_eq!(c.metadata, Json::Object(Vec::new()));
    let m = Cell::new("markdown");
    assert_eq!(m.execution_count, None);
}

#[test]
fn kernel_metadata_is_read_from_kernelspec_and_language_info() {
    let mut nb = nb_notebook(vec![]);
    nb.metadata = Json::Object(vec![
        (
            "kernelspec".to_string(),
            Json::Object(vec![
                ("name".to_string(), Json::Str("python3".to_string())),
                ("display_name".to_string(), Json::Str("Python 3".to_string())),
            ]),
        ),
        (
            "language_info".to_string(),
            Json::Object(vec![("name".to_string(), Json::Str("python".to_string()))]),
        ),
    ]);
    assert_eq!(nb.kernel_spec_name(), Some("python3"));
    assert_eq!(nb.kernel_name(), Some("Python 3"));
    assert_eq!(nb.language(), Some("python"));
    assert_eq!(nb.len(), 0);
    assert!(nb.is_empty());
}

#[test]
fn code_cell_serializes_outputs_and_execution_count() {
    let json = Cell::new("code").to_json();
    assert!(json.get("outputs").is_some(), "code cell must have outputs");
    assert!(
        json.get("execution_count").is_some(),
        "code cell must have execution_count"
    );
}

#[test]
fn markdown_cell_omits_outputs_and_execution_count() {
    let json = Cell::new("markdown").to_json();
    assert!(
        json.get("outputs").is_none(),
        "markdown must not have outputs"
    );
    assert!(
        json.get("execution_count").is_none(),
        "markdown must not have execution_count"
    );
}

#[test]
fn new_code_cell_source_serializes_as_empty_array() {
    let json = Cell::new("code").to_json();
    let src = json.get("source").unwrap();
    assert!(src.is_array());
    assert_eq!(src.as_array().unwrap().len(), 0);
}

#[test]
fn cell_members_are_written_in_nbformat_order() {
    let mut cell = nb_code("x = 1\ny");
    cell.id = Some("cell-1".into());
    cell.extra.push(("attachments".into(), Json::Object(Vec::new())));
    let keys: Vec<String> = match cell.to_json() {
        Json::Object(members) => members.into_iter().map(|(k, _)| k).collect(),
        _ => panic!("a cell is written as an object"),
    };
    assert_eq!(
        keys,
        vec!["id", "cell_type", "execution_count", "metadata", "outputs", "source", "attachments"]
    );
    assert_eq!(cell.to_json().get_str("id").map(|s| s.as_str()), Some("cell-1"));
    assert_eq!(
        cell.to_json().get("source"),
        Some(&Json::Array(vec![Json::Str("x = 1\n".into()), Json::Str("y".into())]))
    );
    let nb = nb_notebook(vec![Cell::new("raw")]);
    let doc = nb.to_json();
    assert_eq!(doc.get("nbformat"), Some(&Json::Number("4".into())));
    assert_eq!(doc.get("nbformat_minor"), Some(&Json::Number("5".into())));
    assert_eq!(doc.get("cells").and_then(|c| c.as_array()).map(|c| c.len()), Some(1));
}
