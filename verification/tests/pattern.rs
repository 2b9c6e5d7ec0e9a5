use nbedit::json::Json;
use nbedit::notebook::{Cell, Notebook};
use nbedit::pattern::{
    apply_replacements, build_regex, match_count, plan_replacements, query_notebook, query_scope,
    replacement_preview, search_notebook, QueryScope,
};

fn pattern_cell(cell_type: &str, src: &str) -> Cell {
    let mut c = Cell::new(cell_type);
    c.set_source(src.to_string());
    c
}

fn pattern_notebook(cells: Vec<Cell>) -> Notebook {
    Notebook {
        nbformat: 4,
        nbformat_minor: 5,
        metadata: Json::Object(Vec::new()),
        cells,
        extra: Vec::new(),
    }
}

#[test]
fn test_basic_pattern() {
    let re = build_regex("import", false).unwrap();
    assert!(re.is_match("import os"));
    assert!(!re.is_match("print('hello')"));
}

#[test]
fn test_ignore_case() {
    let re = build_regex("import", true).unwrap();
    assert!(re.is_match("IMPORT os"));
}

#[test]
fn test_regex_pattern() {
    let re = build_regex(r"def \w+\(", false).unwrap();
    assert!(re.is_match("def my_function(x):"));
    assert!(!re.is_match("class Foo:"));
}

#[test]
fn search_test_invalid_regex() {
    assert!(build_regex("[invalid", false).is_err());
}

#[test]
fn test_simple_replace() {
    let re = build_regex("foo", false).unwrap();
    let result = re.replace_all("foo bar foo", "baz");
    assert_eq!(result, "baz bar baz");
}

#[test]
fn test_capture_group() {
    let re = build_regex(r"def (\w+)\(", false).unwrap();
    let result = re.replace_all("def my_func(x):", "fn $1(");
    assert_eq!(result, "fn my_func(x):");
}

#[test]
fn test_ignore_case_replace() {
    let re = build_regex("TODO", true).unwrap();
    let result = re.replace_all("# todo: fix this", "DONE");
    assert_eq!(result, "# DONE: fix this");
}

#[test]
fn replace_test_invalid_regex() {
    assert!(build_regex("[bad", false).is_err());
}

#[test]
fn invalid_pattern_message_names_the_pattern() {
    let err = build_regex("[bad", true).unwrap_err();
    assert_eq!(err.pattern, "[bad");
    assert!(err.message().starts_with("Invalid regex pattern: '[bad': "));
    let ok = build_regex("x", true).unwrap();
    assert_eq!(ok.as_str(), "(?i)x");
    assert_eq!(ok.match_count("x X y"), 2);
}

#[test]
fn search_reports_matching_lines_per_cell() {
    let nb = pattern_notebook(vec![
        pattern_cell("code", "import os\nx = 1\nimport sys"),
        pattern_cell("markdown", "import nothing"),
        pattern_cell("code", "y = 2"),
    ]);
    let re = build_regex("^import", false).unwrap();
    let hits = search_notebook(&nb, &re, Some("code"));
    assert_eq!(hits.len(), 1);
    assert_eq!(hits[0].index, 1);
    assert_eq!(
        hits[0].lines,
        vec![(1, "import os".to_string()), (3, "import sys".to_string())]
    );
    assert_eq!(match_count(&hits), 2);
    let everywhere = search_notebook(&nb, &re, None);
    assert_eq!(everywhere.len(), 2);
    assert_eq!(everywhere[1].index, 2);
}

#[test]
fn replacements_are_planned_previewed_and_applied() {
    let mut nb = pattern_notebook(vec![
        pattern_cell("code", "a = foo\nb = 1"),
        pattern_cell("code", "nothing here"),
        pattern_cell("markdown", "foo"),
    ]);
    let re = build_regex("foo", false).unwrap();
    let planned = plan_replacements(&nb, &vec![0, 1, 2], &re, "bar", Some("code"));
    assert_eq!(planned.len(), 1);
    assert_eq!(planned[0].index, 0);
    assert_eq!(planned[0].count, 1);
    assert_eq!(planned[0].new_source, "a = bar\nb = 1");
    assert_eq!(
        replacement_preview(&planned[0]),
        vec!["  line   1 - a = foo", "  line   1 + a = bar"]
    );
    apply_replacements(&mut nb, planned);
    assert_eq!(nb.cells[0].source_str(), "a = bar\nb = 1");
    assert_eq!(nb.cells[2].source_str(), "foo");
}

#[test]
fn query_scopes_and_matches() {
    assert_eq!(query_scope("outputs"), Some(QueryScope::Outputs));
    assert_eq!(query_scope("cell-metadata"), Some(QueryScope::CellMetadata));
    assert_eq!(query_scope("notebook-metadata"), Some(QueryScope::NotebookMetadata));
    assert_eq!(query_scope("cells"), None);
}

fn obj(pairs: Vec<(&str, Json)>) -> Json {
    Json::Object(pairs.into_iter().map(|(k, v)| (k.to_string(), v)).collect())
}

#[test]
fn query_finds_serialized_metadata_and_outputs() {
    let mut tagged = pattern_cell("code", "x = 1");
    tagged.id = Some("t1".into());
    tagged.metadata = obj(vec![("tags", Json::Array(vec![Json::Str("keep".into())]))]);
    tagged.outputs = vec![obj(vec![
        ("output_type", Json::Str("stream".into())),
        ("text", Json::Str("done 42".into())),
    ])];
    let plain = pattern_cell("code", "y = 2");
    let mut nb = pattern_notebook(vec![plain, tagged]);
    nb.metadata = obj(vec![("kernelspec", obj(vec![("name", Json::Str("python3".into()))]))]);

    let re = build_regex("\"tags\"", false).unwrap();
    let hits = query_notebook(&nb, &re, QueryScope::CellMetadata);
    assert_eq!(hits.len(), 1);
    assert_eq!(hits[0].index, Some(2));
    assert_eq!(hits[0].cell_id.as_deref(), Some("t1"));
    assert_eq!(hits[0].value, "{\"tags\":[\"keep\"]}");

    let re = build_regex("DONE \\d+", true).unwrap();
    let hits = query_notebook(&nb, &re, QueryScope::Outputs);
    assert_eq!(hits.len(), 1);
    assert_eq!(hits[0].index, Some(2));
    assert_eq!(hits[0].value, "[{\"output_type\":\"stream\",\"text\":\"done 42\"}]");

    let re = build_regex("python3", false).unwrap();
    let hits = query_notebook(&nb, &re, QueryScope::NotebookMetadata);
    assert_eq!(hits.len(), 1);
    assert_eq!(hits[0].index, None);
    assert_eq!(hits[0].cell_id, None);
    assert_eq!(hits[0].value, "{\"kernelspec\":{\"name\":\"python3\"}}");

    let re = build_regex("absent", false).unwrap();
    assert!(query_notebook(&nb, &re, QueryScope::Outputs).is_empty());
    let re = build_regex("\\[\\]", false).unwrap();
    let hits = query_notebook(&nb, &re, QueryScope::Outputs);
    assert_eq!(hits.iter().map(|h| h.index).collect::<Vec<_>>(), vec![Some(1)]);
}
