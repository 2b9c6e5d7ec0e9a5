use nbedit::json::Json;
use nbedit::notebook::Cell;
use nbedit::read::{
    cell_display, multiline_value_to_string, push_output_display, selected_source_lines,
    truncate, ReadOptions,
};

fn read_cell(cell_type: &str, src: &str) -> Cell {
    let mut c = Cell::new(cell_type);
    c.set_source(src.to_string());
    c
}

fn read_object(pairs: Vec<(&str, Json)>) -> Json {
    Json::Object(pairs.into_iter().map(|(k, v)| (k.to_string(), v)).collect())
}

fn read_options(lines: Option<&str>) -> ReadOptions {
    ReadOptions {
        show_outputs: true,
        only_outputs: false,
        max_output_chars: None,
        lines: lines.map(|s| s.to_string()),
    }
}

fn shown(output: &Json, max: Option<usize>) -> String {
    let mut out: Vec<char> = Vec::new();
    push_output_display(&mut out, output, max);
    out.into_iter().collect()
}

#[test]
fn truncate_keeps_a_prefix_and_says_so() {
    assert_eq!(truncate("abcdefgh", Some(3)), "abc\n... output truncated ...\n");
    assert_eq!(truncate("abc", Some(3)), "abc");
    assert_eq!(truncate("abcdefgh", None), "abcdefgh");
    assert_eq!(truncate("ééé", Some(2)), "éé\n... output truncated ...\n");
}

#[test]
fn multiline_values_are_joined() {
    let lines = Json::Array(vec![Json::Str("a\n".into()), Json::Str("b".into())]);
    assert_eq!(multiline_value_to_string(&lines), "a\nb");
    assert_eq!(multiline_value_to_string(&Json::Str("x".into())), "x");
    assert_eq!(multiline_value_to_string(&Json::Null), "");
}

#[test]
fn outputs_are_shown_by_kind() {
    let stream = read_object(vec![("output_type", Json::Str("stream".into())), ("text", Json::Str("hi".into()))]);
    assert_eq!(shown(&stream, None), "hi\n");
    let result = read_object(vec![
        ("output_type", Json::Str("execute_result".into())),
        ("data", read_object(vec![("text/plain", Json::Str("42\n".into()))])),
    ]);
    assert_eq!(shown(&result, None), "42\n");
    let error = read_object(vec![
        ("output_type", Json::Str("error".into())),
        ("ename", Json::Str("ValueError".into())),
        ("evalue", Json::Str("bad".into())),
    ]);
    assert_eq!(shown(&error, None), "ValueError: bad\n");
    let other = read_object(vec![("output_type", Json::Str("widget".into()))]);
    assert_eq!(shown(&other, None), "[output type: widget]\n");
    assert_eq!(shown(&stream, Some(1)), "h\n... output truncated ...\n\n");
}

#[test]
fn a_cell_is_shown_with_its_header_source_and_outputs() {
    let mut c = read_cell("code", "x = 1");
    c.outputs.push(read_object(vec![("output_type", Json::Str("stream".into())), ("text", Json::Str("1\n".into()))]));
    let text = cell_display(&c, 0, &read_options(None)).unwrap();
    assert_eq!(text, "[Cell 1 | code]\nx = 1\n--- outputs ---\n1\n\n");
    let mut only = read_options(None);
    only.only_outputs = true;
    assert_eq!(cell_display(&c, 4, &only).unwrap(), "[Cell 5 | code]\n1\n\n");
    let md = read_cell("markdown", "# t\n");
    assert_eq!(cell_display(&md, 1, &only).unwrap(), "[Cell 2 | markdown]\n<no outputs>\n\n");
}

#[test]
fn a_line_selection_numbers_the_lines() {
    let c = read_cell("code", "a\nb\nc");
    let text = cell_display(&c, 0, &read_options(Some("2-3"))).unwrap();
    assert_eq!(text, "[Cell 1 | code]\n   2  b\n   3  c\n\n");
    assert!(cell_display(&c, 0, &read_options(Some("9"))).is_err());
    let empty = read_cell("code", "");
    assert_eq!(cell_display(&empty, 0, &read_options(Some("1"))).unwrap(), "[Cell 1 | code]\n<empty cell>\n\n");
    assert_eq!(
        selected_source_lines(&c, "1,3").unwrap(),
        vec![(1, "a".to_string()), (3, "c".to_string())]
    );
    assert!(selected_source_lines(&empty, "5").unwrap().is_empty());
}
