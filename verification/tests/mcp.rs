use nbedit::error::AppExit;
use nbedit::json::Json;
use nbedit::notebook::Cell;
use nbedit::read::selected_source_lines;
use nbedit::mcp::{
    notebook_uri, output_inclusion, output_line_limit, parse_notebook_uri, percent_decode,
    percent_encode, protocol_version, relative_display, run_status, should_include_outputs,
    truncate_output_value, truncate_outputs, OutputInclusion, UriError,
};

fn json_object(pairs: Vec<(&str, Json)>) -> Json {
    Json::Object(pairs.into_iter().map(|(k, v)| (k.to_string(), v)).collect())
}

fn json_text(s: &str) -> Json {
    Json::Str(s.to_string())
}

#[test]
fn resource_uri_roundtrips_spaces_and_unicode() {
    let path = "reports/my café.ipynb";
    assert_eq!(parse_notebook_uri(&notebook_uri(path)).unwrap(), path);
}

#[test]
fn run_status_maps_app_exit_codes_without_losing_the_message() {
    assert_eq!(run_status(&Ok(())).0, "ok");

    let missing: Result<(), AppExit> = Err(AppExit::new(2, "no nbclient".to_string()));
    assert_eq!(run_status(&missing).0, "missing_dependency");

    let timeout: Result<(), AppExit> = Err(AppExit::new(124, "timed out".to_string()));
    assert_eq!(run_status(&timeout).0, "overall_timeout");

    let interrupted: Result<(), AppExit> = Err(AppExit::new(130, "ctrl-c".to_string()));
    assert_eq!(run_status(&interrupted).0, "interrupted");

    let cell_error: Result<(), AppExit> = Err(AppExit::new(1, "cell failed".to_string()));
    let (label, message) = run_status(&cell_error);
    assert_eq!(label, "error");
    assert_eq!(message.unwrap(), "cell failed");
}

#[test]
fn should_include_outputs_respects_inclusion_mode() {
    let clean = vec![json_object(vec![("output_type", json_text("stream")), ("text", json_text("ok\n"))])];
    let failing = vec![json_object(vec![
        ("output_type", json_text("error")),
        ("ename", json_text("E")),
        ("evalue", json_text("x")),
        ("traceback", Json::Array(Vec::new())),
    ])];
    assert!(should_include_outputs(OutputInclusion::All, &clean));
    assert!(!should_include_outputs(OutputInclusion::Omitted, &failing));
    assert!(!should_include_outputs(OutputInclusion::OnError, &clean));
    assert!(should_include_outputs(OutputInclusion::OnError, &failing));
}

#[test]
fn uri_encoding_escapes_reserved_bytes() {
    assert_eq!(percent_encode("a b/c-d_e.f"), "a%20b/c-d_e.f");
    assert_eq!(percent_encode("é"), "%C3%A9");
    assert_eq!(notebook_uri("x y.ipynb"), "notebook:///x%20y.ipynb");
    assert_eq!(percent_decode("%c3%a9").unwrap(), "é");
}

#[test]
fn malformed_resource_uris_are_refused() {
    assert!(matches!(parse_notebook_uri("file:///x.ipynb"), Err(UriError::MissingScheme)));
    let truncated = parse_notebook_uri("notebook:///x%2").unwrap_err();
    assert!(matches!(truncated, UriError::Truncated));
    assert_eq!(truncated.message(), "Invalid percent-encoded resource URI");
    let bad = parse_notebook_uri("notebook:///x%zz").unwrap_err();
    assert_eq!(
        bad.message(),
        "Invalid percent-encoded resource URI: invalid digit found in string"
    );
    assert!(matches!(parse_notebook_uri("notebook:///%ff"), Err(UriError::NotUtf8(_))));
}

#[test]
fn inclusion_and_line_limits_come_from_the_arguments() {
    assert_eq!(output_inclusion(&json_object(vec![])), OutputInclusion::All);
    assert_eq!(
        output_inclusion(&json_object(vec![("include_outputs", Json::Bool(false))])),
        OutputInclusion::Omitted
    );
    assert_eq!(
        output_inclusion(&json_object(vec![("include_outputs", json_text("on_error"))])),
        OutputInclusion::OnError
    );
    assert_eq!(output_line_limit(&json_object(vec![])), Some(100));
    assert_eq!(
        output_line_limit(&json_object(vec![("output_lines", Json::Number("7".into()))])),
        Some(7)
    );
    assert_eq!(output_line_limit(&json_object(vec![("full_output", Json::Bool(true))])), None);
}

#[test]
fn read_filters_lines_and_truncates_outputs() {
    let mut cell = Cell::new("code");
    cell.set_source("first\nsecond".into());
    cell.outputs = vec![json_object(vec![("output_type", json_text("stream")), ("text", json_text("abcdefgh"))])];
    let lines = selected_source_lines(&cell, "2").unwrap();
    assert_eq!(lines[0].1, "second");
    let outputs = truncate_outputs(&cell.outputs, Some(3));
    let first = &outputs.as_array().unwrap()[0];
    assert_eq!(first.get_str("text").unwrap(), "abc\n... output truncated ...\n");
}

#[test]
fn every_string_of_an_output_is_cut_to_the_limit() {
    let output = json_object(vec![("output_type", json_text("stream")), ("text", json_text("abcdefgh"))]);
    let cut = truncate_output_value(&output, 3);
    assert_eq!(cut.get_str("text").unwrap(), "abc\n... output truncated ...\n");
    assert_eq!(cut.get_str("output_type").unwrap(), "str\n... output truncated ...\n");
    let wider = truncate_output_value(&output, 6);
    assert_eq!(wider.get_str("output_type").unwrap(), "stream");
    assert_eq!(wider.get_str("text").unwrap(), "abcdef\n... output truncated ...\n");
    let all = truncate_outputs(&vec![output.duplicate()], None);
    assert_eq!(all, Json::Array(vec![output]));
}

#[test]
fn protocol_version_and_relative_paths() {
    assert_eq!(protocol_version(Some("2025-03-26")), "2025-03-26");
    assert_eq!(protocol_version(Some("1999-01-01")), "2025-11-25");
    assert_eq!(protocol_version(None), "2025-11-25");
    assert_eq!(relative_display("/work", "/work/a/b.ipynb"), "a/b.ipynb");
    assert_eq!(relative_display("/work", "/elsewhere/c.ipynb"), "/elsewhere/c.ipynb");
}
