use nbedit::json::Json;
use nbedit::output_limit::{has_error, limit_output, limit_outputs, truncate_lines};

fn text(s: &str) -> Json {
    Json::Str(s.to_string())
}

fn object(members: Vec<(&str, Json)>) -> Json {
    Json::Object(members.into_iter().map(|(k, v)| (k.to_string(), v)).collect())
}

fn stream(t: &str) -> Json {
    object(vec![
        ("output_type", text("stream")),
        ("name", text("stdout")),
        ("text", text(t)),
    ])
}

fn numbered(prefix: &str, n: usize) -> String {
    (0..n).map(|i| format!("{prefix} {i}\n")).collect()
}

fn field<'a>(v: &'a Json, key: &str) -> &'a Json {
    v.get(key).unwrap()
}

#[test]
fn short_stream_output_is_unchanged() {
    let outputs = vec![stream("a\nb\n")];
    let limited = limit_outputs(&outputs, Some(10));
    assert_eq!(limited, outputs);
}

#[test]
fn long_stream_output_is_truncated_with_notice() {
    let t = numbered("line", 500);
    let outputs = vec![stream(&t)];
    let limited = limit_outputs(&outputs, Some(5));
    let shown = field(&limited[0], "text").as_str().unwrap();
    assert!(shown.starts_with("line 0\nline 1\nline 2\nline 3\nline 4\n"));
    assert!(shown.contains("showing 5 of 500 lines"));
    assert!(!shown.contains("line 5\n"));
}

#[test]
fn full_output_none_disables_truncation() {
    let t = numbered("line", 500);
    let outputs = vec![stream(&t)];
    let limited = limit_outputs(&outputs, None);
    assert_eq!(field(&limited[0], "text").as_str().unwrap(), &t);
}

#[test]
fn error_traceback_array_is_truncated_and_stays_an_array() {
    let traceback: Vec<Json> = (0..50).map(|i| Json::Str(format!("frame {i}\n"))).collect();
    let outputs = vec![object(vec![
        ("output_type", text("error")),
        ("ename", text("ValueError")),
        ("evalue", text("bad")),
        ("traceback", Json::Array(traceback)),
    ])];
    let limited = limit_outputs(&outputs, Some(3));
    let tb = field(&limited[0], "traceback").as_array().unwrap();
    assert_eq!(tb.len(), 1);
    assert!(tb[0].as_str().unwrap().contains("showing 3 of 50 lines"));
}

#[test]
fn display_data_text_plain_is_truncated() {
    let t = numbered("row", 200);
    let outputs = vec![object(vec![
        ("output_type", text("execute_result")),
        ("execution_count", Json::Number("1".to_string())),
        ("data", object(vec![("text/plain", text(&t))])),
    ])];
    let limited = limit_outputs(&outputs, Some(20));
    let shown = field(field(&limited[0], "data"), "text/plain").as_str().unwrap();
    assert!(shown.contains("showing 20 of 200 lines"));
}

#[test]
fn large_binary_payload_is_replaced_with_size_marker() {
    let image: String = "A".repeat(10_000);
    let outputs = vec![object(vec![
        ("output_type", text("display_data")),
        ("data", object(vec![("image/png", text(&image)), ("text/plain", text("<Figure>"))])),
    ])];
    let limited = limit_outputs(&outputs, Some(100));
    let png = field(field(&limited[0], "data"), "image/png");
    assert_eq!(field(png, "bytes"), &Json::Number("10000".to_string()));
    assert_eq!(field(png, "nbedit_omitted"), &Json::Bool(true));
    assert_eq!(field(field(&limited[0], "data"), "text/plain"), &text("<Figure>"));
}

#[test]
fn small_binary_payload_is_left_inline() {
    let icon = "A".repeat(100);
    let outputs = vec![object(vec![
        ("output_type", text("display_data")),
        ("data", object(vec![("image/png", text(&icon))])),
    ])];
    let limited = limit_outputs(&outputs, Some(100));
    let png = field(field(&limited[0], "data"), "image/png");
    assert_eq!(png.as_str().unwrap().len(), 100);
}

#[test]
fn full_output_none_skips_binary_omission_too() {
    let image: String = "A".repeat(10_000);
    let outputs = vec![object(vec![
        ("output_type", text("display_data")),
        ("data", object(vec![("image/png", text(&image))])),
    ])];
    let limited = limit_outputs(&outputs, None);
    let png = field(field(&limited[0], "data"), "image/png");
    assert_eq!(png.as_str().unwrap(), &image);
}

#[test]
fn has_error_detects_error_outputs() {
    let clean = vec![object(vec![("output_type", text("stream")), ("text", text("ok\n"))])];
    let failing = vec![object(vec![
        ("output_type", text("error")),
        ("ename", text("E")),
        ("evalue", text("x")),
        ("traceback", Json::Array(Vec::new())),
    ])];
    assert!(!has_error(&clean));
    assert!(has_error(&failing));
}

#[test]
fn truncate_lines_reports_counts_and_keeps_the_head() {
    let (kept, stats) = truncate_lines(&"a\nb\nc".to_string(), 2);
    assert_eq!(kept, "a\nb\n");
    assert_eq!(stats.total_lines, 3);
    assert_eq!(stats.total_bytes, 5);
    assert!(stats.truncated);
    let (whole, stats) = truncate_lines(&"é\n".to_string(), 2);
    assert_eq!(whole, "é\n");
    assert_eq!(stats.total_bytes, 3);
    assert!(!stats.truncated);
}

#[test]
fn outputs_of_other_kinds_are_left_alone() {
    let other = object(vec![("output_type", text("unknown")), ("text", text("x\ny\nz\n"))]);
    assert_eq!(limit_output(&other, 1), other);
    let not_object = text("plain");
    assert_eq!(limit_output(&not_object, 1), not_object);
}
