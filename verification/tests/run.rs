use nbedit::json::Json;
use nbedit::kernels::{KernelCandidate, KernelSource};
use nbedit::notebook::{Cell, Notebook};
use nbedit::run::{
    check_timeout, code_cells, execution_indices, failed_cell_number, finish_run, first_failed_cell,
    kernel_metadata, parse_environment, require_driver_dependencies, select_driver_python,
    status_of_report, write_back_executed, RunError,
};

fn run_cell(cell_type: &str, src: &str) -> Cell {
    let mut c = Cell::new(cell_type);
    c.set_source(src.to_string());
    c
}

fn run_notebook(cells: Vec<Cell>) -> Notebook {
    Notebook {
        nbformat: 4,
        nbformat_minor: 5,
        metadata: Json::Object(Vec::new()),
        cells,
        extra: Vec::new(),
    }
}

fn members(pairs: Vec<(&str, Json)>) -> Json {
    Json::Object(pairs.into_iter().map(|(k, v)| (k.to_string(), v)).collect())
}

fn python_kernel(interpreter: Option<&str>) -> KernelCandidate {
    KernelCandidate {
        id: "kernelspec:python311".into(),
        display_name: "Python 3.11".into(),
        language: Some("python".into()),
        source: KernelSource::Registered,
        kernelspec_name: Some("python311".into()),
        interpreter: interpreter.map(|s| s.to_string()),
        argv: vec![],
        resource_dir: None,
        usable: true,
        reason: None,
        score: 0,
    }
}

#[test]
fn parses_environment_values() {
    let parsed = parse_environment(&vec!["A=1".into(), "B=x=y".into()]).unwrap();
    let b = parsed.iter().rev().find(|(k, _)| k == "B").map(|(_, v)| v.as_str());
    assert_eq!(b, Some("x=y"));
    assert!(parse_environment(&vec!["BROKEN".into()]).is_err());
}

#[test]
fn selected_python_kernel_interpreter_is_preferred_as_driver() {
    let interpreter = "/opt/python311/bin/python";
    let candidate = python_kernel(Some(interpreter));
    let selected = select_driver_python(None, &candidate, |path| path == interpreter).unwrap();
    assert_eq!(selected, interpreter);
}

#[test]
fn environment_items_keep_their_order_and_report_the_bad_one() {
    let parsed =
        parse_environment(&vec!["A=1".into(), "A=2".into(), "EMPTY=".into()]).unwrap();
    assert_eq!(
        parsed,
        vec![
            ("A".to_string(), "1".to_string()),
            ("A".to_string(), "2".to_string()),
            ("EMPTY".to_string(), String::new())
        ]
    );
    let missing = parse_environment(&vec!["OK=1".into(), "NOPE".into(), "=x".into()]).unwrap_err();
    assert_eq!(missing.message(), "Invalid --env 'NOPE'; expected KEY=VALUE");
    let empty_key = parse_environment(&vec!["=x".into()]).unwrap_err();
    assert_eq!(empty_key.message(), "Invalid --env '=x'");
    let nul = parse_environment(&vec!["K=a\0b".into()]).unwrap_err();
    assert!(matches!(nul, RunError::InvalidEnv(_)));
}

#[test]
fn timeout_accepts_minus_one_and_up() {
    assert!(check_timeout(-1).is_ok());
    assert!(check_timeout(0).is_ok());
    let err = check_timeout(-2).unwrap_err();
    assert_eq!(err.message(), "--timeout must be -1 or a non-negative number");
}

#[test]
fn driver_falls_back_to_path_pythons_and_explains_failure() {
    let candidate = python_kernel(Some("/opt/py/bin/python"));
    assert_eq!(select_driver_python(None, &candidate, |p| p == "python").unwrap(), "python");
    let err = select_driver_python(None, &candidate, |_| false).unwrap_err();
    assert_eq!(err.code(), 2);
    assert_eq!(
        err.message(),
        "No Python driver with nbclient and nbformat was found. Install them for the selected kernel with:\n  \"/opt/py/bin/python\" -m pip install nbclient nbformat\nor pass --driver-python <path>"
    );
    let given = select_driver_python(Some("/x/python"), &candidate, |_| true).unwrap();
    assert_eq!(given, "/x/python");
    let refused = require_driver_dependencies("/x/python", |_| false).unwrap_err();
    assert_eq!(refused.code(), 2);
    assert!(refused.message().starts_with("Driver Python '/x/python' cannot import"));
}

#[test]
fn code_cells_and_execution_indices_follow_the_selection() {
    let nb = run_notebook(vec![
        run_cell("code", "a"),
        run_cell("markdown", "m"),
        run_cell("code", "b"),
        run_cell("code", "c"),
    ]);
    assert!(matches!(code_cells(&nb, &vec![1]), Err(RunError::NoCodeCells)));
    let code = code_cells(&nb, &vec![1, 2]).unwrap();
    assert_eq!(code, vec![2]);
    assert_eq!(execution_indices(&nb, &code, false), vec![2]);
    assert_eq!(execution_indices(&nb, &code, true), vec![0, 2]);
    assert_eq!(failed_cell_number(&vec![0, 2], Some(1)), Some(3));
    assert_eq!(failed_cell_number(&vec![0, 2], Some(2)), None);
    assert_eq!(failed_cell_number(&vec![0, 2], None), None);
}

#[test]
fn status_and_outcome_of_a_run() {
    let report = members(vec![("status", Json::Str("cell_error".into()))]);
    assert_eq!(status_of_report(Some(&report), false, false), "cell_error");
    assert_eq!(status_of_report(Some(&report), false, true), "interrupted");
    assert_eq!(status_of_report(None, true, false), "overall_timeout");
    assert_eq!(status_of_report(None, false, false), "driver_failure");
    assert!(finish_run("ok", None, false).is_ok());
    assert!(finish_run("ok_with_errors", None, false).is_ok());
    let missing = finish_run("missing_dependency", None, false).unwrap_err();
    assert_eq!((missing.code(), missing.message().as_str()), (2, "nbclient/nbformat not installed"));
    let timeout = finish_run("overall_timeout", Some("x"), true).unwrap_err();
    assert_eq!(timeout.code(), 124);
    assert_eq!(finish_run("interrupted", None, true).unwrap_err().code(), 130);
    let kernel = finish_run("kernel_error", Some("boom"), true).unwrap_err();
    assert_eq!((kernel.code(), kernel.message().as_str()), (1, "boom"));
    assert!(finish_run("something_else", None, true).is_ok());
    let driver = finish_run("something_else", None, false).unwrap_err();
    assert_eq!(driver.message(), "Execution driver failed");
}

#[test]
fn executed_cells_are_written_back() {
    let mut nb = run_notebook(vec![run_cell("code", "a"), run_cell("code", "b")]);
    let executed = vec![members(vec![
        ("outputs", Json::Array(vec![members(vec![("output_type", Json::Str("stream".into()))])])),
        ("execution_count", Json::Number("7".into())),
        ("id", Json::Str("new-id".into())),
    ])];
    assert!(matches!(
        write_back_executed(&mut nb, &vec![1], &vec![0, 1], &executed),
        Err(RunError::CellCountMismatch)
    ));
    assert!(matches!(
        write_back_executed(&mut nb, &vec![1], &vec![0], &executed),
        Err(RunError::SelectedCellMissing)
    ));
    write_back_executed(&mut nb, &vec![1], &vec![1], &executed).unwrap();
    assert_eq!(nb.cells[1].outputs.len(), 1);
    assert_eq!(nb.cells[1].execution_count, Some(Json::Number("7".into())));
    assert_eq!(nb.cells[1].id.as_deref(), Some("new-id"));
    assert!(nb.cells[0].outputs.is_empty());
}

#[test]
fn driver_metadata_names_the_kernelspec() {
    let meta = members(vec![("kernelspec", members(vec![("name", Json::Str("old".into()))]))]);
    let out = kernel_metadata(&meta, Some("python311"));
    assert_eq!(
        out.get("kernelspec").unwrap().get_str("name").map(|s| s.as_str()),
        Some("python311")
    );
    let null_spec = members(vec![("kernelspec", Json::Null)]);
    let out = kernel_metadata(&null_spec, Some("k"));
    assert_eq!(out.get("kernelspec").unwrap().get_str("name").map(|s| s.as_str()), Some("k"));
    let without = members(vec![]);
    assert_eq!(kernel_metadata(&without, Some("k")), without);
}

#[test]
fn the_first_selected_code_cell_with_an_error_is_reported() {
    let error = members(vec![("output_type", Json::Str("error".into()))]);
    let stream = members(vec![("output_type", Json::Str("stream".into()))]);
    let mut ok = run_cell("code", "a");
    ok.outputs.push(stream);
    let mut bad = run_cell("code", "b");
    bad.outputs.push(error.duplicate());
    let mut md = run_cell("markdown", "m");
    md.outputs.push(error);
    let mut later = run_cell("code", "c");
    later.outputs.push(members(vec![("output_type", Json::Str("error".into()))]));
    let nb = run_notebook(vec![ok, md, bad, later]);
    assert_eq!(first_failed_cell(&nb, &vec![0, 1, 2, 3]), Some(3));
    assert_eq!(first_failed_cell(&nb, &vec![3]), Some(4));
    assert_eq!(first_failed_cell(&nb, &vec![0, 1]), None);
}
