use nbedit::scripts::{build_daemon_script, build_script};

#[test]
fn generated_script_has_finally_persistence() {
    let script = build_script("nb.ipynb", "report.json", 60, "python3", false, 60, 4, true);
    assert!(script.contains("finally:\n        if nb is not None:"));
    assert!(script.contains("json.dump(result, f)"));
}

#[test]
fn no_limit_maps_to_python_none() {
    let script = build_script("nb.ipynb", "report.json", -1, "python3", false, 60, 4, true);
    assert!(script.contains("timeout=None"));
}

#[test]
fn windows_driver_uses_selector_event_loop_policy() {
    let script = build_script("nb.ipynb", "report.json", 60, "python3", false, 60, 4, true);
    assert!(script.contains("WindowsSelectorEventLoopPolicy"));
    assert!(
        script.find("WindowsSelectorEventLoopPolicy").unwrap()
            < script.find("import nbformat").unwrap()
    );
}

#[test]
fn daemon_script_preserves_metadata_and_honors_iopub_timeout() {
    let script = build_daemon_script("python3", "tok", 60);
    assert!(script.contains("metadata=cell_req.get('metadata', {})"));
    assert!(script.contains("client.iopub_timeout = req.get('iopub_timeout', 4)"));
}

#[test]
fn run_script_embeds_its_arguments_as_python_literals() {
    let script = build_script("dir/n \"1\".ipynb", "r.json", 30, "py3", true, 7, 9, false);
    assert!(script.contains("timeout=30"));
    assert!(script.contains("kernel_name=\"py3\""));
    assert!(script.contains("allow_errors=True"));
    assert!(script.contains("startup_timeout=7"));
    assert!(script.contains("iopub_timeout=9"));
    assert!(script.contains("record_timing=False"));
    assert!(script.contains("\"dir/n \\\"1\\\".ipynb\""));
}

#[test]
fn daemon_script_embeds_kernel_token_and_startup_timeout() {
    let script = build_daemon_script("my-kernel", "s3cret", 45);
    assert!(script.contains("KERNEL_NAME = \"my-kernel\"\n"));
    assert!(script.contains("TOKEN = \"s3cret\"\n"));
    assert!(script.contains("STARTUP_TIMEOUT = 45"));
}
