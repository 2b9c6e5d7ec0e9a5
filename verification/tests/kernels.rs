use nbedit::json::Json;
use nbedit::kernels::{
    candidate_marker, check_candidates, deduplicate, explicit_interpreter, find_requested,
    first_usable, kernelspec_argv, parent_or_current, python_candidate, rank,
    registered_candidate, resolve_requested, synthetic_spec, KernelCandidate, KernelError,
    KernelSource,
};

fn kernelspec(name: &str, source: KernelSource, usable: bool) -> KernelCandidate {
    KernelCandidate {
        id: format!("kernelspec:{name}"),
        display_name: name.to_string(),
        language: Some("python".into()),
        source,
        kernelspec_name: Some(name.into()),
        interpreter: None,
        argv: vec![],
        resource_dir: None,
        usable,
        reason: None,
        score: 0,
    }
}

fn interpreter_at(path: &str, source: KernelSource) -> KernelCandidate {
    python_candidate(path, source, true, true, true).unwrap()
}

#[test]
fn parent_or_current_normalizes_bare_filenames_to_dot() {
    assert_eq!(parent_or_current("notebook.ipynb"), ".");
    assert_eq!(parent_or_current("dir/notebook.ipynb"), "dir");
    assert_eq!(parent_or_current("/"), ".");
}

#[test]
fn python_candidate_preserves_supplied_interpreter_path() {
    let file = tempfile::NamedTempFile::new().unwrap();
    let interpreter = file.path();
    let path = interpreter.to_str().unwrap();
    let candidate =
        python_candidate(path, KernelSource::Explicit, false, interpreter.is_file(), false)
            .unwrap();
    assert_eq!(candidate.interpreter.as_deref(), Some(path));
}

#[test]
fn ranking_prefers_exact_kernelspec() {
    let mut candidates = vec![kernelspec("wanted", KernelSource::Registered, true)];
    rank(&mut candidates, Some("wanted"), Some("python"), ".");
    assert!(candidates[0].score >= 5_000);
}

#[test]
fn python_candidate_describes_the_interpreter() {
    assert!(python_candidate("/env/bin/python", KernelSource::Path, false, false, false).is_none());
    let c = python_candidate("/env/bin/python", KernelSource::Conda, true, true, false).unwrap();
    assert_eq!(c.id, "python:/env/bin/python");
    assert_eq!(c.display_name, "Python (bin)");
    assert_eq!(c.language.as_deref(), Some("python"));
    assert_eq!(
        c.argv,
        vec!["/env/bin/python", "-m", "ipykernel_launcher", "-f", "{connection_file}"]
    );
    assert!(!c.usable);
    assert_eq!(c.reason.as_deref(), Some("ipykernel is not installed"));
    assert_eq!(candidate_marker(&c), "unverified");
    let unchecked = python_candidate("python", KernelSource::Path, false, true, false).unwrap();
    assert!(unchecked.usable);
    assert_eq!(unchecked.display_name, "Python (python)");
    assert_eq!(candidate_marker(&unchecked), "unverified");
    let ready = interpreter_at("/env/bin/python", KernelSource::Conda);
    assert_eq!(ready.reason, None);
    assert_eq!(candidate_marker(&ready), "ready");
    assert_eq!(ready.execution_label(), "python:/env/bin/python");
}

#[test]
fn ranking_scores_and_orders_candidates() {
    let mut candidates = vec![
        interpreter_at("/work/.venv/bin/python", KernelSource::Workspace),
        kernelspec("other", KernelSource::Registered, true),
        kernelspec("broken", KernelSource::Explicit, false),
        kernelspec("wanted", KernelSource::Registered, true),
    ];
    rank(&mut candidates, Some("wanted"), Some("PYTHON"), "/work");
    let ids: Vec<&str> = candidates.iter().map(|c| c.id.as_str()).collect();
    assert_eq!(
        ids,
        vec![
            "kernelspec:wanted",
            "python:/work/.venv/bin/python",
            "kernelspec:other",
            "kernelspec:broken"
        ]
    );
    let scores: Vec<i32> = candidates.iter().map(|c| c.score).collect();
    assert_eq!(scores, vec![5900, 1450, 900, 500]);
}

#[test]
fn equal_scores_are_ordered_by_id() {
    let mut candidates = vec![
        kernelspec("b", KernelSource::Registered, true),
        kernelspec("a", KernelSource::Registered, true),
    ];
    rank(&mut candidates, None, None, "/nowhere");
    assert_eq!(candidates[0].id, "kernelspec:a");
    assert_eq!(candidates[1].id, "kernelspec:b");
}

#[test]
fn deduplicate_drops_repeated_interpreters_and_directories() {
    let mut first = kernelspec("one", KernelSource::Registered, true);
    first.resource_dir = Some("/k/one".into());
    let mut again = kernelspec("one-again", KernelSource::Registered, true);
    again.resource_dir = Some("/k/one".into());
    let env = interpreter_at("/env/bin/python", KernelSource::Conda);
    let env_again = interpreter_at("/env/bin/python", KernelSource::Path);
    let other = interpreter_at("/usr/bin/python3", KernelSource::Path);
    let kept = deduplicate(vec![first, again, env, env_again, other]);
    let ids: Vec<&str> = kept.iter().map(|c| c.id.as_str()).collect();
    assert_eq!(ids, vec!["kernelspec:one", "python:/env/bin/python", "python:/usr/bin/python3"]);
}

#[test]
fn requested_kernel_is_found_by_id_or_name_or_made_explicit() {
    let candidates = vec![
        kernelspec("a", KernelSource::Registered, true),
        kernelspec("b", KernelSource::Registered, true),
    ];
    assert_eq!(find_requested(&candidates, "b"), Some(1));
    assert_eq!(find_requested(&candidates, "kernelspec:a"), Some(0));
    assert_eq!(find_requested(&candidates, "c"), None);
    let found = resolve_requested(&candidates, "b", Some("python"));
    assert_eq!(found.id, "kernelspec:b");
    let made = resolve_requested(&candidates, "julia-1.10", Some("julia"));
    assert_eq!(made.id, "julia-1.10");
    assert_eq!(made.kernelspec_name.as_deref(), Some("julia-1.10"));
    assert_eq!(made.language.as_deref(), Some("julia"));
    assert_eq!(made.source, KernelSource::Explicit);
    assert_eq!(made.reason.as_deref(), Some("explicit kernelspec name"));
    assert_eq!(made.score, i32::MAX);
    assert_eq!(made.execution_label(), "julia-1.10");
}

#[test]
fn registered_kernelspecs_become_candidates() {
    let spec = Json::Object(vec![
        (
            "argv".to_string(),
            Json::Array(vec![
                Json::Str("/usr/bin/python3".into()),
                Json::Number("1".into()),
                Json::Str("-m".into()),
            ]),
        ),
        ("display_name".to_string(), Json::Str("Python 3".into())),
        ("language".to_string(), Json::Str("python".into())),
    ]);
    assert_eq!(kernelspec_argv(&spec), vec!["/usr/bin/python3", "-m"]);
    let c = registered_candidate("python3", &spec, "/k/python3", Some("/usr/bin/python3".into()));
    assert_eq!(c.id, "kernelspec:python3");
    assert_eq!(c.display_name, "Python 3");
    assert_eq!(c.language.as_deref(), Some("python"));
    assert_eq!(c.kernelspec_name.as_deref(), Some("python3"));
    assert_eq!(c.resource_dir.as_deref(), Some("/k/python3"));
    assert_eq!(c.source, KernelSource::Registered);
    let bare = registered_candidate("ir", &Json::Null, "/k/ir", None);
    assert_eq!(bare.display_name, "ir");
    assert!(bare.argv.is_empty());
    assert_eq!(bare.language, None);
}

#[test]
fn synthetic_spec_launches_the_interpreter() {
    let c = interpreter_at("/env/bin/python", KernelSource::Conda);
    let spec = synthetic_spec(&c).unwrap();
    assert_eq!(
        spec.get("argv"),
        Some(&Json::Array(
            ["/env/bin/python", "-m", "ipykernel_launcher", "-f", "{connection_file}"]
                .iter()
                .map(|s| Json::Str(s.to_string()))
                .collect()
        ))
    );
    assert_eq!(spec.get_str("display_name").map(|s| s.as_str()), Some("Python (bin)"));
    assert_eq!(spec.get_str("language").map(|s| s.as_str()), Some("python"));
    let err = synthetic_spec(&kernelspec("k", KernelSource::Registered, true)).unwrap_err();
    assert_eq!(err.message(), "synthetic kernel missing interpreter");
}

#[test]
fn explicit_interpreters_must_exist_and_have_ipykernel() {
    let missing = explicit_interpreter("/no/python", false, false).unwrap_err();
    assert_eq!(missing.message(), "Python interpreter '/no/python' does not exist");
    let lacking = explicit_interpreter("/p", true, false).unwrap_err();
    assert_eq!(
        lacking.message(),
        "Python interpreter '/p' cannot import ipykernel; install it with: /p -m pip install ipykernel"
    );
    let ok = explicit_interpreter("/p", true, true).unwrap();
    assert_eq!(ok.source, KernelSource::Explicit);
    assert!(ok.usable);
    assert_eq!(ok.reason, None);
}

#[test]
fn automatic_choice_takes_the_first_usable_candidate() {
    let candidates = vec![
        python_candidate("/a/bin/python", KernelSource::Workspace, false, true, false).unwrap(),
        python_candidate("/b/bin/python", KernelSource::Path, false, true, false).unwrap(),
        kernelspec("later", KernelSource::Registered, true),
    ];
    let chosen = first_usable(&candidates, |p| p == "/b/bin/python").unwrap();
    assert_eq!(chosen.id, "python:/b/bin/python");
    assert!(chosen.usable);
    let spec = first_usable(&candidates, |_| false).unwrap();
    assert_eq!(spec.id, "kernelspec:later");
    let firsts: Vec<KernelCandidate> = candidates[..2].iter().map(|c| c.duplicate()).collect();
    let none = first_usable(&firsts, |_| false);
    assert!(matches!(none, Err(KernelError::NoUsableKernel)));
}

#[test]
fn check_probes_python_interpreters_only() {
    let mut candidates = vec![
        python_candidate("/a/bin/python", KernelSource::Workspace, false, true, false).unwrap(),
        python_candidate("/b/bin/python", KernelSource::Path, false, true, false).unwrap(),
        kernelspec("spec", KernelSource::Registered, false),
    ];
    check_candidates(&mut candidates, |p| p == "/a/bin/python");
    assert!(candidates[0].usable);
    assert_eq!(candidates[0].reason, None);
    assert!(!candidates[1].usable);
    assert_eq!(candidates[1].reason.as_deref(), Some("interpreter cannot import ipykernel"));
    assert!(!candidates[2].usable);
    assert_eq!(candidates[2].reason, None);
}

#[test]
fn candidates_that_tie_keep_their_discovery_order() {
    let mut first = kernelspec("same", KernelSource::Registered, true);
    first.display_name = "first".into();
    let mut second = kernelspec("same", KernelSource::Registered, true);
    second.display_name = "second".into();
    let mut candidates = vec![first, second, kernelspec("zzz", KernelSource::Explicit, true)];
    rank(&mut candidates, None, None, "/nowhere");
    let names: Vec<&str> = candidates.iter().map(|c| c.display_name.as_str()).collect();
    assert_eq!(names, vec!["zzz", "first", "second"]);
}

#[test]
fn registered_kernelspec_ranks_above_path_python_when_notebook_names_none() {
    let registered = KernelCandidate {
        id: "kernelspec:py".into(),
        display_name: "py".into(),
        language: None,
        source: KernelSource::Registered,
        kernelspec_name: Some("py".into()),
        interpreter: None,
        argv: vec![],
        resource_dir: None,
        usable: true,
        reason: None,
        score: 0,
    };
    let mut on_path = interpreter_at("/usr/bin/python3", KernelSource::Path);
    on_path.language = None;
    let mut candidates = vec![on_path, registered];
    rank(&mut candidates, None, None, "/ws");
    assert_eq!(candidates[0].id, "kernelspec:py");
    assert_eq!(candidates[0].score, 400);
    assert_eq!(candidates[1].score, 100);
}
