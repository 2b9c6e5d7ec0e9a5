use nbedit::json::Json;
use nbedit::session::{
    find, hex_of_words, new_id, new_token, now_unix, plan_for_run, random_hex, read_startup, record_file_name,
    seconds_or_zero, sort_by_created, OverallTimeout, SessionError, SessionPlan, SessionRecord,
};

fn record(id: &str, name: &str, created_at: u64) -> SessionRecord {
    SessionRecord {
        id: id.into(),
        name: name.into(),
        kernel_label: "python3".into(),
        display_name: "Python 3".into(),
        language: Some("python".into()),
        pid: 1234,
        port: 5555,
        token: "secret".into(),
        cwd: "/tmp".into(),
        created_at,
    }
}

fn startup(pairs: Vec<(&str, Json)>) -> Json {
    Json::Object(pairs.into_iter().map(|(k, v)| (k.to_string(), v)).collect())
}

#[test]
fn random_hex_produces_distinct_high_entropy_values() {
    let a = new_id();
    let b = new_id();
    assert_ne!(a, b);
    assert_eq!(a.len(), 16);
    let token = new_token();
    assert_eq!(token.len(), 64);
}

#[test]
fn registry_roundtrips_records() {
    let records = vec![record("abc123", "demo", now_unix())];
    let found = find(&records, "demo").unwrap();
    assert_eq!(records[found].id, "abc123");
    let found_by_id = find(&records, "abc123").unwrap();
    assert_eq!(records[found_by_id].name, "demo");
    assert_eq!(record_file_name("abc123"), "abc123.json");
}

#[test]
fn find_returns_none_for_unknown_session() {
    let records: Vec<SessionRecord> = Vec::new();
    assert!(find(&records, "missing").is_none());
    let records = vec![record("abc123", "demo", 0)];
    assert!(find(&records, "missing").is_none());
}

#[test]
fn random_hex_is_lowercase_hex_of_the_requested_width() {
    for words in [0usize, 1, 3] {
        let h = random_hex(words);
        assert_eq!(h.len(), 16 * words.max(1));
        assert!(h.chars().all(|c| c.is_ascii_digit() || ('a'..='f').contains(&c)));
    }
}

#[test]
fn records_sort_oldest_first_and_stably() {
    let sorted = sort_by_created(vec![
        record("c", "third", 30),
        record("a", "first", 10),
        record("b", "second", 30),
        record("d", "zero", 0),
    ]);
    let ids: Vec<&str> = sorted.iter().map(|r| r.id.as_str()).collect();
    assert_eq!(ids, vec!["d", "a", "c", "b"]);
    let by_name = vec![record("x", "same", 1), record("same", "other", 2)];
    assert_eq!(find(&by_name, "same"), Some(0));
}

#[test]
fn run_plan_follows_the_registry_answer() {
    assert!(matches!(plan_for_run(Some(true), false), SessionPlan::Reuse));
    assert!(matches!(plan_for_run(Some(false), true), SessionPlan::Create { remove_stale: true }));
    assert!(matches!(plan_for_run(Some(false), false), SessionPlan::Refuse { remove_stale: true }));
    assert!(matches!(plan_for_run(None, true), SessionPlan::Create { remove_stale: false }));
    assert!(matches!(plan_for_run(None, false), SessionPlan::Refuse { remove_stale: false }));
}

#[test]
fn startup_answer_is_read_or_refused() {
    let ready = startup(vec![
        ("status", Json::Str("ready".into())),
        ("port", Json::Number("4242".into())),
    ]);
    assert_eq!(read_startup(&ready, 77).unwrap(), (4242, 77));
    let with_pid = startup(vec![
        ("status", Json::Str("ready".into())),
        ("port", Json::Number("1".into())),
        ("pid", Json::Number("9".into())),
    ]);
    assert_eq!(read_startup(&with_pid, 77).unwrap(), (1, 9));
    let no_port = startup(vec![("status", Json::Str("ready".into()))]);
    assert!(matches!(read_startup(&no_port, 1), Err(SessionError::MissingPort)));
    let failed = startup(vec![
        ("status", Json::Str("error".into())),
        ("message", Json::Str("no kernel".into())),
    ]);
    let err = read_startup(&failed, 1).unwrap_err();
    assert_eq!(err.message(), "Failed to start session kernel: no kernel");
    let silent = startup(vec![]);
    assert_eq!(
        read_startup(&silent, 1).unwrap_err().message(),
        "Failed to start session kernel: unknown error"
    );
}

#[test]
fn session_errors_have_messages() {
    assert_eq!(
        SessionError::NameTaken("demo".into()).message(),
        "A session named 'demo' already exists"
    );
    assert_eq!(
        SessionError::ExitedBeforeStartup(String::new()).message(),
        "Session kernel exited before starting up"
    );
    assert_eq!(
        SessionError::ExitedBeforeStartup("boom".into()).message(),
        "Session kernel exited before starting up: boom"
    );
    assert!(SessionError::NotRunning("s".into())
        .message()
        .ends_with("run 'nbedit session start --name s' first."));
    assert_eq!(OverallTimeout.message(), "Overall execution timeout expired");
}

#[test]
fn words_are_written_as_sixteen_hex_digits_each() {
    assert_eq!(hex_of_words(&vec![0xdead_beef]), "00000000deadbeef");
    assert_eq!(
        hex_of_words(&vec![u64::MAX, 1]),
        "ffffffffffffffff0000000000000001"
    );
    assert_eq!(hex_of_words(&vec![]), "");
    let w: u64 = 0x0123_4567_89ab_cdef;
    assert_eq!(hex_of_words(&vec![w]), format!("{:016x}", w));
}

#[test]
fn clock_reading_before_the_epoch_gives_zero() {
    assert_eq!(seconds_or_zero(None), 0);
    assert_eq!(seconds_or_zero(Some(1_700_000_000)), 1_700_000_000);
    assert!(now_unix() > 1_600_000_000);
}
