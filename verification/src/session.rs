//! Persistent kernel sessions: the registry records, how one is found, the
//! random ids and tokens, and how a daemon's startup answer is read. The
//! registry directory, the daemon process and the socket live outside the
//! library.
use crate::json::{Json, JsonV};
use crate::notebook::opt_string_view;
use crate::text::{append_str, chars_of, str_equal, string_of};
use vstd::prelude::*;

verus! {

/// A running session as the registry stores it.
#[derive(Debug)]
pub struct SessionRecord {
    pub id: String,
    pub name: String,
    pub kernel_label: String,
    pub display_name: String,
    pub language: Option<String>,
    pub pid: u32,
    pub port: u16,
    pub token: String,
    pub cwd: String,
    pub created_at: u64,
}

/// The overall execution deadline passed.
#[derive(Debug)]
pub struct OverallTimeout;

impl OverallTimeout {
    pub fn message(&self) -> (r: &'static str)
        ensures
            r@ == "Overall execution timeout expired"@,
    {
        "Overall execution timeout expired"
    }
}

// ---------------------------------------------------------------------------
// Ids and tokens
// ---------------------------------------------------------------------------
/// `RandomState::new`: a hasher builder with freshly drawn random keys.
/// Nothing is stated of it.
#[verifier::external_body]
fn fresh_random_state() -> (r: std::collections::hash_map::RandomState) {
    std::collections::hash_map::RandomState::new()
}

/// `BuildHasher::build_hasher` on a `RandomState`: a hasher keyed by the
/// builder's random keys. Nothing is stated of it, so nothing is known of
/// what it will digest to.
#[verifier::external_body]
fn keyed_hasher(state: &std::collections::hash_map::RandomState) -> (r:
    std::collections::hash_map::DefaultHasher) {
    std::hash::BuildHasher::build_hasher(state)
}

/// A fresh unpredictable 64-bit value: what a newly, randomly keyed hasher
/// digests to before it is fed anything.
fn random_word() -> (r: u64) {
    let state = fresh_random_state();
    let hasher = keyed_hasher(&state);
    std::hash::Hasher::finish(&hasher)
}

pub open spec fn is_hex_lower(c: char) -> bool {
    ('0' <= c && c <= '9') || ('a' <= c && c <= 'f')
}

fn hex_digit(d: u64) -> (c: char)
    requires
        d < 16,
    ensures
        c == crate::scripts::hex_lower(d as nat),
        is_hex_lower(c),
{
    if d < 10 {
        if d == 0 {
            '0'
        } else if d == 1 {
            '1'
        } else if d == 2 {
            '2'
        } else if d == 3 {
            '3'
        } else if d == 4 {
            '4'
        } else if d == 5 {
            '5'
        } else if d == 6 {
            '6'
        } else if d == 7 {
            '7'
        } else if d == 8 {
            '8'
        } else {
            '9'
        }
    } else if d == 10 {
        'a'
    } else if d == 11 {
        'b'
    } else if d == 12 {
        'c'
    } else if d == 13 {
        'd'
    } else if d == 14 {
        'e'
    } else {
        'f'
    }
}

/// The last `n` base-16 digits of `v`, most significant first, in lowercase.
pub open spec fn hex_digits(v: nat, n: nat) -> Seq<char>
    decreases n,
{
    if n == 0 {
        Seq::empty()
    } else {
        hex_digits(v / 16, (n - 1) as nat).push(crate::scripts::hex_lower(v % 16))
    }
}

/// `{:016x}` of `v`: its sixteen base-16 digits, most significant first.
pub open spec fn hex16(v: u64) -> Seq<char> {
    hex_digits(v as nat, 16)
}

/// The words in turn, each as `hex16`.
pub open spec fn hex_words(ws: Seq<u64>) -> Seq<char>
    decreases ws.len(),
{
    if ws.len() == 0 {
        Seq::empty()
    } else {
        hex_words(ws.drop_last()) + hex16(ws.last())
    }
}

/// `hex_digits(v, n)` has `n` characters, each a lowercase hex digit.
pub proof fn lemma_hex_digits_shape(v: nat, n: nat)
    ensures
        hex_digits(v, n).len() == n,
        forall|i: int| 0 <= i < n ==> is_hex_lower(#[trigger] hex_digits(v, n)[i]),
    decreases n,
{
    if n > 0 {
        lemma_hex_digits_shape(v / 16, (n - 1) as nat);
        let d = v % 16;
        assert(is_hex_lower(crate::scripts::hex_lower(d)));
    }
}

/// `hex_words(ws)` has sixteen characters per word, each a lowercase hex digit.
pub proof fn lemma_hex_words_shape(ws: Seq<u64>)
    ensures
        hex_words(ws).len() == 16 * ws.len(),
        forall|i: int| 0 <= i < hex_words(ws).len() ==> is_hex_lower(#[trigger] hex_words(ws)[i]),
    decreases ws.len(),
{
    if ws.len() > 0 {
        lemma_hex_words_shape(ws.drop_last());
        lemma_hex_digits_shape(ws.last() as nat, 16);
        let a = hex_words(ws.drop_last());
        let b = hex16(ws.last());
        assert forall|i: int| 0 <= i < hex_words(ws).len() implies is_hex_lower(
            #[trigger] hex_words(ws)[i],
        ) by {
            if i < a.len() {
                assert(hex_words(ws)[i] == a[i]);
            } else {
                assert(hex_words(ws)[i] == b[i - a.len()]);
            }
        }
    }
}

/// Appends the last `n` base-16 digits of `v`, most significant first.
fn push_hex_digits(out: &mut Vec<char>, v: u64, n: usize)
    ensures
        final(out)@ == old(out)@ + hex_digits(v as nat, n as nat),
    decreases n,
{
    if n > 0 {
        push_hex_digits(out, v / 16, n - 1);
        out.push(hex_digit(v % 16));
    } else {
        assert(old(out)@ + hex_digits(v as nat, 0) =~= old(out)@);
    }
}

/// Appends `{:016x}` of `v`.
fn push_hex16(out: &mut Vec<char>, v: u64)
    ensures
        final(out)@ == old(out)@ + hex16(v),
{
    push_hex_digits(out, v, 16);
}

/// The words as hex, each `{:016x}`, one after another.
pub fn hex_of_words(ws: &Vec<u64>) -> (r: String)
    ensures
        r@ == hex_words(ws@),
{
    let mut out: Vec<char> = Vec::new();
    let mut i: usize = 0;
    while i < ws.len()
        invariant
            i <= ws@.len(),
            out@ == hex_words(ws@.take(i as int)),
        decreases ws@.len() - i,
    {
        let ghost before = out@;
        push_hex16(&mut out, ws[i]);
        proof {
            let t = ws@.take(i as int + 1);
            assert(t.drop_last() =~= ws@.take(i as int));
            assert(t.last() == ws@[i as int]);
        }
        i = i + 1;
    }
    assert(ws@.take(ws@.len() as int) =~= ws@);
    string_of(out.as_slice())
}

/// `words` (at least one) freshly drawn random 64-bit values as hex, each
/// `{:016x}`.
pub fn random_hex(words: usize) -> (r: String)
    requires
        words <= usize::MAX / 16,
    ensures
        exists|ws: Seq<u64>|
            ws.len() == (if words == 0 {
                1
            } else {
                words
            }) && r@ == #[trigger] hex_words(ws),
        r@.len() == 16 * (if words == 0 {
            1
        } else {
            words
        }),
        forall|i: int| 0 <= i < r@.len() ==> is_hex_lower(#[trigger] r@[i]),
{
    let n = if words == 0 {
        1
    } else {
        words
    };
    let mut drawn: Vec<u64> = Vec::new();
    let mut i: usize = 0;
    while i < n
        invariant
            i <= n,
            drawn@.len() == i,
        decreases n - i,
    {
        drawn.push(random_word());
        i = i + 1;
    }
    let r = hex_of_words(&drawn);
    proof {
        lemma_hex_words_shape(drawn@);
    }
    r
}

/// A new session id: one random word as 16 lowercase hex digits.
pub fn new_id() -> (r: String)
    ensures
        exists|w: u64| r@ == #[trigger] hex16(w),
        r@.len() == 16,
        forall|i: int| 0 <= i < r@.len() ==> is_hex_lower(#[trigger] r@[i]),
{
    let r = random_hex(1);
    proof {
        let ws = choose|ws: Seq<u64>| ws.len() == 1 && r@ == #[trigger] hex_words(ws);
        assert(ws.drop_last() =~= Seq::<u64>::empty());
        assert(hex_words(ws.drop_last()) == Seq::<char>::empty());
        assert(ws.last() == ws[0]);
        assert(hex_words(ws) =~= hex16(ws[0]));
    }
    r
}

/// A new session token: four random words as 64 lowercase hex digits.
pub fn new_token() -> (r: String)
    ensures
        exists|ws: Seq<u64>| ws.len() == 4 && r@ == #[trigger] hex_words(ws),
        r@.len() == 64,
        forall|i: int| 0 <= i < r@.len() ==> is_hex_lower(#[trigger] r@[i]),
{
    random_hex(4)
}

/// Seconds since the Unix epoch by the system clock (`SystemTime::now`
/// against `UNIX_EPOCH`), or `None` when the clock is before the epoch.
/// Nothing is stated of the value.
#[verifier::external_body]
fn unix_seconds() -> (r: Option<u64>) {
    std::time::SystemTime::now().duration_since(std::time::UNIX_EPOCH).ok().map(|d| d.as_secs())
}

/// A clock reading as Unix seconds: the seconds since the epoch, or 0 for a
/// clock set before the epoch (`None`).
pub fn seconds_or_zero(reading: Option<u64>) -> (r: u64)
    ensures
        r == match reading {
            Some(s) => s,
            None => 0,
        },
{
    match reading {
        Some(s) => s,
        None => 0,
    }
}

/// The current Unix time in seconds, 0 when the clock is before the epoch:
/// `seconds_or_zero` of the system clock's reading. The reading itself is
/// whatever the clock says, so nothing is stated of the value.
pub fn now_unix() -> (r: u64) {
    seconds_or_zero(unix_seconds())
}

// ---------------------------------------------------------------------------
// The registry
// ---------------------------------------------------------------------------
/// The file that holds a session's record: `{id}.json`.
pub fn record_file_name(id: &str) -> (r: String)
    ensures
        r@ == id@ + ".json"@,
{
    let mut out = chars_of(id);
    append_str(&mut out, ".json");
    string_of(out.as_slice())
}

/// `x` placed into `s` after every leading record created no later than it.
pub open spec fn insert_by_created(s: Seq<SessionRecord>, x: SessionRecord) -> Seq<SessionRecord>
    decreases s.len(),
{
    if s.len() == 0 {
        seq![x]
    } else if s[0].created_at <= x.created_at {
        seq![s[0]] + insert_by_created(s.drop_first(), x)
    } else {
        seq![x] + s
    }
}

/// The records in the order of a stable sort by `created_at`: each record in
/// turn is placed after the ones before it that were created no later.
pub open spec fn sorted_by_created(src: Seq<SessionRecord>) -> Seq<SessionRecord>
    decreases src.len(),
{
    if src.len() == 0 {
        Seq::empty()
    } else {
        insert_by_created(sorted_by_created(src.drop_last()), src.last())
    }
}

proof fn lemma_insert_at(s: Seq<SessionRecord>, x: SessionRecord, p: int)
    requires
        0 <= p <= s.len(),
        forall|q: int| 0 <= q < p ==> (#[trigger] s[q]).created_at <= x.created_at,
        p < s.len() ==> s[p].created_at > x.created_at,
    ensures
        s.insert(p, x) == insert_by_created(s, x),
    decreases p,
{
    if p == 0 {
        if s.len() == 0 {
            assert(s.insert(0, x) =~= seq![x]);
        } else {
            assert(s.insert(0, x) =~= seq![x] + s);
        }
    } else {
        let t = s.drop_first();
        assert forall|q: int| 0 <= q < p - 1 implies (#[trigger] t[q]).created_at <= x.created_at by {
            assert(t[q] == s[q + 1]);
        }
        if p < s.len() {
            assert(t[p - 1] == s[p]);
        }
        lemma_insert_at(t, x, p - 1);
        assert(s[0].created_at <= x.created_at);
        assert(s.insert(p, x) =~= seq![s[0]] + t.insert(p - 1, x));
    }
}

/// Orders records oldest first (by `created_at`), keeping the order of
/// records created in the same second.
pub fn sort_by_created(records: Vec<SessionRecord>) -> (r: Vec<SessionRecord>)
    ensures
        r@ == sorted_by_created(records@),
        r@.to_multiset() == records@.to_multiset(),
        forall|i: int, j: int| 0 <= i < j < r@.len() ==> r@[i].created_at <= r@[j].created_at,
{
    let ghost src = records@;
    let n = records.len();
    let mut out: Vec<SessionRecord> = Vec::new();
    let mut k: usize = 0;
    proof {
        assert(out@ =~= src.take(0));
    }
    for rec in it: records.into_iter()
        invariant
            it.seq() == src,
            k == it.index(),
            n == src.len(),
            out@ == sorted_by_created(src.take(k as int)),
            out@.to_multiset() == src.take(k as int).to_multiset(),
            forall|i: int, j: int| 0 <= i < j < out@.len() ==> out@[i].created_at <= out@[j].created_at,
    {
        proof {
            assert(src[k as int] == rec);
        }
        let mut p: usize = 0;
        while p < out.len() && out[p].created_at <= rec.created_at
            invariant
                p <= out@.len(),
                forall|q: int| 0 <= q < p ==> (#[trigger] out@[q]).created_at <= rec.created_at,
            ensures
                p <= out@.len(),
                forall|q: int| 0 <= q < p ==> (#[trigger] out@[q]).created_at <= rec.created_at,
                p < out@.len() ==> out@[p as int].created_at > rec.created_at,
            decreases out.len() - p,
        {
            p = p + 1;
        }
        let ghost before = out@;
        out.insert(p, rec);
        proof {
            lemma_insert_at(before, rec, p as int);
            assert(src.take(k + 1).drop_last() =~= src.take(k as int));
            vstd::seq_lib::to_multiset_insert(before, p as int, rec);
            assert(src.take(k + 1) =~= src.take(k as int).push(rec));
            vstd::seq_lib::to_multiset_build(src.take(k as int), rec);
            assert forall|i: int, j: int| 0 <= i < j < out@.len() implies out@[i].created_at
                <= out@[j].created_at by {
                if i < p && j == p {
                } else if i == p && j > p {
                    assert(out@[j] == before[j - 1]);
                    assert(before[p as int].created_at > rec.created_at);
                    if j - 1 > p {
                        assert(before[p as int].created_at <= before[j - 1].created_at);
                    }
                } else if i < p && j > p {
                    assert(out@[i] == before[i] && out@[j] == before[j - 1]);
                } else if j < p {
                    assert(out@[i] == before[i] && out@[j] == before[j]);
                } else {
                    assert(out@[i] == before[i - 1] && out@[j] == before[j - 1]);
                }
            }
        }
        k = k + 1;
    }
    proof {
        assert(src.take(src.len() as int) =~= src);
    }
    out
}

/// `r` is named `key`, by id or by name.
pub open spec fn answers_to(r: SessionRecord, key: Seq<char>) -> bool {
    r.id@ == key || r.name@ == key
}

/// The first record whose id or name is `name_or_id`.
pub fn find(records: &Vec<SessionRecord>, name_or_id: &str) -> (r: Option<usize>)
    ensures
        match r {
            Some(k) => k < records@.len() && answers_to(records@[k as int], name_or_id@)
                && forall|j: int| 0 <= j < k ==> !answers_to(#[trigger] records@[j], name_or_id@),
            None => forall|j: int|
                0 <= j < records@.len() ==> !answers_to(#[trigger] records@[j], name_or_id@),
        },
{
    let mut i: usize = 0;
    while i < records.len()
        invariant
            i <= records@.len(),
            forall|j: int| 0 <= j < i ==> !answers_to(#[trigger] records@[j], name_or_id@),
        decreases records.len() - i,
    {
        if str_equal(records[i].id.as_str(), name_or_id) || str_equal(
            records[i].name.as_str(),
            name_or_id,
        ) {
            return Some(i);
        }
        i = i + 1;
    }
    None
}

// ---------------------------------------------------------------------------
// Starting and reusing sessions
// ---------------------------------------------------------------------------
/// Why a session could not be started or used.
#[derive(Debug)]
pub enum SessionError {
    NameTaken(String),
    NoSuchSession(String),
    NotRunning(String),
    StartupTimedOut,
    ExitedBeforeStartup(String),
    StartFailed(String),
    MissingPort,
    NoUniqueId,
}

pub enum SessionFault {
    NameTaken(Seq<char>),
    NoSuchSession(Seq<char>),
    NotRunning(Seq<char>),
    StartupTimedOut,
    ExitedBeforeStartup(Seq<char>),
    StartFailed(Seq<char>),
    MissingPort,
    NoUniqueId,
}

impl View for SessionError {
    type V = SessionFault;

    open spec fn view(&self) -> SessionFault {
        match self {
            SessionError::NameTaken(s) => SessionFault::NameTaken(s@),
            SessionError::NoSuchSession(s) => SessionFault::NoSuchSession(s@),
            SessionError::NotRunning(s) => SessionFault::NotRunning(s@),
            SessionError::StartupTimedOut => SessionFault::StartupTimedOut,
            SessionError::ExitedBeforeStartup(s) => SessionFault::ExitedBeforeStartup(s@),
            SessionError::StartFailed(s) => SessionFault::StartFailed(s@),
            SessionError::MissingPort => SessionFault::MissingPort,
            SessionError::NoUniqueId => SessionFault::NoUniqueId,
        }
    }
}

pub open spec fn session_message(f: SessionFault) -> Seq<char> {
    match f {
        SessionFault::NameTaken(n) => "A session named '"@ + n + "' already exists"@,
        SessionFault::NoSuchSession(n) => "No session named '"@ + n + "'"@,
        SessionFault::NotRunning(n) => "Session '"@ + n
            + "' does not exist or is no longer running. Pass --create-session to create it, or run 'nbedit session start --name "@
            + n + "' first."@,
        SessionFault::StartupTimedOut => "Timed out waiting for the session kernel to start"@,
        SessionFault::ExitedBeforeStartup(d) => "Session kernel exited before starting up"@ + if d.len()
            == 0 {
            Seq::empty()
        } else {
            ": "@ + d
        },
        SessionFault::StartFailed(m) => "Failed to start session kernel: "@ + m,
        SessionFault::MissingPort => "Missing port in session daemon startup response"@,
        SessionFault::NoUniqueId => "Could not allocate a unique session id"@,
    }
}

impl SessionError {
    pub fn message(&self) -> (r: String)
        ensures
            r@ == session_message(self@),
    {
        let mut out: Vec<char> = Vec::new();
        match self {
            SessionError::NameTaken(n) => {
                append_str(&mut out, "A session named '");
                append_str(&mut out, n.as_str());
                append_str(&mut out, "' already exists");
            },
            SessionError::NoSuchSession(n) => {
                append_str(&mut out, "No session named '");
                append_str(&mut out, n.as_str());
                append_str(&mut out, "'");
            },
            SessionError::NotRunning(n) => {
                append_str(&mut out, "Session '");
                append_str(&mut out, n.as_str());
                append_str(
                    &mut out,
                    "' does not exist or is no longer running. Pass --create-session to create it, or run 'nbedit session start --name ",
                );
                append_str(&mut out, n.as_str());
                append_str(&mut out, "' first.");
            },
            SessionError::StartupTimedOut => {
                append_str(&mut out, "Timed out waiting for the session kernel to start");
            },
            SessionError::ExitedBeforeStartup(d) => {
                append_str(&mut out, "Session kernel exited before starting up");
                if !d.as_str().is_empty() {
                    append_str(&mut out, ": ");
                    append_str(&mut out, d.as_str());
                }
            },
            SessionError::StartFailed(m) => {
                append_str(&mut out, "Failed to start session kernel: ");
                append_str(&mut out, m.as_str());
            },
            SessionError::MissingPort => {
                append_str(&mut out, "Missing port in session daemon startup response");
            },
            SessionError::NoUniqueId => {
                append_str(&mut out, "Could not allocate a unique session id");
            },
        }
        proof {
            match self@ {
                SessionFault::NameTaken(n) => {
                    assert(out@ =~= "A session named '"@ + n + "' already exists"@);
                },
                SessionFault::NoSuchSession(n) => {
                    assert(out@ =~= "No session named '"@ + n + "'"@);
                },
                SessionFault::NotRunning(n) => {
                    assert(out@ =~= session_message(self@));
                },
                SessionFault::ExitedBeforeStartup(d) => {
                    assert(out@ =~= session_message(self@));
                },
                SessionFault::StartFailed(m) => {
                    assert(out@ =~= session_message(self@));
                },
                _ => {},
            }
        }
        string_of(out.as_slice())
    }
}

/// What `run --session` does with the registry's answer: `found` says
/// whether a record with the name exists and whether its daemon answered.
pub enum SessionPlan {
    /// Use the running session.
    Reuse,
    /// Start a new session, after removing a dead record when there is one.
    Create { remove_stale: bool },
    /// Refuse, after removing a dead record when there is one.
    Refuse { remove_stale: bool },
}

pub fn plan_for_run(found: Option<bool>, create_if_missing: bool) -> (r: SessionPlan)
    ensures
        match found {
            Some(true) => r is Reuse,
            Some(false) => if create_if_missing {
                r == (SessionPlan::Create { remove_stale: true })
            } else {
                r == (SessionPlan::Refuse { remove_stale: true })
            },
            None => if create_if_missing {
                r == (SessionPlan::Create { remove_stale: false })
            } else {
                r == (SessionPlan::Refuse { remove_stale: false })
            },
        },
{
    match found {
        Some(true) => SessionPlan::Reuse,
        Some(false) => {
            if create_if_missing {
                SessionPlan::Create { remove_stale: true }
            } else {
                SessionPlan::Refuse { remove_stale: true }
            }
        },
        None => {
            if create_if_missing {
                SessionPlan::Create { remove_stale: false }
            } else {
                SessionPlan::Refuse { remove_stale: false }
            }
        },
    }
}

/// The daemon's first line, read: `ready` with a port (the pid defaults to
/// the spawned process's), or the failure it reports.
pub open spec fn startup_answer(payload: JsonV, child_pid: u32) -> Result<(u16, u32), SessionFault> {
    let status = crate::json::member_str(payload, "status"@);
    if status != Some("ready"@) {
        Err(
            SessionFault::StartFailed(
                match crate::json::member_str(payload, "message"@) {
                    Some(m) => m,
                    None => "unknown error"@,
                },
            ),
        )
    } else {
        match crate::json::member(payload, "port"@) {
            Some(JsonV::Number(t)) => match crate::json::json_u64(t) {
                Some(port) => Ok(
                    (
                        port as u16,
                        match crate::json::member(payload, "pid"@) {
                            Some(JsonV::Number(p)) => match crate::json::json_u64(p) {
                                Some(pid) => pid as u32,
                                None => child_pid,
                            },
                            _ => child_pid,
                        },
                    ),
                ),
                None => Err(SessionFault::MissingPort),
            },
            _ => Err(SessionFault::MissingPort),
        }
    }
}

fn member_u64(payload: &Json, key: &str) -> (r: Option<u64>)
    ensures
        r == match crate::json::member(payload@, key@) {
            Some(JsonV::Number(t)) => crate::json::json_u64(t),
            _ => None,
        },
{
    match payload.get(key) {
        Some(v) => v.as_u64(),
        None => None,
    }
}

pub fn read_startup(payload: &Json, child_pid: u32) -> (r: Result<(u16, u32), SessionError>)
    ensures
        match (r, startup_answer(payload@, child_pid)) {
            (Ok(x), Ok(y)) => x == y,
            (Err(e), Err(f)) => e@ == f,
            _ => false,
        },
{
    let ready = match payload.get_str("status") {
        Some(s) => str_equal(s.as_str(), "ready"),
        None => false,
    };
    if !ready {
        let m = match payload.get_str("message") {
            Some(m) => m.clone(),
            None => "unknown error".to_owned(),
        };
        return Err(SessionError::StartFailed(m));
    }
    let port = match member_u64(payload, "port") {
        Some(p) => p,
        None => {
            return Err(SessionError::MissingPort);
        },
    };
    let pid = match member_u64(payload, "pid") {
        Some(p) => p as u32,
        None => child_pid,
    };
    Ok((port as u16, pid))
}

} // verus!
