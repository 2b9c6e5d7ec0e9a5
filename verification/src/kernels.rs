//! Kernel candidates: how a discovered kernel or Python environment is
//! described, ranked against a notebook, and deduplicated. Discovery itself
//! (files, environment variables, subprocesses) happens outside the library.
use crate::json::{lemma_view_array, lemma_view_object, member, member_str, pairs_view, Json, JsonV};
use crate::notebook::{copy_opt_string, copy_strings, opt_string_view, strings_view};
use crate::run::probed;
use crate::text::{append_str, chars_of, eq_ignore_ascii_case, str_equal, string_of};
use vstd::prelude::*;

verus! {

/// Where a kernel candidate was found.
#[derive(Debug, Clone, Copy, PartialEq, Eq, Structural)]
pub enum KernelSource {
    Registered,
    Workspace,
    ActiveEnvironment,
    Conda,
    Pyenv,
    Path,
    Explicit,
}

/// A kernelspec or Python interpreter that can run a notebook.
#[derive(Debug)]
pub struct KernelCandidate {
    pub id: String,
    pub display_name: String,
    pub language: Option<String>,
    pub source: KernelSource,
    pub kernelspec_name: Option<String>,
    pub interpreter: Option<String>,
    pub argv: Vec<String>,
    pub resource_dir: Option<String>,
    pub usable: bool,
    pub reason: Option<String>,
    pub score: i32,
}

/// The mathematical content of a [`KernelCandidate`].
pub struct KernelCandidateV {
    pub id: Seq<char>,
    pub display_name: Seq<char>,
    pub language: Option<Seq<char>>,
    pub source: KernelSource,
    pub kernelspec_name: Option<Seq<char>>,
    pub interpreter: Option<Seq<char>>,
    pub argv: Seq<Seq<char>>,
    pub resource_dir: Option<Seq<char>>,
    pub usable: bool,
    pub reason: Option<Seq<char>>,
    pub score: i32,
}

impl View for KernelCandidate {
    type V = KernelCandidateV;

    open spec fn view(&self) -> KernelCandidateV {
        KernelCandidateV {
            id: self.id@,
            display_name: self.display_name@,
            language: opt_string_view(self.language),
            source: self.source,
            kernelspec_name: opt_string_view(self.kernelspec_name),
            interpreter: opt_string_view(self.interpreter),
            argv: strings_view(self.argv@),
            resource_dir: opt_string_view(self.resource_dir),
            usable: self.usable,
            reason: opt_string_view(self.reason),
            score: self.score,
        }
    }
}

pub open spec fn candidates_view(v: Seq<KernelCandidate>) -> Seq<KernelCandidateV> {
    v.map_values(|c: KernelCandidate| c@)
}

impl KernelCandidate {
    /// The name under which the kernel is started: the kernelspec name, or
    /// the candidate id.
    pub fn execution_label(&self) -> (r: &str)
        ensures
            r@ == match self@.kernelspec_name {
                Some(n) => n,
                None => self@.id,
            },
    {
        match &self.kernelspec_name {
            Some(n) => n.as_str(),
            None => self.id.as_str(),
        }
    }

    /// A copy with the same content.
    pub fn duplicate(&self) -> (r: KernelCandidate)
        ensures
            r@ == self@,
    {
        KernelCandidate {
            id: self.id.clone(),
            display_name: self.display_name.clone(),
            language: copy_opt_string(&self.language),
            source: self.source,
            kernelspec_name: copy_opt_string(&self.kernelspec_name),
            interpreter: copy_opt_string(&self.interpreter),
            argv: copy_strings(&self.argv),
            resource_dir: copy_opt_string(&self.resource_dir),
            usable: self.usable,
            reason: copy_opt_string(&self.reason),
            score: self.score,
        }
    }
}

/// How `kernels` marks a candidate in its listing.
pub open spec fn marker_of(c: KernelCandidateV) -> Seq<char> {
    if c.reason matches Some(r) && r.len() >= 11 && r.take(11) == "not checked"@ {
        "unverified"@
    } else if c.usable {
        "ready"@
    } else {
        "unverified"@
    }
}

pub fn candidate_marker(c: &KernelCandidate) -> (r: &'static str)
    ensures
        r@ == marker_of(c@),
{
    let unchecked = match &c.reason {
        Some(r) => {
            let cs = chars_of(r.as_str());
            let p = chars_of("not checked");
            proof {
                reveal_strlit("not checked");
            }
            cs.len() >= p.len() && crate::text::chars_eq(
                crate::text::copy_range(cs.as_slice(), 0, p.len()).as_slice(),
                p.as_slice(),
            )
        },
        None => false,
    };
    if unchecked {
        "unverified"
    } else if c.usable {
        "ready"
    } else {
        "unverified"
    }
}

// ---------------------------------------------------------------------------
// Paths
// ---------------------------------------------------------------------------
/// What `Path::parent` gives for the path `p`, as text.
pub uninterp spec fn path_parent_of(p: Seq<char>) -> Option<Seq<char>>;

/// What `Path::file_name` gives for the path `p`, as text.
pub uninterp spec fn path_file_name_of(p: Seq<char>) -> Option<Seq<char>>;

/// Whether `Path::starts_with` holds: `base` is a prefix of `p`, component
/// by component.
pub uninterp spec fn path_has_prefix(p: Seq<char>, base: Seq<char>) -> bool;

/// Whether the two paths are equal as `Path`s (component by component).
pub uninterp spec fn same_path(a: Seq<char>, b: Seq<char>) -> bool;

/// `Path::parent`: the path without its last component; `None` for a root
/// or an empty path. The text of a parent is part of the text of `p`, so it
/// is valid UTF-8 and converts without loss.
#[verifier::external_body]
fn path_parent(p: &str) -> (r: Option<String>)
    ensures
        opt_string_view(r) == path_parent_of(p@),
{
    std::path::Path::new(p).parent().map(|q| q.to_string_lossy().into_owned())
}

/// `Path::file_name`: the last component, unless it is `..`.
#[verifier::external_body]
fn path_file_name(p: &str) -> (r: Option<String>)
    ensures
        opt_string_view(r) == path_file_name_of(p@),
{
    std::path::Path::new(p).file_name().map(|q| q.to_string_lossy().into_owned())
}

/// `Path::starts_with`.
#[verifier::external_body]
fn path_starts_with(p: &str, base: &str) -> (r: bool)
    ensures
        r == path_has_prefix(p@, base@),
{
    std::path::Path::new(p).starts_with(std::path::Path::new(base))
}

/// `Path == Path`.
#[verifier::external_body]
fn path_equal(a: &str, b: &str) -> (r: bool)
    ensures
        r == same_path(a@, b@),
{
    std::path::Path::new(a) == std::path::Path::new(b)
}

/// The directory that holds `path`, with `.` for a bare file name (where
/// `Path::parent` gives the empty path) and for a root.
pub open spec fn parent_or_current_of(path: Seq<char>) -> Seq<char> {
    match path_parent_of(path) {
        Some(q) => if q.len() > 0 {
            q
        } else {
            "."@
        },
        None => "."@,
    }
}

pub fn parent_or_current(path: &str) -> (r: String)
    ensures
        r@ == parent_or_current_of(path@),
{
    match path_parent(path) {
        Some(q) => {
            if !q.as_str().is_empty() {
                q
            } else {
                ".".to_owned()
            }
        },
        None => ".".to_owned(),
    }
}

// ---------------------------------------------------------------------------
// Python interpreters as candidates
// ---------------------------------------------------------------------------
/// The name shown for an interpreter: its directory's name, else `python`.
pub open spec fn interpreter_dir_name(path: Seq<char>) -> Seq<char> {
    match path_parent_of(path) {
        Some(q) => match path_file_name_of(q) {
            Some(n) => n,
            None => "python"@,
        },
        None => "python"@,
    }
}

/// The candidate for the interpreter at `path` (which exists). With
/// `validate`, it is usable exactly when it can import ipykernel.
pub open spec fn python_candidate_of(
    path: Seq<char>,
    source: KernelSource,
    validate: bool,
    has_ipykernel: bool,
) -> KernelCandidateV {
    let usable = !validate || has_ipykernel;
    KernelCandidateV {
        id: "python:"@ + path,
        display_name: "Python ("@ + interpreter_dir_name(path) + ")"@,
        language: Some("python"@),
        source,
        kernelspec_name: None,
        interpreter: Some(path),
        argv: seq![path, "-m"@, "ipykernel_launcher"@, "-f"@, "{connection_file}"@],
        resource_dir: None,
        usable,
        reason: if validate {
            if usable {
                None
            } else {
                Some("ipykernel is not installed"@)
            }
        } else {
            Some("not checked; use --check to probe ipykernel"@)
        },
        score: 0,
    }
}

/// The candidate for the interpreter at `path`; `None` when it is not a
/// file. `has_ipykernel` is what probing the interpreter found (only read
/// with `validate`).
pub fn python_candidate(
    path: &str,
    source: KernelSource,
    validate: bool,
    is_file: bool,
    has_ipykernel: bool,
) -> (r: Option<KernelCandidate>)
    ensures
        match r {
            None => !is_file,
            Some(c) => is_file && c@ == python_candidate_of(path@, source, validate, has_ipykernel),
        },
{
    if !is_file {
        return None;
    }
    let name = match path_parent(path) {
        Some(q) => match path_file_name(q.as_str()) {
            Some(n) => n,
            None => "python".to_owned(),
        },
        None => "python".to_owned(),
    };
    let usable = !validate || has_ipykernel;
    let mut id = chars_of("python:");
    append_str(&mut id, path);
    let mut display = chars_of("Python (");
    append_str(&mut display, name.as_str());
    append_str(&mut display, ")");
    let mut argv: Vec<String> = Vec::new();
    argv.push(path.to_owned());
    argv.push("-m".to_owned());
    argv.push("ipykernel_launcher".to_owned());
    argv.push("-f".to_owned());
    argv.push("{connection_file}".to_owned());
    let reason = if validate {
        if usable {
            None
        } else {
            Some("ipykernel is not installed".to_owned())
        }
    } else {
        Some("not checked; use --check to probe ipykernel".to_owned())
    };
    let c = KernelCandidate {
        id: string_of(id.as_slice()),
        display_name: string_of(display.as_slice()),
        language: Some("python".to_owned()),
        source,
        kernelspec_name: None,
        interpreter: Some(path.to_owned()),
        argv,
        resource_dir: None,
        usable,
        reason,
        score: 0,
    };
    assert(c@.argv =~= seq![path@, "-m"@, "ipykernel_launcher"@, "-f"@, "{connection_file}"@]);
    Some(c)
}

// ---------------------------------------------------------------------------
// Ranking
// ---------------------------------------------------------------------------
/// The base score of a source.
pub open spec fn source_score(s: KernelSource) -> int {
    match s {
        KernelSource::Explicit => 10000,
        KernelSource::Workspace => 700,
        KernelSource::ActiveEnvironment => 600,
        KernelSource::Registered => 400,
        KernelSource::Conda => 300,
        KernelSource::Pyenv => 300,
        KernelSource::Path => 100,
    }
}

/// A candidate's score for a notebook that wants kernelspec `wanted_name`
/// and language `wanted_language`, with `workspace` as its directory. The
/// kernelspec bonus goes only to a candidate whose kernelspec is the one the
/// notebook names: a notebook that names none gives it to no candidate.
pub open spec fn candidate_score(
    c: KernelCandidateV,
    wanted_name: Option<Seq<char>>,
    wanted_language: Option<Seq<char>>,
    workspace: Seq<char>,
) -> int {
    source_score(c.source) + (if wanted_name is Some && c.kernelspec_name == wanted_name {
        5000int
    } else {
        0int
    }) + (if c.language is Some && wanted_language is Some && eq_ignore_ascii_case(
        c.language->Some_0,
        wanted_language->Some_0,
    ) {
        500int
    } else {
        0int
    }) + (if c.interpreter matches Some(p) && path_has_prefix(p, workspace) {
        250int
    } else {
        0int
    }) - (if c.usable {
        0int
    } else {
        10000int
    })
}

/// `a` is lexicographically smaller than `b` (by code point; for UTF-8
/// text this is the byte order that `String` compares by).
pub open spec fn lex_less(a: Seq<char>, b: Seq<char>) -> bool
    decreases a.len(),
{
    if b.len() == 0 {
        false
    } else if a.len() == 0 {
        true
    } else if a[0] != b[0] {
        a[0] < b[0]
    } else {
        lex_less(a.drop_first(), b.drop_first())
    }
}

pub proof fn lemma_lex_less_irreflexive(a: Seq<char>)
    ensures
        !lex_less(a, a),
    decreases a.len(),
{
    if a.len() > 0 {
        lemma_lex_less_irreflexive(a.drop_first());
    }
}

pub proof fn lemma_lex_less_transitive(a: Seq<char>, b: Seq<char>, c: Seq<char>)
    requires
        lex_less(a, b),
        lex_less(b, c),
    ensures
        lex_less(a, c),
    decreases a.len(),
{
    if a.len() > 0 && b.len() > 0 && c.len() > 0 && a[0] == b[0] && b[0] == c[0] {
        lemma_lex_less_transitive(a.drop_first(), b.drop_first(), c.drop_first());
    }
}

pub proof fn lemma_lex_less_total(a: Seq<char>, b: Seq<char>)
    ensures
        lex_less(a, b) || lex_less(b, a) || a == b,
    decreases a.len(),
{
    if a.len() > 0 && b.len() > 0 {
        if a[0] == b[0] {
            lemma_lex_less_total(a.drop_first(), b.drop_first());
            if a.drop_first() == b.drop_first() {
                assert(a =~= seq![a[0]] + a.drop_first());
                assert(b =~= seq![b[0]] + b.drop_first());
            }
        }
    } else if a.len() == 0 && b.len() == 0 {
        assert(a =~= b);
    }
}

/// `a` ranks strictly ahead of `b`: a higher score, or the same score and a
/// smaller id.
pub open spec fn ranks_ahead(a: KernelCandidateV, b: KernelCandidateV) -> bool {
    a.score > b.score || (a.score == b.score && lex_less(a.id, b.id))
}

fn lex_less_exec(a: &str, b: &str) -> (r: bool)
    ensures
        r == lex_less(a@, b@),
{
    let x = chars_of(a);
    let y = chars_of(b);
    let mut i: usize = 0;
    assert(x@.skip(0) =~= x@);
    assert(y@.skip(0) =~= y@);
    assert(x@.subrange(0, 0) =~= y@.subrange(0, 0));
    while i < x.len() && i < y.len()
        invariant
            i <= x@.len(),
            i <= y@.len(),
            x@.subrange(0, i as int) == y@.subrange(0, i as int),
            lex_less(a@, b@) == lex_less(x@.skip(i as int), y@.skip(i as int)),
            x@ == a@,
            y@ == b@,
        decreases x.len() - i,
    {
        let c = x[i];
        let d = y[i];
        assert(x@.skip(i as int)[0] == c);
        assert(y@.skip(i as int)[0] == d);
        if c != d {
            return c < d;
        }
        assert(x@.skip(i as int).drop_first() =~= x@.skip(i + 1));
        assert(y@.skip(i as int).drop_first() =~= y@.skip(i + 1));
        assert(x@.subrange(0, i + 1) =~= x@.subrange(0, i as int).push(c));
        assert(y@.subrange(0, i + 1) =~= y@.subrange(0, i as int).push(d));
        i = i + 1;
    }
    i == x.len() && i < y.len()
}

fn ranks_ahead_exec(a: &KernelCandidate, b: &KernelCandidate) -> (r: bool)
    ensures
        r == ranks_ahead(a@, b@),
{
    a.score > b.score || (a.score == b.score && lex_less_exec(a.id.as_str(), b.id.as_str()))
}

/// `v` is in ranking order.
pub open spec fn ranked(v: Seq<KernelCandidateV>) -> bool {
    forall|i: int, j: int| 0 <= i < j < v.len() ==> !ranks_ahead(#[trigger] v[j], #[trigger] v[i])
}

proof fn lemma_ranks_ahead_total(a: KernelCandidateV, b: KernelCandidateV)
    ensures
        !ranks_ahead(a, b) ==> (ranks_ahead(b, a) || (a.score == b.score && a.id == b.id)),
        !(ranks_ahead(a, b) && ranks_ahead(b, a)),
{
    lemma_lex_less_total(a.id, b.id);
    if lex_less(a.id, b.id) && lex_less(b.id, a.id) {
        lemma_lex_less_transitive(a.id, b.id, a.id);
        lemma_lex_less_irreflexive(a.id);
    }
}

proof fn lemma_ranks_ahead_transitive(a: KernelCandidateV, b: KernelCandidateV, c: KernelCandidateV)
    requires
        ranks_ahead(a, b),
        !ranks_ahead(c, b),
    ensures
        ranks_ahead(a, c),
{
    lemma_ranks_ahead_total(b, c);
    if b.score == c.score && lex_less(a.id, b.id) && a.score == b.score {
        if lex_less(b.id, c.id) {
            lemma_lex_less_transitive(a.id, b.id, c.id);
        }
    }
}

/// The candidate with its score for the notebook.
pub open spec fn scored(
    c: KernelCandidateV,
    wanted_name: Option<Seq<char>>,
    wanted_language: Option<Seq<char>>,
    workspace: Seq<char>,
) -> KernelCandidateV {
    KernelCandidateV {
        score: candidate_score(c, wanted_name, wanted_language, workspace) as i32,
        ..c
    }
}

fn same_opt_str(a: &Option<String>, b: Option<&str>) -> (r: bool)
    ensures
        r == (opt_string_view(*a) == match b {
            Some(s) => Some(s@),
            None => None::<Seq<char>>,
        }),
{
    match (a, b) {
        (Some(x), Some(y)) => str_equal(x.as_str(), y),
        (None, None) => true,
        _ => false,
    }
}

fn score_of(
    c: &KernelCandidate,
    wanted_name: Option<&str>,
    wanted_language: Option<&str>,
    workspace: &str,
) -> (r: i32)
    ensures
        r == candidate_score(
            c@,
            match wanted_name {
                Some(s) => Some(s@),
                None => None,
            },
            match wanted_language {
                Some(s) => Some(s@),
                None => None,
            },
            workspace@,
        ),
{
    let mut score: i32 = match c.source {
        KernelSource::Explicit => 10000,
        KernelSource::Workspace => 700,
        KernelSource::ActiveEnvironment => 600,
        KernelSource::Registered => 400,
        KernelSource::Conda => 300,
        KernelSource::Pyenv => 300,
        KernelSource::Path => 100,
    };
    if wanted_name.is_some() && same_opt_str(&c.kernelspec_name, wanted_name) {
        score = score + 5000;
    }
    let language_matches = match (&c.language, wanted_language) {
        (Some(a), Some(b)) => {
            let x = chars_of(a.as_str());
            let y = chars_of(b);
            crate::text::eq_ignore_ascii_case_chars(x.as_slice(), y.as_slice())
        },
        _ => false,
    };
    if language_matches {
        score = score + 500;
    }
    let inside = match &c.interpreter {
        Some(p) => path_starts_with(p.as_str(), workspace),
        None => false,
    };
    if inside {
        score = score + 250;
    }
    if !c.usable {
        score = score - 10000;
    }
    score
}

/// The text of an optional string.
pub open spec fn opt_str_view(o: Option<&str>) -> Option<Seq<char>> {
    match o {
        Some(s) => Some(s@),
        None => None,
    }
}

/// The candidates with their scores for the notebook.
pub open spec fn scored_all(
    cs: Seq<KernelCandidateV>,
    wanted_name: Option<Seq<char>>,
    wanted_language: Option<Seq<char>>,
    workspace: Seq<char>,
) -> Seq<KernelCandidateV> {
    cs.map_values(|c: KernelCandidateV| scored(c, wanted_name, wanted_language, workspace))
}

/// `x` placed into `s` after every leading candidate it does not rank ahead
/// of.
pub open spec fn insert_ranked(s: Seq<KernelCandidateV>, x: KernelCandidateV) -> Seq<
    KernelCandidateV,
>
    decreases s.len(),
{
    if s.len() == 0 {
        seq![x]
    } else if !ranks_ahead(x, s[0]) {
        seq![s[0]] + insert_ranked(s.drop_first(), x)
    } else {
        seq![x] + s
    }
}

/// The candidates in the order of a stable sort by rank: each candidate in
/// turn is placed after the ones before it that it does not rank ahead of.
pub open spec fn ranked_order(src: Seq<KernelCandidateV>) -> Seq<KernelCandidateV>
    decreases src.len(),
{
    if src.len() == 0 {
        Seq::empty()
    } else {
        insert_ranked(ranked_order(src.drop_last()), src.last())
    }
}

proof fn lemma_insert_ranked_at(s: Seq<KernelCandidateV>, x: KernelCandidateV, p: int)
    requires
        0 <= p <= s.len(),
        forall|q: int| 0 <= q < p ==> !ranks_ahead(x, #[trigger] s[q]),
        p < s.len() ==> ranks_ahead(x, s[p]),
    ensures
        s.insert(p, x) == insert_ranked(s, x),
    decreases p,
{
    if p == 0 {
        if s.len() == 0 {
            assert(s.insert(0, x) =~= seq![x]);
        } else {
            assert(s.insert(0, x) =~= seq![x] + s);
        }
    } else {
        let t = s.drop_first();
        assert forall|q: int| 0 <= q < p - 1 implies !ranks_ahead(x, #[trigger] t[q]) by {
            assert(t[q] == s[q + 1]);
        }
        if p < s.len() {
            assert(t[p - 1] == s[p]);
        }
        lemma_insert_ranked_at(t, x, p - 1);
        assert(!ranks_ahead(x, s[0]));
        assert(s.insert(p, x) =~= seq![s[0]] + t.insert(p - 1, x));
    }
}

/// Scores every candidate for the notebook (its kernelspec name and
/// language, and the workspace directory), then orders them best first:
/// higher score first, equal scores by id, candidates that tie on both in
/// the order they came.
pub fn rank(
    candidates: &mut Vec<KernelCandidate>,
    wanted_name: Option<&str>,
    wanted_language: Option<&str>,
    workspace: &str,
)
    ensures
        candidates_view(final(candidates)@) == ranked_order(
            scored_all(
                candidates_view(old(candidates)@),
                opt_str_view(wanted_name),
                opt_str_view(wanted_language),
                workspace@,
            ),
        ),
        ranked(candidates_view(final(candidates)@)),
        candidates_view(final(candidates)@).to_multiset() == scored_all(
            candidates_view(old(candidates)@),
            opt_str_view(wanted_name),
            opt_str_view(wanted_language),
            workspace@,
        ).to_multiset(),
{
    let ghost wn = opt_str_view(wanted_name);
    let ghost wl = opt_str_view(wanted_language);
    let ghost target = scored_all(candidates_view(candidates@), wn, wl, workspace@);
    let mut input: Vec<KernelCandidate> = Vec::new();
    std::mem::swap(&mut input, candidates);
    let n = input.len();
    let mut out: Vec<KernelCandidate> = Vec::new();
    let ghost src = input@;
    proof {
        assert(candidates_view(out@) =~= target.take(0));
    }
    let mut k: usize = 0;
    for c in it: input.into_iter()
        invariant
            it.seq() == src,
            k == it.index(),
            n == src.len(),
            wn == opt_str_view(wanted_name),
            wl == opt_str_view(wanted_language),
            target == scored_all(candidates_view(src), wn, wl, workspace@),
            candidates_view(out@) == ranked_order(target.take(k as int)),
            ranked(candidates_view(out@)),
            candidates_view(out@).to_multiset() == target.take(k as int).to_multiset(),
    {
        let mut c = c;
        let s = score_of(&c, wanted_name, wanted_language, workspace);
        c.score = s;
        proof {
            assert(src[k as int] == it.seq()[k as int]);
            assert(target[k as int] == c@);
        }
        let mut p: usize = 0;
        while p < out.len() && !ranks_ahead_exec(&c, &out[p])
            invariant
                p <= out@.len(),
                forall|q: int| 0 <= q < p ==> !ranks_ahead(c@, #[trigger] candidates_view(out@)[q]),
            ensures
                p <= out@.len(),
                forall|q: int| 0 <= q < p ==> !ranks_ahead(c@, #[trigger] candidates_view(out@)[q]),
                p < out@.len() ==> ranks_ahead(c@, candidates_view(out@)[p as int]),
            decreases out.len() - p,
        {
            p = p + 1;
        }
        let ghost before = candidates_view(out@);
        out.insert(p, c);
        proof {
            let after = candidates_view(out@);
            assert(after =~= before.insert(p as int, c@));
            lemma_insert_ranked_at(before, c@, p as int);
            assert(target.take(k + 1).drop_last() =~= target.take(k as int));
            vstd::seq_lib::to_multiset_insert(before, p as int, c@);
            assert(target.take(k + 1) =~= target.take(k as int).push(c@));
            vstd::seq_lib::to_multiset_build(target.take(k as int), c@);
            assert forall|i: int, j: int| 0 <= i < j < after.len() implies !ranks_ahead(
                #[trigger] after[j],
                #[trigger] after[i],
            ) by {
                if i < p && j == p {
                } else if i == p && j > p {
                    if p < before.len() {
                        assert(ranks_ahead(c@, before[p as int]));
                        lemma_lex_less_irreflexive(before[p as int].id);
                        if j - 1 > p {
                            assert(!ranks_ahead(before[j - 1], before[p as int]));
                        }
                        lemma_ranks_ahead_transitive(c@, before[p as int], before[j - 1]);
                        lemma_ranks_ahead_total(c@, before[j - 1]);
                    }
                } else if i < p && j > p {
                    assert(after[i] == before[i] && after[j] == before[j - 1]);
                } else if j < p {
                    assert(after[i] == before[i] && after[j] == before[j]);
                } else {
                    assert(after[i] == before[i - 1] && after[j] == before[j - 1]);
                }
            }
        }
        k = k + 1;
    }
    proof {
        assert(target.take(target.len() as int) =~= target);
    }
    *candidates = out;
}

// ---------------------------------------------------------------------------
// Deduplication
// ---------------------------------------------------------------------------
/// `c` has the kernelspec directory `p`.
pub open spec fn has_dir(c: KernelCandidateV, p: Seq<char>) -> bool {
    c.resource_dir matches Some(q) && same_path(q, p)
}

/// `c` has no kernelspec directory and the interpreter `p`.
pub open spec fn has_bare_interpreter(c: KernelCandidateV, p: Seq<char>) -> bool {
    c.resource_dir is None && (c.interpreter matches Some(q) && same_path(q, p))
}

/// Candidate `i` repeats an earlier candidate: the same kernelspec
/// directory, or (for candidates without one) the same interpreter.
pub open spec fn repeats_earlier(cs: Seq<KernelCandidateV>, i: int) -> bool {
    match cs[i].resource_dir {
        Some(p) => exists|j: int| 0 <= j < i && has_dir(#[trigger] cs[j], p),
        None => match cs[i].interpreter {
            Some(p) => exists|j: int| 0 <= j < i && has_bare_interpreter(#[trigger] cs[j], p),
            None => false,
        },
    }
}

/// The candidates that repeat no earlier one, in order.
pub open spec fn first_occurrences(cs: Seq<KernelCandidateV>) -> Seq<KernelCandidateV>
    decreases cs.len(),
{
    if cs.len() == 0 {
        Seq::empty()
    } else if repeats_earlier(cs, cs.len() - 1) {
        first_occurrences(cs.drop_last())
    } else {
        first_occurrences(cs.drop_last()).push(cs.last())
    }
}

proof fn lemma_repeats_prefix(cs: Seq<KernelCandidateV>, n: int, i: int)
    requires
        0 <= i < n <= cs.len(),
    ensures
        repeats_earlier(cs.take(n), i) == repeats_earlier(cs, i),
{
    let t = cs.take(n);
    assert(t[i] == cs[i]);
    if repeats_earlier(cs, i) {
        match cs[i].resource_dir {
            Some(p) => {
                let j = choose|j: int| 0 <= j < i && has_dir(#[trigger] cs[j], p);
                assert(t[j] == cs[j]);
            },
            None => {
                let p = cs[i].interpreter->Some_0;
                let j = choose|j: int| 0 <= j < i && has_bare_interpreter(#[trigger] cs[j], p);
                assert(t[j] == cs[j]);
            },
        }
    }
    if repeats_earlier(t, i) {
        match cs[i].resource_dir {
            Some(p) => {
                let j = choose|j: int| 0 <= j < i && has_dir(#[trigger] t[j], p);
                assert(t[j] == cs[j]);
            },
            None => {
                let p = cs[i].interpreter->Some_0;
                let j = choose|j: int| 0 <= j < i && has_bare_interpreter(#[trigger] t[j], p);
                assert(t[j] == cs[j]);
            },
        }
    }
}

/// Whether candidate `i` repeats an earlier one.
fn repeats_earlier_exec(cs: &Vec<KernelCandidate>, i: usize) -> (r: bool)
    requires
        i < cs@.len(),
    ensures
        r == repeats_earlier(candidates_view(cs@), i as int),
{
    let ghost v = candidates_view(cs@);
    let mut j: usize = 0;
    match &cs[i].resource_dir {
        Some(p) => {
            while j < i
                invariant
                    j <= i < cs@.len(),
                    v == candidates_view(cs@),
                    v[i as int].resource_dir == Some(p@),
                    forall|k: int| 0 <= k < j ==> !has_dir(#[trigger] v[k], p@),
                decreases i - j,
            {
                let hit = match &cs[j].resource_dir {
                    Some(q) => path_equal(q.as_str(), p.as_str()),
                    None => false,
                };
                if hit {
                    assert(has_dir(v[j as int], p@));
                    return true;
                }
                j = j + 1;
            }
            false
        },
        None => match &cs[i].interpreter {
            Some(p) => {
                while j < i
                    invariant
                        j <= i < cs@.len(),
                        v == candidates_view(cs@),
                        v[i as int].resource_dir is None,
                        v[i as int].interpreter == Some(p@),
                        forall|k: int| 0 <= k < j ==> !has_bare_interpreter(#[trigger] v[k], p@),
                    decreases i - j,
                {
                    let hit = cs[j].resource_dir.is_none() && match &cs[j].interpreter {
                        Some(q) => path_equal(q.as_str(), p.as_str()),
                        None => false,
                    };
                    if hit {
                        assert(has_bare_interpreter(v[j as int], p@));
                        return true;
                    }
                    j = j + 1;
                }
                false
            },
            None => false,
        },
    }
}

/// Drops every candidate that repeats an earlier one (same kernelspec
/// directory, or same interpreter), keeping the order.
pub fn deduplicate(candidates: Vec<KernelCandidate>) -> (r: Vec<KernelCandidate>)
    ensures
        candidates_view(r@) == first_occurrences(candidates_view(candidates@)),
{
    let ghost v = candidates_view(candidates@);
    let mut keep: Vec<bool> = Vec::new();
    let mut i: usize = 0;
    while i < candidates.len()
        invariant
            i <= candidates@.len(),
            v == candidates_view(candidates@),
            keep@.len() == i,
            forall|k: int| 0 <= k < i ==> keep@[k] == !repeats_earlier(v, k),
        decreases candidates.len() - i,
    {
        keep.push(!repeats_earlier_exec(&candidates, i));
        i = i + 1;
    }
    let n = candidates.len();
    let mut out: Vec<KernelCandidate> = Vec::new();
    let mut k: usize = 0;
    for c in it: candidates.into_iter()
        invariant
            it.seq() == candidates@,
            k == it.index(),
            n == candidates@.len(),
            v == candidates_view(candidates@),
            keep@.len() == v.len(),
            forall|q: int| 0 <= q < v.len() ==> keep@[q] == !repeats_earlier(v, q),
            candidates_view(out@) == first_occurrences(v.take(k as int)),
    {
        proof {
            let t = v.take(k + 1);
            assert(t.drop_last() =~= v.take(k as int));
            lemma_repeats_prefix(v, k + 1, k as int);
            assert(t.last() == v[k as int]);
            assert(v[k as int] == c@);
        }
        if keep[k] {
            let ghost before = candidates_view(out@);
            out.push(c);
            assert(candidates_view(out@) =~= before.push(c@));
        }
        k = k + 1;
    }
    assert(v.take(v.len() as int) =~= v);
    out
}

proof fn lemma_first_occurrences_within(cs: Seq<KernelCandidateV>)
    ensures
        forall|i: int|
            0 <= i < first_occurrences(cs).len() ==> cs.contains(
                #[trigger] first_occurrences(cs)[i],
            ),
    decreases cs.len(),
{
    if cs.len() > 0 {
        let p = cs.drop_last();
        lemma_first_occurrences_within(p);
        let fp = first_occurrences(p);
        let f = first_occurrences(cs);
        assert forall|i: int| 0 <= i < f.len() implies cs.contains(#[trigger] f[i]) by {
            if i < fp.len() {
                assert(f[i] == fp[i]);
                assert(p.contains(fp[i]));
                let k = choose|k: int| 0 <= k < p.len() && p[k] == fp[i];
                assert(cs[k] == p[k]);
            } else {
                assert(f[i] == cs[cs.len() - 1]);
            }
        }
    }
}

/// Law: deduplication leaves no candidate that repeats an earlier one (the
/// same kernelspec directory, or the same interpreter).
pub proof fn lemma_deduplicated_has_no_repeats(cs: Seq<KernelCandidateV>)
    ensures
        forall|i: int|
            0 <= i < first_occurrences(cs).len() ==> !repeats_earlier(first_occurrences(cs), i),
    decreases cs.len(),
{
    if cs.len() > 0 {
        let p = cs.drop_last();
        lemma_deduplicated_has_no_repeats(p);
        lemma_first_occurrences_within(p);
        let fp = first_occurrences(p);
        let f = first_occurrences(cs);
        if !repeats_earlier(cs, cs.len() - 1) {
            let x = cs[cs.len() - 1];
            assert(f == fp.push(x));
            assert(f.take(fp.len() as int) =~= fp);
            assert forall|i: int| 0 <= i < f.len() implies !repeats_earlier(f, i) by {
                if i < fp.len() {
                    lemma_repeats_prefix(f, fp.len() as int, i);
                } else {
                    if repeats_earlier(f, i) {
                        match x.resource_dir {
                            Some(d) => {
                                let j = choose|j: int| 0 <= j < i && has_dir(#[trigger] f[j], d);
                                assert(f[j] == fp[j]);
                                assert(p.contains(fp[j]));
                                let k = choose|k: int| 0 <= k < p.len() && p[k] == fp[j];
                                assert(cs[k] == p[k]);
                                assert(has_dir(cs[k], d));
                                assert(repeats_earlier(cs, cs.len() - 1));
                            },
                            None => {
                                let q = x.interpreter->Some_0;
                                let j = choose|j: int|
                                    0 <= j < i && has_bare_interpreter(#[trigger] f[j], q);
                                assert(f[j] == fp[j]);
                                assert(p.contains(fp[j]));
                                let k = choose|k: int| 0 <= k < p.len() && p[k] == fp[j];
                                assert(cs[k] == p[k]);
                                assert(has_bare_interpreter(cs[k], q));
                                assert(repeats_earlier(cs, cs.len() - 1));
                            },
                        }
                    }
                }
            }
        } else {
            assert(f == fp);
        }
    }
}

// ---------------------------------------------------------------------------
// Choosing a kernel
// ---------------------------------------------------------------------------
/// The first candidate named `requested`, by id or kernelspec name.
pub fn find_requested(candidates: &Vec<KernelCandidate>, requested: &str) -> (r: Option<usize>)
    ensures
        match r {
            Some(k) => k < candidates@.len() && (candidates_view(candidates@)[k as int].id
                == requested@ || candidates_view(candidates@)[k as int].kernelspec_name == Some(
                requested@,
            )) && forall|j: int|
                0 <= j < k ==> (#[trigger] candidates_view(candidates@)[j]).id != requested@
                    && candidates_view(candidates@)[j].kernelspec_name != Some(requested@),
            None => forall|j: int|
                0 <= j < candidates@.len() ==> (#[trigger] candidates_view(candidates@)[j]).id
                    != requested@ && candidates_view(candidates@)[j].kernelspec_name != Some(
                    requested@,
                ),
        },
{
    let mut i: usize = 0;
    while i < candidates.len()
        invariant
            i <= candidates@.len(),
            forall|j: int|
                0 <= j < i ==> (#[trigger] candidates_view(candidates@)[j]).id != requested@
                    && candidates_view(candidates@)[j].kernelspec_name != Some(requested@),
        decreases candidates.len() - i,
    {
        let c = &candidates[i];
        if str_equal(c.id.as_str(), requested) || same_opt_str(&c.kernelspec_name, Some(requested)) {
            return Some(i);
        }
        i = i + 1;
    }
    None
}

/// The candidate for a kernelspec name that discovery did not see: the
/// driver may still know it.
pub open spec fn explicit_kernelspec_of(requested: Seq<char>, language: Option<Seq<char>>) -> KernelCandidateV {
    KernelCandidateV {
        id: requested,
        display_name: requested,
        language,
        source: KernelSource::Explicit,
        kernelspec_name: Some(requested),
        interpreter: None,
        argv: Seq::empty(),
        resource_dir: None,
        usable: true,
        reason: Some("explicit kernelspec name"@),
        score: i32::MAX,
    }
}

/// `--kernel`: the discovered candidate with that id or kernelspec name, or
/// else an explicit kernelspec candidate for the notebook's language.
pub fn resolve_requested(
    candidates: &Vec<KernelCandidate>,
    requested: &str,
    language: Option<&str>,
) -> (r: KernelCandidate)
    ensures
        match find_requested_spec(candidates_view(candidates@), requested@) {
            Some(k) => r@ == candidates_view(candidates@)[k],
            None => r@ == explicit_kernelspec_of(
                requested@,
                match language {
                    Some(l) => Some(l@),
                    None => None,
                },
            ),
        },
{
    match find_requested(candidates, requested) {
        Some(k) => {
            proof {
                lemma_find_requested_spec(candidates_view(candidates@), requested@, k as int);
            }
            candidates[k].duplicate()
        },
        None => {
            proof {
                lemma_find_requested_spec_none(candidates_view(candidates@), requested@);
            }
            let c = KernelCandidate {
                id: requested.to_owned(),
                display_name: requested.to_owned(),
                language: match language {
                    Some(l) => Some(l.to_owned()),
                    None => None,
                },
                source: KernelSource::Explicit,
                kernelspec_name: Some(requested.to_owned()),
                interpreter: None,
                argv: Vec::new(),
                resource_dir: None,
                usable: true,
                reason: Some("explicit kernelspec name".to_owned()),
                score: i32::MAX,
            };
            assert(c@.argv =~= Seq::<Seq<char>>::empty());
            c
        },
    }
}

/// The position of the first candidate named `requested`.
pub open spec fn find_requested_spec(cs: Seq<KernelCandidateV>, requested: Seq<char>) -> Option<int>
    decreases cs.len(),
{
    if cs.len() == 0 {
        None
    } else if cs[0].id == requested || cs[0].kernelspec_name == Some(requested) {
        Some(0)
    } else {
        match find_requested_spec(cs.drop_first(), requested) {
            Some(k) => Some(k + 1),
            None => None,
        }
    }
}

proof fn lemma_find_requested_spec(cs: Seq<KernelCandidateV>, requested: Seq<char>, k: int)
    requires
        0 <= k < cs.len(),
        cs[k].id == requested || cs[k].kernelspec_name == Some(requested),
        forall|j: int|
            0 <= j < k ==> (#[trigger] cs[j]).id != requested && cs[j].kernelspec_name != Some(
                requested,
            ),
    ensures
        find_requested_spec(cs, requested) == Some(k),
    decreases k,
{
    if k > 0 {
        let t = cs.drop_first();
        assert forall|j: int| 0 <= j < k - 1 implies (#[trigger] t[j]).id != requested
            && t[j].kernelspec_name != Some(requested) by {
            assert(t[j] == cs[j + 1]);
        }
        assert(cs[0].id != requested && cs[0].kernelspec_name != Some(requested));
        lemma_find_requested_spec(t, requested, k - 1);
    }
}

proof fn lemma_find_requested_spec_none(cs: Seq<KernelCandidateV>, requested: Seq<char>)
    requires
        forall|j: int|
            0 <= j < cs.len() ==> (#[trigger] cs[j]).id != requested && cs[j].kernelspec_name
                != Some(requested),
    ensures
        find_requested_spec(cs, requested) is None,
    decreases cs.len(),
{
    if cs.len() > 0 {
        let t = cs.drop_first();
        assert forall|j: int| 0 <= j < t.len() implies (#[trigger] t[j]).id != requested
            && t[j].kernelspec_name != Some(requested) by {
            assert(t[j] == cs[j + 1]);
        }
        assert(cs[0].id != requested && cs[0].kernelspec_name != Some(requested));
        lemma_find_requested_spec_none(t, requested);
    }
}

// ---------------------------------------------------------------------------
// Registered kernelspecs
// ---------------------------------------------------------------------------
/// The string items of a JSON array, in order (other items are skipped).
pub open spec fn string_items(a: Seq<JsonV>) -> Seq<Seq<char>>
    decreases a.len(),
{
    if a.len() == 0 {
        Seq::empty()
    } else {
        let rest = string_items(a.drop_last());
        match a.last() {
            JsonV::Str(s) => rest.push(s),
            _ => rest,
        }
    }
}

/// The command line of a kernelspec: the strings of its `argv` array.
pub open spec fn spec_argv(spec: JsonV) -> Seq<Seq<char>> {
    match member(spec, "argv"@) {
        Some(JsonV::Array(a)) => string_items(a),
        _ => Seq::empty(),
    }
}

/// The candidate for the kernelspec `name` read from `resource_dir`, whose
/// `kernel.json` holds `spec`; `interpreter` is where its first argument was
/// found.
pub open spec fn registered_candidate_of(
    name: Seq<char>,
    spec: JsonV,
    resource_dir: Seq<char>,
    interpreter: Option<Seq<char>>,
) -> KernelCandidateV {
    KernelCandidateV {
        id: "kernelspec:"@ + name,
        display_name: match member_str(spec, "display_name"@) {
            Some(d) => d,
            None => name,
        },
        language: member_str(spec, "language"@),
        source: KernelSource::Registered,
        kernelspec_name: Some(name),
        interpreter,
        argv: spec_argv(spec),
        resource_dir: Some(resource_dir),
        usable: true,
        reason: None,
        score: 0,
    }
}

/// The strings of a kernelspec's `argv`.
pub fn kernelspec_argv(spec: &Json) -> (r: Vec<String>)
    ensures
        strings_view(r@) == spec_argv(spec@),
{
    let mut out: Vec<String> = Vec::new();
    proof {
        reveal_strlit("argv");
    }
    match spec.get("argv") {
        Some(Json::Array(items)) => {
            proof {
                lemma_view_array(*items);
            }
            let ghost a = items@.map_values(|x: Json| x@);
            let mut i: usize = 0;
            while i < items.len()
                invariant
                    i <= items@.len(),
                    a == items@.map_values(|x: Json| x@),
                    strings_view(out@) == string_items(a.take(i as int)),
                decreases items.len() - i,
            {
                assert(a.take(i + 1).drop_last() =~= a.take(i as int));
                assert(a.take(i + 1).last() == items@[i as int]@);
                match &items[i] {
                    Json::Str(t) => {
                        let ghost before = strings_view(out@);
                        out.push(t.clone());
                        assert(strings_view(out@) =~= before.push(t@));
                    },
                    _ => {},
                }
                i = i + 1;
            }
            assert(a.take(a.len() as int) =~= a);
        },
        _ => {
            assert(strings_view(out@) =~= Seq::<Seq<char>>::empty());
        },
    }
    out
}

fn opt_member_string(spec: &Json, key: &str) -> (r: Option<String>)
    ensures
        opt_string_view(r) == member_str(spec@, key@),
{
    match spec.get_str(key) {
        Some(s) => Some(s.clone()),
        None => None,
    }
}

/// The candidate for a registered kernelspec (see [`registered_candidate_of`]).
pub fn registered_candidate(
    name: &str,
    spec: &Json,
    resource_dir: &str,
    interpreter: Option<String>,
) -> (r: KernelCandidate)
    ensures
        r@ == registered_candidate_of(name@, spec@, resource_dir@, opt_string_view(interpreter)),
{
    let mut id = chars_of("kernelspec:");
    append_str(&mut id, name);
    proof {
        reveal_strlit("kernelspec:");
    }
    let display_name = match opt_member_string(spec, "display_name") {
        Some(d) => d,
        None => name.to_owned(),
    };
    KernelCandidate {
        id: string_of(id.as_slice()),
        display_name,
        language: opt_member_string(spec, "language"),
        source: KernelSource::Registered,
        kernelspec_name: Some(name.to_owned()),
        interpreter,
        argv: kernelspec_argv(spec),
        resource_dir: Some(resource_dir.to_owned()),
        usable: true,
        reason: None,
        score: 0,
    }
}

/// The `kernel.json` written for an interpreter without a kernelspec: it
/// launches ipykernel with that interpreter. `None` without an interpreter.
pub open spec fn synthetic_spec_of(c: KernelCandidateV) -> Option<JsonV> {
    match c.interpreter {
        Some(p) => Some(
            JsonV::Object(
                seq![
                    (
                        "argv"@,
                        JsonV::Array(
                            seq![
                                JsonV::Str(p),
                                JsonV::Str("-m"@),
                                JsonV::Str("ipykernel_launcher"@),
                                JsonV::Str("-f"@),
                                JsonV::Str("{connection_file}"@),
                            ],
                        ),
                    ),
                    ("display_name"@, JsonV::Str(c.display_name)),
                    ("language"@, JsonV::Str("python"@)),
                ],
            ),
        ),
        None => None,
    }
}

fn str_json(s: &str) -> (r: Json)
    ensures
        r@ == JsonV::Str(s@),
{
    Json::Str(s.to_owned())
}

pub fn synthetic_spec(c: &KernelCandidate) -> (r: Result<Json, KernelError>)
    ensures
        match synthetic_spec_of(c@) {
            Some(j) => r matches Ok(x) && x@ == j,
            None => r matches Err(e) && e@ == KernelFault::SyntheticWithoutInterpreter,
        },
{
    let p = match &c.interpreter {
        Some(p) => p,
        None => {
            return Err(KernelError::SyntheticWithoutInterpreter);
        },
    };
    let mut argv: Vec<Json> = Vec::new();
    argv.push(Json::Str(p.clone()));
    argv.push(str_json("-m"));
    argv.push(str_json("ipykernel_launcher"));
    argv.push(str_json("-f"));
    argv.push(str_json("{connection_file}"));
    proof {
        lemma_view_array(argv);
        assert(argv@.map_values(|x: Json| x@) =~= seq![
            JsonV::Str(p@),
            JsonV::Str("-m"@),
            JsonV::Str("ipykernel_launcher"@),
            JsonV::Str("-f"@),
            JsonV::Str("{connection_file}"@),
        ]);
    }
    let mut members: Vec<(String, Json)> = Vec::new();
    members.push(("argv".to_owned(), Json::Array(argv)));
    members.push(("display_name".to_owned(), Json::Str(c.display_name.clone())));
    members.push(("language".to_owned(), str_json("python")));
    proof {
        lemma_view_object(members);
        assert(members@.map_values(|q: (String, Json)| (q.0@, q.1@)) =~= synthetic_spec_of(
            c@,
        )->Some_0->Object_0);
    }
    Ok(Json::Object(members))
}

// ---------------------------------------------------------------------------
// Choosing a kernel automatically
// ---------------------------------------------------------------------------
/// Why no kernel could be chosen.
#[derive(Debug)]
pub enum KernelError {
    /// `--interpreter` names no file.
    InterpreterMissing(String),
    /// `--interpreter` cannot import ipykernel.
    InterpreterLacksIpykernel(String),
    /// No candidate has a kernelspec, nor an interpreter with ipykernel.
    NoUsableKernel,
    /// Discovery found nothing to list.
    NothingDiscovered,
    /// A kernelspec can be written only for an interpreter.
    SyntheticWithoutInterpreter,
}

pub enum KernelFault {
    InterpreterMissing(Seq<char>),
    InterpreterLacksIpykernel(Seq<char>),
    NoUsableKernel,
    NothingDiscovered,
    SyntheticWithoutInterpreter,
}

impl View for KernelError {
    type V = KernelFault;

    open spec fn view(&self) -> KernelFault {
        match self {
            KernelError::InterpreterMissing(p) => KernelFault::InterpreterMissing(p@),
            KernelError::InterpreterLacksIpykernel(p) => KernelFault::InterpreterLacksIpykernel(p@),
            KernelError::NoUsableKernel => KernelFault::NoUsableKernel,
            KernelError::NothingDiscovered => KernelFault::NothingDiscovered,
            KernelError::SyntheticWithoutInterpreter => KernelFault::SyntheticWithoutInterpreter,
        }
    }
}

pub open spec fn kernel_message(f: KernelFault) -> Seq<char> {
    match f {
        KernelFault::InterpreterMissing(p) => "Python interpreter '"@ + p + "' does not exist"@,
        KernelFault::InterpreterLacksIpykernel(p) => "Python interpreter '"@ + p
            + "' cannot import ipykernel; install it with: "@ + p + " -m pip install ipykernel"@,
        KernelFault::NoUsableKernel =>
            "No usable kernel found; run 'nbedit kernels --details --check' or pass --kernel/--interpreter"@,
        KernelFault::NothingDiscovered => "No kernels or Python environments discovered"@,
        KernelFault::SyntheticWithoutInterpreter => "synthetic kernel missing interpreter"@,
    }
}

impl KernelError {
    pub fn message(&self) -> (r: String)
        ensures
            r@ == kernel_message(self@),
    {
        let mut out: Vec<char> = Vec::new();
        match self {
            KernelError::InterpreterMissing(p) => {
                append_str(&mut out, "Python interpreter '");
                append_str(&mut out, p.as_str());
                append_str(&mut out, "' does not exist");
            },
            KernelError::InterpreterLacksIpykernel(p) => {
                append_str(&mut out, "Python interpreter '");
                append_str(&mut out, p.as_str());
                append_str(&mut out, "' cannot import ipykernel; install it with: ");
                append_str(&mut out, p.as_str());
                append_str(&mut out, " -m pip install ipykernel");
            },
            KernelError::NoUsableKernel => {
                append_str(
                    &mut out,
                    "No usable kernel found; run 'nbedit kernels --details --check' or pass --kernel/--interpreter",
                );
            },
            KernelError::NothingDiscovered => {
                append_str(&mut out, "No kernels or Python environments discovered");
            },
            KernelError::SyntheticWithoutInterpreter => {
                append_str(&mut out, "synthetic kernel missing interpreter");
            },
        }
        proof {
            match self@ {
                KernelFault::InterpreterMissing(p) => {
                    assert(out@ =~= kernel_message(self@));
                },
                KernelFault::InterpreterLacksIpykernel(p) => {
                    assert(out@ =~= kernel_message(self@));
                },
                _ => {
                    assert(out@ =~= kernel_message(self@));
                },
            }
        }
        string_of(out.as_slice())
    }
}

/// `--interpreter`: the interpreter at `path` as an explicit candidate; it
/// must be a file (`is_file`) that can import ipykernel (`has_ipykernel`, what
/// probing it found).
pub fn explicit_interpreter(path: &str, is_file: bool, has_ipykernel: bool) -> (r: Result<
    KernelCandidate,
    KernelError,
>)
    ensures
        !is_file ==> (r matches Err(e) && e@ == KernelFault::InterpreterMissing(path@)),
        is_file && !has_ipykernel ==> (r matches Err(e) && e@
            == KernelFault::InterpreterLacksIpykernel(path@)),
        is_file && has_ipykernel ==> (r matches Ok(c) && c@ == python_candidate_of(
            path@,
            KernelSource::Explicit,
            true,
            true,
        )),
{
    match python_candidate(path, KernelSource::Explicit, true, is_file, has_ipykernel) {
        None => Err(KernelError::InterpreterMissing(path.to_owned())),
        Some(c) => {
            if !c.usable {
                Err(KernelError::InterpreterLacksIpykernel(path.to_owned()))
            } else {
                Ok(c)
            }
        },
    }
}

/// A candidate that automatic choice passes over: no kernelspec, and its
/// interpreter (if any) was probed without ipykernel.
pub open spec fn passed_over<F: Fn(&str) -> bool>(c: KernelCandidateV, has_ipykernel: F) -> bool {
    c.kernelspec_name is None && (c.interpreter matches Some(p) ==> probed(has_ipykernel, p, false))
}

/// What automatic choice takes from candidate `c`: a kernelspec as it is;
/// an interpreter that was probed with ipykernel, marked usable.
pub open spec fn taken<F: Fn(&str) -> bool>(
    c: KernelCandidateV,
    out: KernelCandidateV,
    has_ipykernel: F,
) -> bool {
    if c.kernelspec_name is Some {
        out == c
    } else {
        c.interpreter matches Some(p) && probed(has_ipykernel, p, true) && out
            == KernelCandidateV { usable: true, ..c }
    }
}

/// Automatic choice over ranked candidates: the first kernelspec, or the
/// first interpreter that can import ipykernel (as `has_ipykernel` reports).
pub fn first_usable(candidates: &Vec<KernelCandidate>, has_ipykernel: impl Fn(&str) -> bool) -> (r:
    Result<KernelCandidate, KernelError>)
    requires
        forall|x: &str| #[trigger] has_ipykernel.requires((x,)),
    ensures
        match r {
            Ok(c) => exists|k: int|
                0 <= k < candidates@.len() && taken(candidates@[k]@, c@, has_ipykernel) && forall|
                    j: int,
                | 0 <= j < k ==> passed_over(#[trigger] candidates@[j]@, has_ipykernel),
            Err(e) => e@ == KernelFault::NoUsableKernel && forall|j: int|
                0 <= j < candidates@.len() ==> passed_over(
                    #[trigger] candidates@[j]@,
                    has_ipykernel,
                ),
        },
{
    let mut i: usize = 0;
    while i < candidates.len()
        invariant
            i <= candidates@.len(),
            forall|x: &str| #[trigger] has_ipykernel.requires((x,)),
            forall|j: int| 0 <= j < i ==> passed_over(#[trigger] candidates@[j]@, has_ipykernel),
        decreases candidates.len() - i,
    {
        let c = &candidates[i];
        if c.kernelspec_name.is_some() {
            return Ok(c.duplicate());
        }
        match &c.interpreter {
            Some(p) => {
                let ps: &str = p.as_str();
                let ok = has_ipykernel(ps);
                assert(has_ipykernel.ensures((ps,), ok));
                if ok {
                    let mut out = c.duplicate();
                    out.usable = true;
                    return Ok(out);
                }
            },
            None => {},
        }
        i = i + 1;
    }
    Err(KernelError::NoUsableKernel)
}

/// What `kernels --check` makes of a candidate: a Python candidate with an
/// interpreter is usable exactly when the probe found ipykernel; others stay
/// as they are.
pub open spec fn checked<F: Fn(&str) -> bool>(
    c: KernelCandidateV,
    out: KernelCandidateV,
    has_ipykernel: F,
) -> bool {
    if c.language == Some("python"@) && c.interpreter is Some {
        probed(has_ipykernel, c.interpreter->Some_0, out.usable) && out == KernelCandidateV {
            usable: out.usable,
            reason: if out.usable {
                None
            } else {
                Some("interpreter cannot import ipykernel"@)
            },
            ..c
        }
    } else {
        out == c
    }
}

/// `kernels --check`: probes every Python candidate's interpreter.
pub fn check_candidates(candidates: &mut Vec<KernelCandidate>, has_ipykernel: impl Fn(&str) -> bool)
    requires
        forall|x: &str| #[trigger] has_ipykernel.requires((x,)),
    ensures
        final(candidates)@.len() == old(candidates)@.len(),
        forall|i: int|
            0 <= i < old(candidates)@.len() ==> checked(
                #[trigger] old(candidates)@[i]@,
                final(candidates)@[i]@,
                has_ipykernel,
            ),
{
    let mut out: Vec<KernelCandidate> = Vec::new();
    let mut i: usize = 0;
    while i < candidates.len()
        invariant
            i <= candidates@.len(),
            out@.len() == i,
            forall|x: &str| #[trigger] has_ipykernel.requires((x,)),
            forall|k: int| 0 <= k < i ==> checked(candidates@[k]@, #[trigger] out@[k]@, has_ipykernel),
        decreases candidates.len() - i,
    {
        let c = &candidates[i];
        let python = match &c.language {
            Some(l) => str_equal(l.as_str(), "python"),
            None => false,
        };
        proof {
            reveal_strlit("python");
        }
        let mut next = c.duplicate();
        if python {
            match &c.interpreter {
                Some(p) => {
                    let ps: &str = p.as_str();
                    let ok = has_ipykernel(ps);
                    assert(has_ipykernel.ensures((ps,), ok));
                    next.usable = ok;
                    next.reason = if ok {
                        None
                    } else {
                        Some("interpreter cannot import ipykernel".to_owned())
                    };
                },
                None => {},
            }
        }
        out.push(next);
        i = i + 1;
    }
    *candidates = out;
}

} // verus!
