//! The decisions around executing notebook cells: which cells run, which
//! Python drives the kernel, how the driver's report becomes an exit status,
//! and how executed cells are written back. Spawning and waiting happen
//! outside the library.
use crate::error::AppExit;
use crate::json::{key_index, lemma_view_object, member, pairs_view, str_value, Json, JsonV};
use crate::kernels::{KernelCandidate, KernelCandidateV};
use crate::notebook::{cells_view, jsons_view, word_code, Cell, CellV, Notebook, NotebookV};
use crate::ops::{code_positions, with_cells};
use crate::text::{
    append_str, chars_of, contains_char, copy_range, eq_ignore_ascii_case, first_index_of,
    str_equal, string_of,
};
use vstd::prelude::*;

verus! {

/// Why a run was refused before or after execution.
#[derive(Debug)]
pub enum RunError {
    InvalidTimeout,
    NoCodeCells,
    CellCountMismatch,
    SelectedCellMissing,
    /// An `--env` item without `=`.
    EnvWithoutEquals(String),
    /// An `--env` item with an empty key or a NUL character.
    InvalidEnv(String),
}

/// The mathematical content of a [`RunError`].
pub enum RunFault {
    InvalidTimeout,
    NoCodeCells,
    CellCountMismatch,
    SelectedCellMissing,
    EnvWithoutEquals(Seq<char>),
    InvalidEnv(Seq<char>),
}

impl View for RunError {
    type V = RunFault;

    open spec fn view(&self) -> RunFault {
        match self {
            RunError::InvalidTimeout => RunFault::InvalidTimeout,
            RunError::NoCodeCells => RunFault::NoCodeCells,
            RunError::CellCountMismatch => RunFault::CellCountMismatch,
            RunError::SelectedCellMissing => RunFault::SelectedCellMissing,
            RunError::EnvWithoutEquals(s) => RunFault::EnvWithoutEquals(s@),
            RunError::InvalidEnv(s) => RunFault::InvalidEnv(s@),
        }
    }
}

pub open spec fn run_message(f: RunFault) -> Seq<char> {
    match f {
        RunFault::InvalidTimeout => "--timeout must be -1 or a non-negative number"@,
        RunFault::NoCodeCells => "No code cells in selection"@,
        RunFault::CellCountMismatch => "Cell count mismatch after execution"@,
        RunFault::SelectedCellMissing => "Selected cell missing from execution result"@,
        RunFault::EnvWithoutEquals(s) => "Invalid --env '"@ + s + "'; expected KEY=VALUE"@,
        RunFault::InvalidEnv(s) => "Invalid --env '"@ + s + "'"@,
    }
}

impl RunError {
    pub fn message(&self) -> (r: String)
        ensures
            r@ == run_message(self@),
    {
        match self {
            RunError::InvalidTimeout => "--timeout must be -1 or a non-negative number".to_owned(),
            RunError::NoCodeCells => "No code cells in selection".to_owned(),
            RunError::CellCountMismatch => "Cell count mismatch after execution".to_owned(),
            RunError::SelectedCellMissing => "Selected cell missing from execution result".to_owned(),
            RunError::EnvWithoutEquals(s) => {
                let mut out = chars_of("Invalid --env '");
                append_str(&mut out, s.as_str());
                append_str(&mut out, "'; expected KEY=VALUE");
                string_of(out.as_slice())
            },
            RunError::InvalidEnv(s) => {
                let mut out = chars_of("Invalid --env '");
                append_str(&mut out, s.as_str());
                append_str(&mut out, "'");
                string_of(out.as_slice())
            },
        }
    }
}

// ---------------------------------------------------------------------------
// Arguments
// ---------------------------------------------------------------------------
/// `--timeout` accepts -1 (no limit) and the non-negative numbers.
pub fn check_timeout(timeout: i64) -> (r: Result<(), RunError>)
    ensures
        r is Ok <==> timeout >= -1,
        r matches Err(e) ==> e@ == RunFault::InvalidTimeout,
{
    if timeout < -1 {
        Err(RunError::InvalidTimeout)
    } else {
        Ok(())
    }
}

/// One `--env KEY=VALUE` item: split at the first `=`; the key must not be
/// empty and neither part may hold a NUL character.
pub open spec fn env_entry(item: Seq<char>) -> Result<(Seq<char>, Seq<char>), RunFault> {
    if !item.contains('=') {
        Err(RunFault::EnvWithoutEquals(item))
    } else {
        let k = crate::text::first_index(item, '=');
        let key = item.take(k);
        let value = item.skip(k + 1);
        if key.len() == 0 || key.contains('\0') || value.contains('\0') {
            Err(RunFault::InvalidEnv(item))
        } else {
            Ok((key, value))
        }
    }
}

/// The first item that fails, if any.
pub open spec fn first_env_fault(items: Seq<Seq<char>>) -> Option<RunFault>
    decreases items.len(),
{
    if items.len() == 0 {
        None
    } else {
        match first_env_fault(items.drop_last()) {
            Some(f) => Some(f),
            None => match env_entry(items.last()) {
                Err(f) => Some(f),
                Ok(_) => None,
            },
        }
    }
}

proof fn lemma_first_fault_extends(items: Seq<Seq<char>>, n: int)
    requires
        0 <= n <= items.len(),
        first_env_fault(items.take(n)) is Some,
    ensures
        first_env_fault(items) == first_env_fault(items.take(n)),
    decreases items.len() - n,
{
    if n < items.len() {
        assert(items.take(n + 1).drop_last() =~= items.take(n));
        lemma_first_fault_extends(items, n + 1);
    } else {
        assert(items.take(n) =~= items);
    }
}

/// `--env`: the `(KEY, VALUE)` pairs in order, or the first bad item. When
/// they are applied in order a later KEY overrides an earlier one.
#[verifier::spinoff_prover]
pub fn parse_environment(values: &Vec<String>) -> (r: Result<Vec<(String, String)>, RunError>)
    ensures
        match first_env_fault(values@.map_values(|s: String| s@)) {
            Some(f) => r matches Err(e) && e@ == f,
            None => r matches Ok(v) && v@.len() == values@.len() && forall|i: int|
                0 <= i < v@.len() ==> env_entry(values@[i]@) == Ok::<
                    (Seq<char>, Seq<char>),
                    RunFault,
                >(((#[trigger] v@[i]).0@, v@[i].1@)),
        },
{
    let ghost items = values@.map_values(|s: String| s@);
    let mut out: Vec<(String, String)> = Vec::new();
    let mut i: usize = 0;
    while i < values.len()
        invariant
            i <= values@.len(),
            items == values@.map_values(|s: String| s@),
            first_env_fault(items.take(i as int)) is None,
            out@.len() == i,
            forall|k: int|
                0 <= k < i ==> env_entry(values@[k]@) == Ok::<(Seq<char>, Seq<char>), RunFault>(
                    ((#[trigger] out@[k]).0@, out@[k].1@),
                ),
        decreases values.len() - i,
    {
        assert(items.take(i + 1).drop_last() =~= items.take(i as int));
        assert(items[i as int] == values@[i as int]@);
        let item = &values[i];
        let cs = chars_of(item.as_str());
        if !contains_char(cs.as_slice(), '=') {
            proof {
                lemma_first_fault_extends(items, i + 1);
            }
            return Err(RunError::EnvWithoutEquals(item.clone()));
        }
        let k = first_index_of(cs.as_slice(), '=');
        let n = cs.len();
        assert(k < n);
        let key = copy_range(cs.as_slice(), 0, k);
        let value = copy_range(cs.as_slice(), k + 1, cs.len());
        assert(key@ =~= cs@.take(k as int));
        assert(value@ =~= cs@.skip(k + 1));
        if key.len() == 0 || contains_char(key.as_slice(), '\0') || contains_char(
            value.as_slice(),
            '\0',
        ) {
            proof {
                lemma_first_fault_extends(items, i + 1);
            }
            return Err(RunError::InvalidEnv(item.clone()));
        }
        out.push((string_of(key.as_slice()), string_of(value.as_slice())));
        i = i + 1;
    }
    assert(items.take(items.len() as int) =~= items);
    Ok(out)
}

// ---------------------------------------------------------------------------
// The driver Python
// ---------------------------------------------------------------------------
/// `f` answered `b` when asked about the program named `t`.
pub open spec fn probed<F: Fn(&str) -> bool>(f: F, t: Seq<char>, b: bool) -> bool {
    exists|x: &str| x@ == t && #[trigger] f.ensures((x,), b)
}

/// The error for a driver Python that lacks nbclient or nbformat.
pub open spec fn driver_lacks_dependencies(path: Seq<char>) -> Seq<char> {
    "Driver Python '"@ + path + "' cannot import nbclient and nbformat. Install them with:\n  \""@
        + path + "\" -m pip install nbclient nbformat"@
}

/// `--driver-python`: the given Python, if it has nbclient and nbformat
/// (as `has_dependencies` reports).
pub fn require_driver_dependencies(path: &str, has_dependencies: impl Fn(&str) -> bool) -> (r:
    Result<String, AppExit>)
    requires
        forall|x: &str| #[trigger] has_dependencies.requires((x,)),
    ensures
        match r {
            Ok(s) => s@ == path@ && probed(has_dependencies, path@, true),
            Err(e) => e.exit_code() == 2 && e.text() == driver_lacks_dependencies(path@)
                && probed(has_dependencies, path@, false),
        },
{
    let ok = has_dependencies(path);
    assert(has_dependencies.ensures((path,), ok));
    if ok {
        Ok(path.to_owned())
    } else {
        let mut m = chars_of("Driver Python '");
        append_str(&mut m, path);
        append_str(&mut m, "' cannot import nbclient and nbformat. Install them with:\n  \"");
        append_str(&mut m, path);
        append_str(&mut m, "\" -m pip install nbclient nbformat");
        Err(AppExit::new(2, string_of(m.as_slice())))
    }
}

/// The Pythons tried as the driver, in order: a Python kernel's own
/// interpreter, then `python3` and `python` from `PATH`.
pub open spec fn driver_tries(c: KernelCandidateV) -> Seq<Seq<char>> {
    let own: Seq<Seq<char>> = if c.language is Some && eq_ignore_ascii_case(
        c.language->Some_0,
        "python"@,
    ) && c.interpreter is Some {
        seq![c.interpreter->Some_0]
    } else {
        Seq::empty()
    };
    own + seq!["python3"@, "python"@]
}

/// The error when no driver Python was found.
pub open spec fn no_driver_message(c: KernelCandidateV) -> Seq<char> {
    let suggested = match c.interpreter {
        Some(p) => p,
        None => "<python>"@,
    };
    "No Python driver with nbclient and nbformat was found. Install them for the selected kernel with:\n  \""@
        + suggested
        + "\" -m pip install nbclient nbformat\nor pass --driver-python <path>"@
}

fn no_driver_error(candidate: &KernelCandidate) -> (r: AppExit)
    ensures
        r.exit_code() == 2,
        r.text() == no_driver_message(candidate@),
{
    let mut m = chars_of(
        "No Python driver with nbclient and nbformat was found. Install them for the selected kernel with:\n  \"",
    );
    match &candidate.interpreter {
        Some(p) => append_str(&mut m, p.as_str()),
        None => append_str(&mut m, "<python>"),
    }
    append_str(&mut m, "\" -m pip install nbclient nbformat\nor pass --driver-python <path>");
    AppExit::new(2, string_of(m.as_slice()))
}

/// The Python that runs nbclient: `--driver-python` if given (it must have
/// the dependencies), else the first of [`driver_tries`] that has them.
pub fn select_driver_python(
    override_path: Option<&str>,
    candidate: &KernelCandidate,
    has_dependencies: impl Fn(&str) -> bool,
) -> (r: Result<String, AppExit>)
    requires
        forall|x: &str| #[trigger] has_dependencies.requires((x,)),
    ensures
        match override_path {
            Some(p) => match r {
                Ok(s) => s@ == p@ && probed(has_dependencies, p@, true),
                Err(e) => e.exit_code() == 2 && e.text() == driver_lacks_dependencies(p@)
                    && probed(has_dependencies, p@, false),
            },
            None => {
                let tries = driver_tries(candidate@);
                match r {
                    Ok(s) => exists|k: int|
                        0 <= k < tries.len() && s@ == tries[k] && probed(
                            has_dependencies,
                            tries[k],
                            true,
                        ) && forall|j: int|
                            0 <= j < k ==> probed(has_dependencies, #[trigger] tries[j], false),
                    Err(e) => e.exit_code() == 2 && e.text() == no_driver_message(candidate@)
                        && forall|j: int|
                        0 <= j < tries.len() ==> probed(has_dependencies, #[trigger] tries[j], false),
                }
            },
        },
{
    if let Some(path) = override_path {
        return require_driver_dependencies(path, has_dependencies);
    }
    let ghost tries = driver_tries(candidate@);
    let is_python = match &candidate.language {
        Some(l) => {
            let a = chars_of(l.as_str());
            let b = chars_of("python");
            proof {
                reveal_strlit("python");
            }
            crate::text::eq_ignore_ascii_case_chars(a.as_slice(), b.as_slice())
        },
        None => false,
    };
    let ghost own_tried = false;
    if is_python {
        if let Some(path) = &candidate.interpreter {
            let p: &str = path.as_str();
            let ok = has_dependencies(p);
            assert(has_dependencies.ensures((p,), ok));
            assert(tries[0] == path@);
            if ok {
                return Ok(path.clone());
            }
        }
    }
    let ghost offset: int = if is_python && candidate.interpreter is Some {
        1
    } else {
        0
    };
    assert(tries.len() == offset + 2);
    assert(offset == 1 ==> probed(has_dependencies, tries[0], false));
    let a = has_dependencies("python3");
    proof {
        reveal_strlit("python3");
        assert(has_dependencies.ensures(("python3",), a));
        assert(tries[offset] == "python3"@);
    }
    if a {
        return Ok("python3".to_owned());
    }
    let b = has_dependencies("python");
    proof {
        reveal_strlit("python");
        assert(has_dependencies.ensures(("python",), b));
        assert(tries[offset + 1] == "python"@);
    }
    if b {
        return Ok("python".to_owned());
    }
    Err(no_driver_error(candidate))
}

// ---------------------------------------------------------------------------
// Which cells run
// ---------------------------------------------------------------------------
/// The selected code cells, in order; there must be at least one.
pub fn code_cells(nb: &Notebook, indices: &Vec<usize>) -> (r: Result<Vec<usize>, RunError>)
    requires
        forall|k: int| 0 <= k < indices@.len() ==> #[trigger] indices@[k] < nb@.cells.len(),
    ensures
        match r {
            Ok(v) => v@ == code_positions(indices@, nb@.cells) && v@.len() > 0,
            Err(e) => e@ == RunFault::NoCodeCells && code_positions(indices@, nb@.cells).len()
                == 0,
        },
{
    let mut out: Vec<usize> = Vec::new();
    let mut i: usize = 0;
    while i < indices.len()
        invariant
            i <= indices@.len(),
            forall|k: int| 0 <= k < indices@.len() ==> #[trigger] indices@[k] < nb@.cells.len(),
            out@ == code_positions(indices@.take(i as int), nb@.cells),
        decreases indices.len() - i,
    {
        assert(indices@.take(i + 1).drop_last() =~= indices@.take(i as int));
        if nb.cells[indices[i]].is_code() {
            out.push(indices[i]);
        }
        i = i + 1;
    }
    assert(indices@.take(indices@.len() as int) =~= indices@);
    if out.len() == 0 {
        Err(RunError::NoCodeCells)
    } else {
        Ok(out)
    }
}

fn copy_indices(v: &Vec<usize>) -> (r: Vec<usize>)
    ensures
        r@ == v@,
{
    let mut out: Vec<usize> = Vec::new();
    let mut i: usize = 0;
    while i < v.len()
        invariant
            i <= v@.len(),
            out@ == v@.take(i as int),
        decreases v.len() - i,
    {
        out.push(v[i]);
        i = i + 1;
        assert(out@ =~= v@.take(i as int));
    }
    assert(v@.take(v@.len() as int) =~= v@);
    out
}

/// The code cells before position `n`, in order.
pub open spec fn code_cells_before(cs: Seq<CellV>, n: int) -> Seq<usize>
    decreases n,
{
    if n <= 0 {
        Seq::empty()
    } else if cs[n - 1].cell_type == word_code() {
        code_cells_before(cs, n - 1).push((n - 1) as usize)
    } else {
        code_cells_before(cs, n - 1)
    }
}

/// The cells that are executed: the selected code cells, or with
/// `include_prior` every code cell up to the last selected one.
pub fn execution_indices(nb: &Notebook, code: &Vec<usize>, include_prior: bool) -> (r: Vec<usize>)
    requires
        code@.len() > 0,
        forall|k: int| 0 <= k < code@.len() ==> #[trigger] code@[k] < nb@.cells.len(),
    ensures
        r@ == if include_prior {
            code_cells_before(nb@.cells, code@.last() + 1)
        } else {
            code@
        },
{
    if !include_prior {
        return copy_indices(code);
    }
    let last = code[code.len() - 1];
    let n = nb.cells.len();
    let mut out: Vec<usize> = Vec::new();
    let mut i: usize = 0;
    while i <= last
        invariant
            n == nb@.cells.len(),
            i <= last + 1,
            last < nb@.cells.len(),
            out@ == code_cells_before(nb@.cells, i as int),
        decreases last + 1 - i,
    {
        if nb.cells[i].is_code() {
            out.push(i);
        }
        i = i + 1;
    }
    out
}

/// The 1-based number of the cell at execution slot `slot`, if there is one.
pub fn failed_cell_number(executed: &Vec<usize>, slot: Option<usize>) -> (r: Option<usize>)
    requires
        forall|k: int| 0 <= k < executed@.len() ==> #[trigger] executed@[k] < usize::MAX,
    ensures
        r == match slot {
            Some(s) => if s < executed@.len() {
                Some((executed@[s as int] + 1) as usize)
            } else {
                None
            },
            None => None,
        },
{
    match slot {
        Some(s) => {
            if s < executed.len() {
                Some(executed[s] + 1)
            } else {
                None
            }
        },
        None => None,
    }
}

// ---------------------------------------------------------------------------
// The driver's report
// ---------------------------------------------------------------------------
/// The execution status: `interrupted` after Ctrl-C; else the report's
/// status (`driver_failure` when it has none); without a report,
/// `overall_timeout` when the time ran out, else `driver_failure`.
pub open spec fn execution_status(
    report: Option<JsonV>,
    wall_timed_out: bool,
    interrupted: bool,
) -> Seq<char> {
    if interrupted {
        "interrupted"@
    } else {
        match report {
            Some(r) => match member(r, "status"@) {
                Some(s) => match str_value(s) {
                    Some(t) => t,
                    None => "driver_failure"@,
                },
                None => "driver_failure"@,
            },
            None => if wall_timed_out {
                "overall_timeout"@
            } else {
                "driver_failure"@
            },
        }
    }
}

pub fn status_of_report(report: Option<&Json>, wall_timed_out: bool, interrupted: bool) -> (r:
    String)
    ensures
        r@ == execution_status(
            match report {
                Some(j) => Some(j@),
                None => None,
            },
            wall_timed_out,
            interrupted,
        ),
{
    if interrupted {
        return "interrupted".to_owned();
    }
    match report {
        Some(r) => match r.get_str("status") {
            Some(t) => t.clone(),
            None => "driver_failure".to_owned(),
        },
        None => {
            if wall_timed_out {
                "overall_timeout".to_owned()
            } else {
                "driver_failure".to_owned()
            }
        },
    }
}

/// How a finished run ends: the statuses that mean success give `Ok`; the
/// others an exit code (2 missing dependency, 124 overall timeout, 130
/// interrupted, 1 otherwise) and a message (the report's where it has one);
/// an unknown status fails only when the driver process failed.
pub open spec fn run_outcome(status: Seq<char>, message: Option<Seq<char>>, driver_succeeded: bool) -> Result<
    (),
    (i32, Seq<char>),
> {
    let or = |d: Seq<char>|
        match message {
            Some(m) => m,
            None => d,
        };
    if status == "ok"@ || status == "ok_with_errors"@ {
        Ok(())
    } else if status == "missing_dependency"@ {
        Err((2i32, or("nbclient/nbformat not installed"@)))
    } else if status == "overall_timeout"@ {
        Err((124i32, "Overall execution timeout expired; the kernel process was terminated"@))
    } else if status == "interrupted"@ {
        Err((130i32, "Execution interrupted (available outputs saved)"@))
    } else if status == "cell_error"@ {
        Err((1i32, "One or more cells raised an error (available outputs saved)"@))
    } else if status == "cell_timeout"@ {
        Err((1i32, "Cell execution timed out (available outputs saved)"@))
    } else if status == "kernel_error"@ {
        Err((1i32, or("Kernel execution failed"@)))
    } else if !driver_succeeded {
        Err((1i32, or("Execution driver failed"@)))
    } else {
        Ok(())
    }
}

proof fn lemma_status_words_distinct()
    ensures
        "ok"@ != "cell_error"@,
        "ok_with_errors"@ != "cell_error"@,
        "missing_dependency"@ != "cell_error"@,
        "overall_timeout"@ != "cell_error"@,
        "interrupted"@ != "cell_error"@,
        "ok"@ != "cell_timeout"@,
        "ok_with_errors"@ != "cell_timeout"@,
        "missing_dependency"@ != "cell_timeout"@,
        "overall_timeout"@ != "cell_timeout"@,
        "interrupted"@ != "cell_timeout"@,
        "cell_error"@ != "cell_timeout"@,
        "ok"@ != "kernel_error"@,
        "ok_with_errors"@ != "kernel_error"@,
        "missing_dependency"@ != "kernel_error"@,
        "overall_timeout"@ != "kernel_error"@,
        "interrupted"@ != "kernel_error"@,
        "cell_error"@ != "kernel_error"@,
        "cell_timeout"@ != "kernel_error"@,
        "ok"@ != "interrupted"@,
        "ok_with_errors"@ != "interrupted"@,
        "missing_dependency"@ != "interrupted"@,
        "overall_timeout"@ != "interrupted"@,
        "ok"@ != "overall_timeout"@,
        "ok_with_errors"@ != "overall_timeout"@,
        "missing_dependency"@ != "overall_timeout"@,
        "ok"@ != "missing_dependency"@,
        "ok_with_errors"@ != "missing_dependency"@,
{
    reveal_strlit("ok");
    reveal_strlit("ok_with_errors");
    reveal_strlit("missing_dependency");
    reveal_strlit("overall_timeout");
    reveal_strlit("interrupted");
    reveal_strlit("cell_error");
    reveal_strlit("cell_timeout");
    reveal_strlit("kernel_error");
    assert("cell_timeout"@[0] != "kernel_error"@[0]);
    assert("ok"@.len() == 2);
    assert("ok_with_errors"@.len() == 14);
    assert("missing_dependency"@.len() == 18);
    assert("overall_timeout"@.len() == 15);
    assert("interrupted"@.len() == 11);
    assert("cell_error"@.len() == 10);
    assert("cell_timeout"@.len() == 12);
}

/// A run succeeds exactly when its status is `ok` or `ok_with_errors`, or
/// when the status is none of the failures and the driver succeeded. A run
/// in which a cell raised an error, a cell timed out or the kernel failed
/// exits with code 1; an interrupted run with 130, one past its overall
/// deadline with 124, one that lacks nbclient with 2 — whatever the driver
/// process did.
pub proof fn lemma_run_outcome_by_status(
    status: Seq<char>,
    message: Option<Seq<char>>,
    driver_succeeded: bool,
)
    ensures
        (run_outcome(status, message, driver_succeeded) is Ok) == (status == "ok"@ || status
            == "ok_with_errors"@ || (driver_succeeded && status != "missing_dependency"@ && status
            != "overall_timeout"@ && status != "interrupted"@ && status != "cell_error"@ && status
            != "cell_timeout"@ && status != "kernel_error"@)),
        status == "cell_error"@ ==> run_outcome(status, message, driver_succeeded) == Err::<
            (),
            (i32, Seq<char>),
        >((1i32, "One or more cells raised an error (available outputs saved)"@)),
        status == "cell_timeout"@ ==> run_outcome(status, message, driver_succeeded) == Err::<
            (),
            (i32, Seq<char>),
        >((1i32, "Cell execution timed out (available outputs saved)"@)),
        status == "kernel_error"@ ==> (run_outcome(status, message, driver_succeeded) matches Err(
            (code, _),
        ) && code == 1),
        status == "interrupted"@ ==> (run_outcome(status, message, driver_succeeded) matches Err(
            (code, _),
        ) && code == 130),
        status == "overall_timeout"@ ==> (run_outcome(status, message, driver_succeeded) matches Err(
            (code, _),
        ) && code == 124),
        status == "missing_dependency"@ ==> (run_outcome(status, message, driver_succeeded) matches Err(
            (code, _),
        ) && code == 2),
{
    lemma_status_words_distinct();
}

fn message_or(message: Option<&str>, default: &str) -> (r: String)
    ensures
        r@ == match message {
            Some(m) => m@,
            None => default@,
        },
{
    match message {
        Some(m) => m.to_owned(),
        None => default.to_owned(),
    }
}

pub fn finish_run(status: &str, message: Option<&str>, driver_succeeded: bool) -> (r: Result<
    (),
    AppExit,
>)
    ensures
        match (
            r,
            run_outcome(
                status@,
                match message {
                    Some(m) => Some(m@),
                    None => None,
                },
                driver_succeeded,
            ),
        ) {
            (Ok(_), Ok(_)) => true,
            (Err(e), Err((code, text))) => e.exit_code() == code && e.text() == text,
            _ => false,
        },
{
    proof {
        reveal_strlit("ok");
        reveal_strlit("ok_with_errors");
        reveal_strlit("missing_dependency");
        reveal_strlit("overall_timeout");
        reveal_strlit("interrupted");
        reveal_strlit("cell_error");
        reveal_strlit("cell_timeout");
        reveal_strlit("kernel_error");
    }
    if str_equal(status, "ok") || str_equal(status, "ok_with_errors") {
        Ok(())
    } else if str_equal(status, "missing_dependency") {
        Err(AppExit::new(2, message_or(message, "nbclient/nbformat not installed")))
    } else if str_equal(status, "overall_timeout") {
        Err(
            AppExit::new(
                124,
                "Overall execution timeout expired; the kernel process was terminated".to_owned(),
            ),
        )
    } else if str_equal(status, "interrupted") {
        Err(AppExit::new(130, "Execution interrupted (available outputs saved)".to_owned()))
    } else if str_equal(status, "cell_error") {
        Err(
            AppExit::new(
                1,
                "One or more cells raised an error (available outputs saved)".to_owned(),
            ),
        )
    } else if str_equal(status, "cell_timeout") {
        Err(AppExit::new(1, "Cell execution timed out (available outputs saved)".to_owned()))
    } else if str_equal(status, "kernel_error") {
        Err(AppExit::new(1, message_or(message, "Kernel execution failed")))
    } else if !driver_succeeded {
        Err(AppExit::new(1, message_or(message, "Execution driver failed")))
    } else {
        Ok(())
    }
}

// ---------------------------------------------------------------------------
// Writing executed cells back
// ---------------------------------------------------------------------------
/// A cell after execution, from the executed copy `ec`: its outputs (when
/// they are an array), execution count, metadata and id (when a string).
pub open spec fn executed_cell(c: CellV, ec: JsonV) -> CellV {
    CellV {
        outputs: match member(ec, "outputs"@) {
            Some(JsonV::Array(a)) => a,
            _ => c.outputs,
        },
        execution_count: Some(
            match member(ec, "execution_count"@) {
                Some(v) => v,
                None => JsonV::Null,
            },
        ),
        metadata: match member(ec, "metadata"@) {
            Some(m) => m,
            None => c.metadata,
        },
        id: match crate::json::member_str(ec, "id"@) {
            Some(s) => Some(s),
            None => c.id,
        },
        ..c
    }
}

fn apply_executed_cell(c: &mut Cell, ec: &Json)
    ensures
        final(c)@ == executed_cell(old(c)@, ec@),
{
    if let Some(o) = ec.get("outputs") {
        if let Some(a) = o.as_array() {
            c.outputs = crate::notebook::copy_jsons(a);
        }
    }
    c.execution_count = Some(
        match ec.get("execution_count") {
            Some(v) => v.duplicate(),
            None => Json::Null,
        },
    );
    if let Some(m) = ec.get("metadata") {
        c.metadata = m.duplicate();
    }
    if let Some(s) = ec.get_str("id") {
        c.id = Some(s.clone());
    }
}

/// Cell `i` after the first `n` selected code cells were written back.
pub open spec fn written_back(
    cs: Seq<CellV>,
    code: Seq<usize>,
    executed_indices: Seq<usize>,
    executed: Seq<JsonV>,
    n: int,
    i: int,
) -> CellV {
    if (exists|q: int| 0 <= q < n && code[q] == i) {
        executed_cell(cs[i], executed[slot_of(executed_indices, i as usize)->Some_0])
    } else {
        cs[i]
    }
}

/// The first slot at which `executed` runs cell `i`.
pub open spec fn slot_of(executed: Seq<usize>, i: usize) -> Option<int> {
    if (exists|k: int| 0 <= k < executed.len() && executed[k] == i) {
        Some(
            choose|k: int|
                0 <= k < executed.len() && executed[k] == i && forall|j: int|
                    0 <= j < k ==> executed[j] != i,
        )
    } else {
        None
    }
}

proof fn lemma_slot_of(v: Seq<usize>, i: usize, s: int)
    requires
        0 <= s < v.len(),
        v[s] == i,
        forall|j: int| 0 <= j < s ==> v[j] != i,
    ensures
        slot_of(v, i) == Some(s),
{
    let c = choose|k: int|
        0 <= k < v.len() && v[k] == i && forall|j: int| 0 <= j < k ==> v[j] != i;
    assert(0 <= c < v.len() && v[c] == i && forall|j: int| 0 <= j < c ==> v[j] != i);
    if c < s {
    } else if c > s {
        assert(v[s] != i);
    }
}

fn find_slot(executed: &Vec<usize>, i: usize) -> (r: Option<usize>)
    ensures
        match r {
            Some(k) => k < executed@.len() && executed@[k as int] == i && forall|j: int|
                0 <= j < k ==> executed@[j] != i,
            None => forall|j: int| 0 <= j < executed@.len() ==> executed@[j] != i,
        },
{
    let mut k: usize = 0;
    while k < executed.len()
        invariant
            k <= executed@.len(),
            forall|j: int| 0 <= j < k ==> executed@[j] != i,
        decreases executed.len() - k,
    {
        if executed[k] == i {
            return Some(k);
        }
        k = k + 1;
    }
    None
}

/// Copies the executed state of the selected code cells back into the
/// notebook from the executed copies (one per execution slot).
pub fn write_back_executed(
    nb: &mut Notebook,
    code: &Vec<usize>,
    executed_indices: &Vec<usize>,
    executed: &Vec<Json>,
) -> (r: Result<(), RunError>)
    requires
        forall|k: int| 0 <= k < code@.len() ==> #[trigger] code@[k] < old(nb)@.cells.len(),
        forall|a: int, b: int| 0 <= a < b < code@.len() ==> code@[a] != code@[b],
    ensures
        if executed@.len() != executed_indices@.len() {
            r matches Err(e) && e@ == RunFault::CellCountMismatch && final(nb)@ == old(nb)@
        } else if (exists|k: int|
            0 <= k < code@.len() && slot_of(executed_indices@, #[trigger] code@[k]) is None) {
            r matches Err(e) && e@ == RunFault::SelectedCellMissing && final(nb)@ == old(nb)@
        } else {
            &&& r is Ok
            &&& final(nb)@ == with_cells(old(nb)@, final(nb)@.cells)
            &&& final(nb)@.cells.len() == old(nb)@.cells.len()
            &&& forall|i: int|
                0 <= i < old(nb)@.cells.len() ==> #[trigger] final(nb)@.cells[i] == written_back(
                    old(nb)@.cells,
                    code@,
                    executed_indices@,
                    jsons_view(executed@),
                    code@.len() as int,
                    i,
                )
        },
{
    if executed.len() != executed_indices.len() {
        return Err(RunError::CellCountMismatch);
    }
    let mut slots: Vec<usize> = Vec::new();
    let mut k: usize = 0;
    while k < code.len()
        invariant
            k <= code@.len(),
            slots@.len() == k,
            nb@ == old(nb)@,
            executed@.len() == executed_indices@.len(),
            forall|q: int|
                0 <= q < k ==> slot_of(executed_indices@, #[trigger] code@[q]) == Some(
                    slots@[q] as int,
                ) && slots@[q] < executed_indices@.len(),
        decreases code.len() - k,
    {
        match find_slot(executed_indices, code[k]) {
            Some(s) => {
                proof {
                    lemma_slot_of(executed_indices@, code@[k as int], s as int);
                }
                slots.push(s);
            },
            None => {
                assert(slot_of(executed_indices@, code@[k as int]) is None);
                return Err(RunError::SelectedCellMissing);
            },
        }
        k = k + 1;
    }
    let ghost before = nb@.cells;
    let mut k: usize = 0;
    while k < code.len()
        invariant
            k <= code@.len(),
            slots@.len() == code@.len(),
            executed@.len() == executed_indices@.len(),
            forall|q: int|
                0 <= q < code@.len() ==> slot_of(executed_indices@, #[trigger] code@[q]) == Some(
                    slots@[q] as int,
                ) && slots@[q] < executed_indices@.len(),
            forall|q: int| 0 <= q < code@.len() ==> #[trigger] code@[q] < before.len(),
            forall|a: int, b: int| 0 <= a < b < code@.len() ==> code@[a] != code@[b],
            nb@ == with_cells(old(nb)@, nb@.cells),
            before == old(nb)@.cells,
            nb@.cells.len() == before.len(),
            forall|i: int|
                0 <= i < before.len() ==> #[trigger] nb@.cells[i] == written_back(
                    before,
                    code@,
                    executed_indices@,
                    jsons_view(executed@),
                    k as int,
                    i,
                ),
        decreases code.len() - k,
    {
        let idx = code[k];
        let slot = slots[k];
        let ghost at = nb@.cells;
        proof {
            assert(at[idx as int] == before[idx as int]) by {
                if (exists|q: int| 0 <= q < k && code@[q] == idx) {
                    let q = choose|q: int| 0 <= q < k && code@[q] == idx;
                    assert(code@[q] != code@[k as int]);
                }
            }
        }
        apply_executed_cell(&mut nb.cells[idx], &executed[slot]);
        proof {
            assert forall|i: int| 0 <= i < before.len() implies #[trigger] nb@.cells[i]
                == written_back(
                before,
                code@,
                executed_indices@,
                jsons_view(executed@),
                k + 1,
                i,
            ) by {
                if i == idx {
                    assert(code@[k as int] == i);
                } else {
                    assert(nb@.cells[i] == at[i]);
                    if (exists|q: int| 0 <= q < k + 1 && code@[q] == i) {
                        let q = choose|q: int| 0 <= q < k + 1 && code@[q] == i;
                        assert(q != k);
                    }
                }
            }
        }
        k = k + 1;
    }
    Ok(())
}

// ---------------------------------------------------------------------------
// The notebook handed to the driver
// ---------------------------------------------------------------------------
/// The metadata of the notebook handed to the driver: when it has a
/// `kernelspec` and the kernel has a kernelspec name, that name is written
/// into it (a `null` kernelspec becomes an object).
pub open spec fn driver_metadata(meta: JsonV, name: Option<Seq<char>>) -> JsonV {
    match (meta, name) {
        (JsonV::Object(ps), Some(n)) => match key_index(ps, "kernelspec"@) {
            Some(k) => JsonV::Object(
                ps.update(
                    k,
                    (
                        "kernelspec"@,
                        match ps[k].1 {
                            JsonV::Object(q) => JsonV::Object(
                                crate::json::with_member(q, "name"@, JsonV::Str(n)),
                            ),
                            _ => JsonV::Object(seq![("name"@, JsonV::Str(n))]),
                        },
                    ),
                ),
            ),
            None => meta,
        },
        _ => meta,
    }
}

/// Whether [`driver_metadata`] can write the name: indexing into a
/// kernelspec that is neither an object nor `null` is refused.
pub open spec fn kernelspec_writable(meta: JsonV, name: Option<Seq<char>>) -> bool {
    match (meta, name) {
        (JsonV::Object(ps), Some(_)) => match key_index(ps, "kernelspec"@) {
            Some(k) => ps[k].1 is Object || ps[k].1 is Null,
            None => true,
        },
        _ => true,
    }
}

pub fn kernel_metadata(meta: &Json, kernelspec_name: Option<&str>) -> (r: Json)
    requires
        kernelspec_writable(
            meta@,
            match kernelspec_name {
                Some(n) => Some(n@),
                None => None,
            },
        ),
    ensures
        r@ == driver_metadata(
            meta@,
            match kernelspec_name {
                Some(n) => Some(n@),
                None => None,
            },
        ),
{
    let name = match kernelspec_name {
        Some(n) => n,
        None => {
            return meta.duplicate();
        },
    };
    let mut ps = match meta {
        Json::Object(ps) => {
            proof {
                lemma_view_object(*ps);
            }
            crate::notebook::copy_pairs(ps)
        },
        _ => {
            return meta.duplicate();
        },
    };
    let k = match crate::json::find_key(&ps, "kernelspec") {
        Some(k) => k,
        None => {
            proof {
                lemma_view_object(ps);
            }
            return Json::Object(ps);
        },
    };
    proof {
        crate::json::lemma_key_index_bounds(pairs_view(ps@), "kernelspec"@);
    }
    let ghost pv = pairs_view(ps@);
    let new_ks = match &ps[k].1 {
        Json::Object(q) => {
            let mut q2 = crate::notebook::copy_pairs(q);
            proof {
                lemma_view_object(*q);
            }
            crate::json::set_member(&mut q2, "name".to_owned(), Json::Str(name.to_owned()));
            proof {
                lemma_view_object(q2);
            }
            Json::Object(q2)
        },
        _ => {
            let mut q2: Vec<(String, Json)> = Vec::new();
            q2.push(("name".to_owned(), Json::Str(name.to_owned())));
            proof {
                lemma_view_object(q2);
                assert(pairs_view(q2@) =~= seq![("name"@, JsonV::Str(name@))]);
            }
            Json::Object(q2)
        },
    };
    ps.set(k, ("kernelspec".to_owned(), new_ks));
    proof {
        lemma_view_object(ps);
        assert(pairs_view(ps@) =~= pv.update(k as int, ("kernelspec"@, new_ks@)));
    }
    Json::Object(ps)
}

// ---------------------------------------------------------------------------
// The cell a run reports as failed
// ---------------------------------------------------------------------------
/// A code cell whose outputs hold an error.
pub open spec fn failing_cell(c: CellV) -> bool {
    c.cell_type == word_code() && exists|k: int|
        0 <= k < c.outputs.len() && crate::output_limit::is_error_output(#[trigger] c.outputs[k])
}

/// The 1-based number of the first selected cell that [`failing_cell`]
/// holds of, after a run.
pub fn first_failed_cell(nb: &Notebook, indices: &Vec<usize>) -> (r: Option<usize>)
    requires
        forall|k: int| 0 <= k < indices@.len() ==> #[trigger] indices@[k] < nb@.cells.len(),
    ensures
        match r {
            Some(n) => exists|k: int|
                0 <= k < indices@.len() && n == indices@[k] + 1 && failing_cell(
                    nb@.cells[indices@[k] as int],
                ) && forall|j: int|
                    0 <= j < k ==> !failing_cell(nb@.cells[#[trigger] indices@[j] as int]),
            None => forall|j: int|
                0 <= j < indices@.len() ==> !failing_cell(nb@.cells[#[trigger] indices@[j] as int]),
        },
{
    let n = nb.cells.len();
    let mut i: usize = 0;
    while i < indices.len()
        invariant
            i <= indices@.len(),
            nb@.cells.len() == nb.cells@.len(),
            n == nb.cells@.len(),
            forall|k: int| 0 <= k < indices@.len() ==> #[trigger] indices@[k] < nb@.cells.len(),
            forall|j: int| 0 <= j < i ==> !failing_cell(nb@.cells[#[trigger] indices@[j] as int]),
        decreases indices.len() - i,
    {
        let c = &nb.cells[indices[i]];
        assert(nb@.cells[indices@[i as int] as int] == c@);
        if c.is_code() && crate::output_limit::has_error(&c.outputs) {
            proof {
                let k = choose|k: int|
                    0 <= k < c.outputs@.len() && crate::output_limit::is_error_output(
                        #[trigger] c.outputs@[k]@,
                    );
                assert(c@.outputs[k] == c.outputs@[k]@);
                assert(failing_cell(nb@.cells[indices@[i as int] as int]));
            }
            return Some(indices[i] + 1);
        }
        proof {
            if c@.cell_type == word_code() {
                assert forall|k: int| 0 <= k < c@.outputs.len() implies !crate::output_limit::is_error_output(#[trigger] c@.outputs[k]) by {
                    assert(c@.outputs[k] == c.outputs@[k]@);
                }
            }
        }
        i = i + 1;
    }
    None
}

} // verus!
