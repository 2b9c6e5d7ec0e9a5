//! The Python programs that run notebook code: the one-shot execution
//! driver and the persistent session daemon. Values are written into them as
//! JSON string literals, which are also valid Python string literals.
use crate::text::{
    append_chars, append_str, chars_of, decimal, push_decimal_u64, push_signed_decimal,
    signed_decimal, string_of,
};
use vstd::prelude::*;

verus! {

// ---------------------------------------------------------------------------
// JSON string literals
// ---------------------------------------------------------------------------
/// A lowercase hexadecimal digit.
pub open spec fn hex_lower(d: nat) -> char
    recommends
        d < 16,
{
    if d < 10 {
        crate::text::digit_char(d)
    } else if d == 10 {
        'a'
    } else if d == 11 {
        'b'
    } else if d == 12 {
        'c'
    } else if d == 13 {
        'd'
    } else if d == 14 {
        'e'
    } else {
        'f'
    }
}

/// How JSON writes one character inside a string literal: quote and
/// backslash escaped, the control characters as `\b \t \n \f \r` or
/// `\u00XX`, everything else as itself.
pub open spec fn json_escape_char(c: char) -> Seq<char> {
    if c == '"' {
        seq!['\\', '"']
    } else if c == '\\' {
        seq!['\\', '\\']
    } else if c == '\u{8}' {
        seq!['\\', 'b']
    } else if c == '\t' {
        seq!['\\', 't']
    } else if c == '\n' {
        seq!['\\', 'n']
    } else if c == '\u{c}' {
        seq!['\\', 'f']
    } else if c == '\r' {
        seq!['\\', 'r']
    } else if (c as u32) < 0x20 {
        seq!['\\', 'u', '0', '0', hex_lower((c as u32 / 16) as nat), hex_lower((c as u32 % 16) as nat)]
    } else {
        seq![c]
    }
}

/// The escaped characters of a JSON string literal's body.
pub open spec fn json_escape(s: Seq<char>) -> Seq<char>
    decreases s.len(),
{
    if s.len() == 0 {
        Seq::empty()
    } else {
        json_escape(s.drop_last()) + json_escape_char(s.last())
    }
}

/// The JSON string literal of `s`, quotes included.
pub open spec fn json_quote(s: Seq<char>) -> Seq<char> {
    seq!['"'] + json_escape(s) + seq!['"']
}

/// `serde_json::to_string` on a `str`: the JSON string literal of `s`
/// (serialising a string cannot fail).
#[verifier::external_body]
fn json_string_literal(s: &str) -> (r: Vec<char>)
    ensures
        r@ == json_quote(s@),
{
    match serde_json::to_string(s) {
        Ok(t) => t.chars().collect(),
        Err(_) => Vec::new(),
    }
}

// ---------------------------------------------------------------------------
// The execution driver
// ---------------------------------------------------------------------------
/// Python's rendering of a per-cell timeout: `None` for -1 (no limit).
pub open spec fn py_timeout(t: i64) -> Seq<char> {
    if t == -1 {
        "None"@
    } else {
        signed_decimal(t as int)
    }
}

fn push_py_timeout(out: &mut Vec<char>, t: i64)
    ensures
        final(out)@ == old(out)@ + py_timeout(t),
{
    if t == -1 {
        append_str(out, "None");
    } else {
        push_signed_decimal(out, t);
    }
}

/// Python's rendering of a boolean.
pub open spec fn py_bool(b: bool) -> Seq<char> {
    if b {
        "True"@
    } else {
        "False"@
    }
}

fn push_py_bool(out: &mut Vec<char>, b: bool)
    ensures
        final(out)@ == old(out)@ + py_bool(b),
{
    if b {
        append_str(out, "True");
    } else {
        append_str(out, "False");
    }
}

pub const RUN_SCRIPT_HEAD: &'static str = "import json, sys, traceback\n\
if sys.platform == 'win32':\n\
\x20   import asyncio\n\
\x20   asyncio.set_event_loop_policy(asyncio.WindowsSelectorEventLoopPolicy())\n\
report_path = ";

pub const RUN_SCRIPT_BEFORE_PATH: &'static str = "\n\
result = {'status': 'driver_failure', 'execution_started': False}\n\
nb = None\n\
try:\n\
\x20   import nbformat, nbclient\n\
except ImportError as e:\n\
\x20   result = {'status': 'missing_dependency', 'execution_started': False, 'message': str(e)}\n\
else:\n\
\x20   try:\n\
\x20       nb = nbformat.read(open(";

pub const RUN_SCRIPT_BEFORE_TIMEOUT: &'static str = ", encoding='utf-8'), as_version=4)\n\
\x20       client = nbclient.NotebookClient(nb, timeout=";

pub const RUN_SCRIPT_BEFORE_KERNEL: &'static str = ", kernel_name=";

pub const RUN_SCRIPT_BEFORE_ALLOW_ERRORS: &'static str = ", allow_errors=";

pub const RUN_SCRIPT_BEFORE_STARTUP: &'static str = ", startup_timeout=";

pub const RUN_SCRIPT_BEFORE_IOPUB: &'static str = ", iopub_timeout=";

pub const RUN_SCRIPT_BEFORE_TIMING: &'static str = ", record_timing=";

pub const RUN_SCRIPT_BEFORE_WRITE_PATH: &'static str = ")\n\
\x20       result['execution_started'] = True\n\
\x20       client.execute()\n\
\x20       failures = [(i, o) for i, c in enumerate(nb.cells) for o in c.get('outputs', []) if o.get('output_type') == 'error']\n\
\x20       result = {'status': 'ok_with_errors' if failures else 'ok', 'execution_started': True}\n\
\x20       if failures: result['failed_cell'] = failures[0][0]\n\
\x20   except BaseException as e:\n\
\x20       name = type(e).__name__\n\
\x20       status = 'cell_timeout' if 'Timeout' in name else ('cell_error' if name == 'CellExecutionError' else 'kernel_error')\n\
\x20       result = {'status': status, 'execution_started': result.get('execution_started', False), 'message': f'{name}: {e}'}\n\
\x20       for i, cell in enumerate(nb.cells if nb else []):\n\
\x20           if any(o.get('output_type') == 'error' for o in cell.get('outputs', [])): result['failed_cell'] = i; break\n\
\x20   finally:\n\
\x20       if nb is not None:\n\
\x20           nbformat.write(nb, open(";

pub const RUN_SCRIPT_TAIL: &'static str = ", 'w', encoding='utf-8'))\n\
finally:\n\
\x20   with open(report_path, 'w', encoding='utf-8') as f: json.dump(result, f)\n\
sys.exit(0 if result['status'] in ('ok', 'ok_with_errors') else (2 if result['status'] == 'missing_dependency' else 1))\n\
";

/// The driver program: reads the notebook at `path`, executes it with
/// nbclient under `kernel`, writes it back even on failure, and leaves a JSON
/// report at `report`.
pub open spec fn run_script(
    path: Seq<char>,
    report: Seq<char>,
    timeout: i64,
    kernel: Seq<char>,
    allow_errors: bool,
    startup_timeout: u64,
    iopub_timeout: u64,
    record_timing: bool,
) -> Seq<char> {
    RUN_SCRIPT_HEAD@
        + json_quote(report)
        + RUN_SCRIPT_BEFORE_PATH@
        + json_quote(path)
        + RUN_SCRIPT_BEFORE_TIMEOUT@
        + py_timeout(timeout)
        + RUN_SCRIPT_BEFORE_KERNEL@
        + json_quote(kernel)
        + RUN_SCRIPT_BEFORE_ALLOW_ERRORS@
        + py_bool(allow_errors)
        + RUN_SCRIPT_BEFORE_STARTUP@
        + decimal(startup_timeout as nat)
        + RUN_SCRIPT_BEFORE_IOPUB@
        + decimal(iopub_timeout as nat)
        + RUN_SCRIPT_BEFORE_TIMING@
        + py_bool(record_timing)
        + RUN_SCRIPT_BEFORE_WRITE_PATH@
        + json_quote(path)
        + RUN_SCRIPT_TAIL@
}

/// The text of the execution driver program (see [`run_script`]).
pub fn build_script(
    path: &str,
    report: &str,
    timeout: i64,
    kernel: &str,
    allow_errors: bool,
    startup_timeout: u64,
    iopub_timeout: u64,
    record_timing: bool,
) -> (r: String)
    ensures
        r@ == run_script(
            path@,
            report@,
            timeout,
            kernel@,
            allow_errors,
            startup_timeout,
            iopub_timeout,
            record_timing,
        ),
{
    let path_q = json_string_literal(path);
    let report_q = json_string_literal(report);
    let kernel_q = json_string_literal(kernel);
    let mut out = chars_of(RUN_SCRIPT_HEAD);
    append_chars(&mut out, report_q.as_slice());
    append_str(&mut out, RUN_SCRIPT_BEFORE_PATH);
    append_chars(&mut out, path_q.as_slice());
    append_str(&mut out, RUN_SCRIPT_BEFORE_TIMEOUT);
    push_py_timeout(&mut out, timeout);
    append_str(&mut out, RUN_SCRIPT_BEFORE_KERNEL);
    append_chars(&mut out, kernel_q.as_slice());
    append_str(&mut out, RUN_SCRIPT_BEFORE_ALLOW_ERRORS);
    push_py_bool(&mut out, allow_errors);
    append_str(&mut out, RUN_SCRIPT_BEFORE_STARTUP);
    push_decimal_u64(&mut out, startup_timeout);
    append_str(&mut out, RUN_SCRIPT_BEFORE_IOPUB);
    push_decimal_u64(&mut out, iopub_timeout);
    append_str(&mut out, RUN_SCRIPT_BEFORE_TIMING);
    push_py_bool(&mut out, record_timing);
    append_str(&mut out, RUN_SCRIPT_BEFORE_WRITE_PATH);
    append_chars(&mut out, path_q.as_slice());
    append_str(&mut out, RUN_SCRIPT_TAIL);
    string_of(out.as_slice())
}

// ---------------------------------------------------------------------------
// The session daemon
// ---------------------------------------------------------------------------
pub const DAEMON_SCRIPT_HEAD: &'static str = "import asyncio, json, os, sys\n\
if sys.platform == 'win32':\n\
\x20   asyncio.set_event_loop_policy(asyncio.WindowsSelectorEventLoopPolicy())\n\
KERNEL_NAME = ";

pub const DAEMON_SCRIPT_BEFORE_TOKEN: &'static str = "\n\
TOKEN = ";

pub const DAEMON_SCRIPT_BEFORE_STARTUP: &'static str = "\n\
STARTUP_TIMEOUT = ";

pub const DAEMON_SCRIPT_TAIL: &'static str = "\n\
\n\
def announce(payload):\n\
\x20   sys.stdout.write(json.dumps(payload) + '\\n\
')\n\
\x20   sys.stdout.flush()\n\
\n\
def cell_payload(cell_req, cell):\n\
\x20   return {\n\
\x20       'id': cell_req.get('id'),\n\
\x20       'execution_count': cell.get('execution_count'),\n\
\x20       'outputs': cell.get('outputs', []),\n\
\x20       'metadata': cell.get('metadata', {}),\n\
\x20   }\n\
\n\
async def respond(writer, payload):\n\
\x20   writer.write((json.dumps(payload) + '\\n\
').encode())\n\
\x20   await writer.drain()\n\
\n\
async def main():\n\
\x20   try:\n\
\x20       import nbformat, nbclient\n\
\x20   except ImportError as e:\n\
\x20       announce({'status': 'error', 'message': f'missing_dependency: {e}'})\n\
\x20       return\n\
\x20   nb = nbformat.v4.new_notebook()\n\
\x20   client = nbclient.NotebookClient(nb, kernel_name=KERNEL_NAME, startup_timeout=STARTUP_TIMEOUT)\n\
\x20   stop_event = asyncio.Event()\n\
\n\
\x20   async def handle(reader, writer):\n\
\x20       try:\n\
\x20           line = await reader.readline()\n\
\x20           if not line:\n\
\x20               return\n\
\x20           req = json.loads(line)\n\
\x20           if req.get('token') != TOKEN:\n\
\x20               await respond(writer, {'status': 'error', 'message': 'unauthorized'})\n\
\x20               return\n\
\x20           cmd = req.get('cmd')\n\
\x20           if cmd == 'ping':\n\
\x20               await respond(writer, {'status': 'ok'})\n\
\x20           elif cmd == 'shutdown':\n\
\x20               await respond(writer, {'status': 'ok'})\n\
\x20               await client.km.shutdown_kernel()\n\
\x20               stop_event.set()\n\
\x20           elif cmd == 'execute':\n\
\x20               client.allow_errors = bool(req.get('allow_errors', False))\n\
\x20               client.record_timing = bool(req.get('record_timing', True))\n\
\x20               client.timeout = req.get('timeout', -1)\n\
\x20               client.iopub_timeout = req.get('iopub_timeout', 4)\n\
\x20               results = []\n\
\x20               status = 'ok'\n\
\x20               failed_id = None\n\
\x20               message = None\n\
\x20               for cell_req in req.get('cells', []):\n\
\x20                   cell = nbformat.v4.new_code_cell(cell_req['source'], metadata=cell_req.get('metadata', {}))\n\
\x20                   nb.cells.append(cell)\n\
\x20                   index = len(nb.cells) - 1\n\
\x20                   try:\n\
\x20                       await client.async_execute_cell(cell, index, execution_count=client.code_cells_executed + 1)\n\
\x20                   except BaseException as e:\n\
\x20                       name = type(e).__name__\n\
\x20                       status = 'cell_timeout' if 'Timeout' in name else ('cell_error' if name == 'CellExecutionError' else 'kernel_error')\n\
\x20                       message = f'{name}: {e}'\n\
\x20                       failed_id = cell_req.get('id')\n\
\x20                       results.append(cell_payload(cell_req, cell))\n\
\x20                       break\n\
\x20                   results.append(cell_payload(cell_req, cell))\n\
\x20               if status == 'ok':\n\
\x20                   for entry in results:\n\
\x20                       if any(o.get('output_type') == 'error' for o in entry['outputs']):\n\
\x20                           status = 'ok_with_errors'\n\
\x20                           failed_id = entry['id']\n\
\x20                           break\n\
\x20               await respond(writer, {'status': status, 'results': results, 'failed_id': failed_id, 'message': message})\n\
\x20           else:\n\
\x20               await respond(writer, {'status': 'error', 'message': f\"unknown command '{cmd}'\"})\n\
\x20       except BaseException as e:\n\
\x20           try:\n\
\x20               await respond(writer, {'status': 'error', 'message': f'{type(e).__name__}: {e}'})\n\
\x20           except Exception:\n\
\x20               pass\n\
\x20       finally:\n\
\x20           try:\n\
\x20               writer.close()\n\
\x20           except Exception:\n\
\x20               pass\n\
\n\
\x20   try:\n\
\x20       async with client.async_setup_kernel(cleanup_kc=False):\n\
\x20           server = await asyncio.start_server(handle, host='127.0.0.1', port=0)\n\
\x20           port = server.sockets[0].getsockname()[1]\n\
\x20           announce({'status': 'ready', 'port': port, 'pid': os.getpid()})\n\
\x20           async with server:\n\
\x20               await stop_event.wait()\n\
\x20   except BaseException as e:\n\
\x20       announce({'status': 'error', 'message': f'{type(e).__name__}: {e}'})\n\
\n\
asyncio.run(main())\n\
";

/// The session daemon program: starts one kernel, keeps it alive under a
/// single nbclient client and serves `ping`, `execute` and `shutdown`
/// requests carrying `token` on a loopback port until shut down.
pub open spec fn daemon_script(kernel_name: Seq<char>, token: Seq<char>, startup_timeout: u64) -> Seq<
    char,
> {
    DAEMON_SCRIPT_HEAD@
        + json_quote(kernel_name)
        + DAEMON_SCRIPT_BEFORE_TOKEN@
        + json_quote(token)
        + DAEMON_SCRIPT_BEFORE_STARTUP@
        + decimal(startup_timeout as nat)
        + DAEMON_SCRIPT_TAIL@
}

/// The text of the session daemon program (see [`daemon_script`]).
pub fn build_daemon_script(kernel_name: &str, token: &str, startup_timeout: u64) -> (r: String)
    ensures
        r@ == daemon_script(kernel_name@, token@, startup_timeout),
{
    let kernel_q = json_string_literal(kernel_name);
    let token_q = json_string_literal(token);
    let mut out = chars_of(DAEMON_SCRIPT_HEAD);
    append_chars(&mut out, kernel_q.as_slice());
    append_str(&mut out, DAEMON_SCRIPT_BEFORE_TOKEN);
    append_chars(&mut out, token_q.as_slice());
    append_str(&mut out, DAEMON_SCRIPT_BEFORE_STARTUP);
    push_decimal_u64(&mut out, startup_timeout);
    append_str(&mut out, DAEMON_SCRIPT_TAIL);
    string_of(out.as_slice())
}

} // verus!
