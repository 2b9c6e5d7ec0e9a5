//! The pieces of the MCP server that decide or compute: resource URIs,
//! how a run is reported, which outputs a reply carries and how long they
//! may be, and how a path is shown. The JSON-RPC loop and the file system
//! live outside the library.
use crate::error::AppExit;
use crate::json::{Json, JsonV};
use crate::text::{append_str, chars_of, str_equal, string_of};
use vstd::prelude::*;
use vstd::utf8::{decode_utf8, encode_utf8, valid_utf8};

verus! {

// ---------------------------------------------------------------------------
// Percent-encoding of resource URIs
// ---------------------------------------------------------------------------
/// Bytes written as themselves: ASCII letters, digits and `-_./`.
pub open spec fn unreserved(b: u8) -> bool {
    (65 <= b && b <= 90) || (97 <= b && b <= 122) || (48 <= b && b <= 57) || b == 45 || b == 95
        || b == 46 || b == 47
}

/// An uppercase hexadecimal digit.
pub open spec fn hex_upper(d: nat) -> char {
    if d < 10 {
        crate::text::digit_char(d)
    } else if d == 10 {
        'A'
    } else if d == 11 {
        'B'
    } else if d == 12 {
        'C'
    } else if d == 13 {
        'D'
    } else if d == 14 {
        'E'
    } else {
        'F'
    }
}

/// One byte of a path in a URI: itself, or `%XX`.
pub open spec fn encode_byte(b: u8) -> Seq<char> {
    if unreserved(b) {
        seq![b as char]
    } else {
        seq!['%', hex_upper(b as nat / 16), hex_upper(b as nat % 16)]
    }
}

/// The percent-encoding of a byte sequence.
pub open spec fn percent_encoded(bs: Seq<u8>) -> Seq<char>
    decreases bs.len(),
{
    if bs.len() == 0 {
        Seq::empty()
    } else {
        encode_byte(bs[0]) + percent_encoded(bs.drop_first())
    }
}

fn hex_upper_char(d: u8) -> (c: char)
    requires
        d < 16,
    ensures
        c == hex_upper(d as nat),
{
    if d < 10 {
        if d == 0 {
            '0'
        } else if d == 1 {
            '1'
        } else if d == 2 {
            '2'
        } else if d == 3 {
            '3'
        } else if d == 4 {
            '4'
        } else if d == 5 {
            '5'
        } else if d == 6 {
            '6'
        } else if d == 7 {
            '7'
        } else if d == 8 {
            '8'
        } else {
            '9'
        }
    } else if d == 10 {
        'A'
    } else if d == 11 {
        'B'
    } else if d == 12 {
        'C'
    } else if d == 13 {
        'D'
    } else if d == 14 {
        'E'
    } else {
        'F'
    }
}

proof fn lemma_percent_encoded_take(bs: Seq<u8>, i: int)
    requires
        0 <= i < bs.len(),
    ensures
        percent_encoded(bs.take(i + 1)) == percent_encoded(bs.take(i)) + encode_byte(bs[i]),
    decreases i,
{
    if i == 0 {
        let t = bs.take(1);
        assert(t.drop_first() =~= Seq::<u8>::empty());
        assert(bs.take(0) =~= Seq::<u8>::empty());
        assert(t[0] == bs[0]);
        assert(percent_encoded(t.drop_first()) == Seq::<char>::empty());
        assert(percent_encoded(t) == encode_byte(t[0]) + percent_encoded(t.drop_first()));
        assert(percent_encoded(t) =~= encode_byte(bs[0]));
    } else {
        let t = bs.drop_first();
        lemma_percent_encoded_take(t, i - 1);
        assert(bs.take(i + 1).drop_first() =~= t.take(i));
        assert(bs.take(i).drop_first() =~= t.take(i - 1));
        assert(t[i - 1] == bs[i]);
    }
}

/// The path of a resource URI, percent-encoded byte by byte (UTF-8).
pub fn percent_encode(value: &str) -> (r: String)
    ensures
        r@ == percent_encoded(encode_utf8(value@)),
{
    let bytes = value.as_bytes();
    let mut out: Vec<char> = Vec::new();
    let mut i: usize = 0;
    while i < bytes.len()
        invariant
            i <= bytes@.len(),
            bytes@ == encode_utf8(value@),
            out@ == percent_encoded(bytes@.take(i as int)),
        decreases bytes.len() - i,
    {
        let b = bytes[i];
        proof {
            lemma_percent_encoded_take(bytes@, i as int);
        }
        if (65 <= b && b <= 90) || (97 <= b && b <= 122) || (48 <= b && b <= 57) || b == 45 || b
            == 95 || b == 46 || b == 47 {
            out.push(b as char);
        } else {
            out.push('%');
            out.push(hex_upper_char(b / 16));
            out.push(hex_upper_char(b % 16));
        }
        i = i + 1;
    }
    assert(bytes@.take(bytes@.len() as int) =~= bytes@);
    string_of(out.as_slice())
}

/// Why a resource URI was refused.
#[derive(Debug)]
pub enum UriError {
    MissingScheme,
    Truncated,
    /// The two characters after a `%` are not UTF-8 text (with the text of
    /// the decoding error).
    PairNotUtf8(String),
    BadHex,
    /// The decoded path is not UTF-8 (with the text of the decoding error).
    NotUtf8(String),
}

pub enum UriFault {
    MissingScheme,
    Truncated,
    PairNotUtf8,
    BadHex,
    NotUtf8,
}

impl View for UriError {
    type V = UriFault;

    open spec fn view(&self) -> UriFault {
        match self {
            UriError::MissingScheme => UriFault::MissingScheme,
            UriError::Truncated => UriFault::Truncated,
            UriError::PairNotUtf8(_) => UriFault::PairNotUtf8,
            UriError::BadHex => UriFault::BadHex,
            UriError::NotUtf8(_) => UriFault::NotUtf8,
        }
    }
}

impl UriError {
    pub fn message(&self) -> (r: String)
        ensures
            match self {
                UriError::MissingScheme => r@ == "Resource URI must start with notebook:///"@,
                UriError::Truncated => r@ == "Invalid percent-encoded resource URI"@,
                UriError::PairNotUtf8(t) => r@ == t@,
                UriError::BadHex => r@
                    == "Invalid percent-encoded resource URI: invalid digit found in string"@,
                UriError::NotUtf8(t) => r@ == "Resource URI is not valid UTF-8: "@ + t@,
            },
    {
        match self {
            UriError::MissingScheme => "Resource URI must start with notebook:///".to_owned(),
            UriError::Truncated => "Invalid percent-encoded resource URI".to_owned(),
            UriError::PairNotUtf8(t) => t.clone(),
            UriError::BadHex => "Invalid percent-encoded resource URI: invalid digit found in string".to_owned(),
            UriError::NotUtf8(t) => {
                let mut out = chars_of("Resource URI is not valid UTF-8: ");
                append_str(&mut out, t.as_str());
                string_of(out.as_slice())
            },
        }
    }
}

/// The value of a hexadecimal digit byte.
pub open spec fn hex_value(b: u8) -> Option<nat> {
    if 48 <= b && b <= 57 {
        Some((b - 48) as nat)
    } else if 97 <= b && b <= 102 {
        Some((b - 87) as nat)
    } else if 65 <= b && b <= 70 {
        Some((b - 55) as nat)
    } else {
        None
    }
}

/// `u8::from_str_radix(_, 16)` on two ASCII bytes: an optional `+`, then
/// hexadecimal digits.
pub open spec fn pair_value(b1: u8, b2: u8) -> Option<u8> {
    if b1 == 43 {
        match hex_value(b2) {
            Some(v) => Some(v as u8),
            None => None,
        }
    } else {
        match (hex_value(b1), hex_value(b2)) {
            (Some(x), Some(y)) => Some((x * 16 + y) as u8),
            _ => None,
        }
    }
}

/// Decodes `%XX` escapes, front to back.
pub open spec fn percent_decoded(bs: Seq<u8>) -> Result<Seq<u8>, UriFault>
    decreases bs.len(),
{
    if bs.len() == 0 {
        Ok(Seq::empty())
    } else if bs[0] == 37 {
        if bs.len() < 3 {
            Err(UriFault::Truncated)
        } else if !valid_utf8(bs.subrange(1, 3)) {
            Err(UriFault::PairNotUtf8)
        } else {
            match pair_value(bs[1], bs[2]) {
                None => Err(UriFault::BadHex),
                Some(v) => match percent_decoded(bs.skip(3)) {
                    Ok(t) => Ok(seq![v] + t),
                    Err(f) => Err(f),
                },
            }
        }
    } else {
        match percent_decoded(bs.skip(1)) {
            Ok(t) => Ok(seq![bs[0]] + t),
            Err(f) => Err(f),
        }
    }
}

pub open spec fn prepend(out: Seq<u8>, r: Result<Seq<u8>, UriFault>) -> Result<Seq<u8>, UriFault> {
    match r {
        Ok(t) => Ok(out + t),
        Err(f) => Err(f),
    }
}

/// `str::from_utf8`: whether the bytes are UTF-8 text; on failure the text
/// of the error (its `Display`), which is not stated.
#[verifier::external_body]
fn check_utf8(bytes: &[u8]) -> (r: Result<(), String>)
    ensures
        r is Ok <==> valid_utf8(bytes@),
{
    match std::str::from_utf8(bytes) {
        Ok(_) => Ok(()),
        Err(e) => Err(e.to_string()),
    }
}

/// `String::from_utf8`: the text the bytes encode, when they are UTF-8; on
/// failure the text of the error (its `Display`), which is not stated.
#[verifier::external_body]
fn utf8_string(bytes: Vec<u8>) -> (r: Result<String, String>)
    ensures
        match r {
            Ok(s) => valid_utf8(bytes@) && s@ == decode_utf8(bytes@),
            Err(_) => !valid_utf8(bytes@),
        },
{
    String::from_utf8(bytes).map_err(|e| e.to_string())
}

fn hex_value_exec(b: u8) -> (r: Option<u8>)
    ensures
        match (r, hex_value(b)) {
            (Some(x), Some(y)) => x as nat == y && x < 16,
            (None, None) => true,
            _ => false,
        },
{
    if 48 <= b && b <= 57 {
        Some(b - 48)
    } else if 97 <= b && b <= 102 {
        Some(b - 87)
    } else if 65 <= b && b <= 70 {
        Some(b - 55)
    } else {
        None
    }
}

fn pair_value_exec(b1: u8, b2: u8) -> (r: Option<u8>)
    ensures
        r == pair_value(b1, b2),
{
    if b1 == 43 {
        match hex_value_exec(b2) {
            Some(v) => Some(v),
            None => None,
        }
    } else {
        match (hex_value_exec(b1), hex_value_exec(b2)) {
            (Some(x), Some(y)) => Some(x * 16 + y),
            _ => None,
        }
    }
}

/// The bytes that the escapes in a URI path stand for; then that text.
pub open spec fn uri_path_text(encoded: Seq<char>) -> Result<Seq<char>, UriFault> {
    match percent_decoded(encode_utf8(encoded)) {
        Ok(bs) => if valid_utf8(bs) {
            Ok(decode_utf8(bs))
        } else {
            Err(UriFault::NotUtf8)
        },
        Err(f) => Err(f),
    }
}

/// Decodes a percent-encoded URI path.
pub fn percent_decode(value: &str) -> (r: Result<String, UriError>)
    ensures
        match (r, uri_path_text(value@)) {
            (Ok(s), Ok(t)) => s@ == t,
            (Err(e), Err(f)) => e@ == f,
            _ => false,
        },
{
    let bytes = value.as_bytes();
    let n = bytes.len();
    let mut out: Vec<u8> = Vec::new();
    let mut i: usize = 0;
    assert(bytes@.skip(0) =~= bytes@);
    while i < n
        invariant
            n == bytes@.len(),
            bytes@ == encode_utf8(value@),
            i <= n,
            percent_decoded(bytes@) == prepend(out@, percent_decoded(bytes@.skip(i as int))),
        decreases n - i,
    {
        let ghost rest = bytes@.skip(i as int);
        if bytes[i] == 37 {
            if n - i <= 2 {
                return Err(UriError::Truncated);
            }
            let pair = [bytes[i + 1], bytes[i + 2]];
            assert(pair@ =~= rest.subrange(1, 3));
            match check_utf8(pair.as_slice()) {
                Err(t) => {
                    return Err(UriError::PairNotUtf8(t));
                },
                Ok(()) => {},
            }
            match pair_value_exec(bytes[i + 1], bytes[i + 2]) {
                None => {
                    return Err(UriError::BadHex);
                },
                Some(v) => {
                    let ghost before = out@;
                    out.push(v);
                    assert(rest.skip(3) =~= bytes@.skip(i + 3));
                    proof {
                        match percent_decoded(rest.skip(3)) {
                            Ok(t) => {
                                assert(before + (seq![v] + t) =~= out@ + t);
                            },
                            Err(_) => {},
                        }
                    }
                    i = i + 3;
                },
            }
        } else {
            let ghost before = out@;
            out.push(bytes[i]);
            assert(rest.skip(1) =~= bytes@.skip(i + 1));
            proof {
                match percent_decoded(rest.skip(1)) {
                    Ok(t) => {
                        assert(before + (seq![rest[0]] + t) =~= out@ + t);
                    },
                    Err(_) => {},
                }
            }
            i = i + 1;
        }
    }
    assert(bytes@.skip(n as int) =~= Seq::<u8>::empty());
    assert(out@ + Seq::<u8>::empty() =~= out@);
    match utf8_string(out) {
        Ok(s) => Ok(s),
        Err(t) => Err(UriError::NotUtf8(t)),
    }
}

/// The scheme and empty authority of a notebook resource URI.
pub open spec fn uri_scheme() -> Seq<char> {
    "notebook:///"@
}

/// The resource URI of a workspace-relative notebook path.
pub open spec fn notebook_uri_of(relative: Seq<char>) -> Seq<char> {
    uri_scheme() + percent_encoded(encode_utf8(relative))
}

pub fn notebook_uri(relative: &str) -> (r: String)
    ensures
        r@ == notebook_uri_of(relative@),
{
    let mut out = chars_of("notebook:///");
    let enc = percent_encode(relative);
    append_str(&mut out, enc.as_str());
    proof {
        reveal_strlit("notebook:///");
    }
    string_of(out.as_slice())
}

/// The workspace-relative path that a resource URI names.
pub open spec fn uri_path(uri: Seq<char>) -> Result<Seq<char>, UriFault> {
    if uri.len() >= 12 && uri.take(12) == uri_scheme() {
        uri_path_text(uri.skip(12))
    } else {
        Err(UriFault::MissingScheme)
    }
}

pub fn parse_notebook_uri(uri: &str) -> (r: Result<String, UriError>)
    ensures
        match (r, uri_path(uri@)) {
            (Ok(s), Ok(t)) => s@ == t,
            (Err(e), Err(f)) => e@ == f,
            _ => false,
        },
{
    let cs = chars_of(uri);
    let scheme = chars_of("notebook:///");
    proof {
        reveal_strlit("notebook:///");
    }
    if cs.len() < 12 {
        return Err(UriError::MissingScheme);
    }
    let head = crate::text::copy_range(cs.as_slice(), 0, 12);
    if !crate::text::chars_eq(head.as_slice(), scheme.as_slice()) {
        return Err(UriError::MissingScheme);
    }
    let rest = string_of(crate::text::copy_range(cs.as_slice(), 12, cs.len()).as_slice());
    assert(rest@ =~= uri@.skip(12));
    percent_decode(rest.as_str())
}

// ---------------------------------------------------------------------------
// The round trip
// ---------------------------------------------------------------------------
proof fn lemma_encoded_ascii(bs: Seq<u8>)
    ensures
        vstd::utf8::is_ascii_chars(percent_encoded(bs)),
    decreases bs.len(),
{
    if bs.len() > 0 {
        lemma_encoded_ascii(bs.drop_first());
        let e = encode_byte(bs[0]);
        let r = percent_encoded(bs.drop_first());
        assert forall|i: int| 0 <= i < e.len() + r.len() implies '\0' <= #[trigger] (e + r)[i]
            <= '\u{7f}' by {
            if i >= e.len() {
                assert((e + r)[i] == r[i - e.len()]);
            }
        }
    }
}

proof fn lemma_decode_encoded(bs: Seq<u8>)
    ensures
        percent_decoded(encode_utf8(percent_encoded(bs))) == Ok::<Seq<u8>, UriFault>(bs),
    decreases bs.len(),
{
    let cs = percent_encoded(bs);
    lemma_encoded_ascii(bs);
    vstd::utf8::is_ascii_chars_encode_utf8(cs);
    let enc = encode_utf8(cs);
    if bs.len() == 0 {
        assert(enc.len() == 0);
        assert(bs =~= Seq::<u8>::empty());
        assert(percent_decoded(enc) == Ok::<Seq<u8>, UriFault>(Seq::empty()));
    } else {
        let rest = bs.drop_first();
        let rc = percent_encoded(rest);
        lemma_decode_encoded(rest);
        lemma_encoded_ascii(rest);
        vstd::utf8::is_ascii_chars_encode_utf8(rc);
        let e = encode_byte(bs[0]);
        assert(cs == e + rc);
        let b = bs[0];
        assert(bs =~= seq![b] + rest);
        assert(enc.len() == cs.len());
        if unreserved(b) {
            assert(cs[0] == b as char);
            assert(enc[0] == (b as char) as u8);
            assert(((b as char) as u8) == b);
            assert(enc.skip(1) =~= encode_utf8(rc)) by {
                assert forall|i: int| 0 <= i < rc.len() implies enc.skip(1)[i] == encode_utf8(
                    rc,
                )[i] by {
                    assert(cs[i + 1] == rc[i]);
                }
            }
            assert(b != 37);
            assert(percent_decoded(enc) == Ok::<Seq<u8>, UriFault>(seq![b] + rest));
        } else {
            let hi = hex_upper(b as nat / 16);
            let lo = hex_upper(b as nat % 16);
            assert(cs[0] == '%' && cs[1] == hi && cs[2] == lo);
            assert(enc[0] == ('%' as u8));
            assert(enc[0] == 37);
            assert(enc[1] == hi as u8);
            assert(enc[2] == lo as u8);
            assert(enc.skip(3) =~= encode_utf8(rc)) by {
                assert forall|i: int| 0 <= i < rc.len() implies enc.skip(3)[i] == encode_utf8(
                    rc,
                )[i] by {
                    assert(cs[i + 3] == rc[i]);
                }
            }
            let pair = enc.subrange(1, 3);
            assert(pair =~= encode_utf8(seq![hi, lo])) by {
                vstd::utf8::is_ascii_chars_encode_utf8(seq![hi, lo]);
            }
            vstd::utf8::encode_utf8_valid_utf8(seq![hi, lo]);
            lemma_hex_roundtrip(b);
            assert(enc.len() >= 3);
            assert(percent_decoded(enc) == Ok::<Seq<u8>, UriFault>(seq![b] + rest));
        }
    }
}

proof fn lemma_hex_roundtrip(b: u8)
    ensures
        pair_value(hex_upper(b as nat / 16) as u8, hex_upper(b as nat % 16) as u8) == Some(b),
{
    let h = b as nat / 16;
    let l = b as nat % 16;
    assert(h < 16 && l < 16);
    assert(hex_value(hex_upper(h) as u8) == Some(h)) by {
        lemma_hex_digit(h);
    }
    assert(hex_value(hex_upper(l) as u8) == Some(l)) by {
        lemma_hex_digit(l);
    }
    assert(hex_upper(h) as u8 != 43) by {
        lemma_hex_digit(h);
    }
    assert(h * 16 + l == b as nat);
}

proof fn lemma_hex_digit(d: nat)
    requires
        d < 16,
    ensures
        hex_value(hex_upper(d) as u8) == Some(d),
        hex_upper(d) as u8 != 43,
{
}

/// Law: the resource URI of a path names that path again.
pub proof fn lemma_uri_roundtrip(relative: Seq<char>)
    ensures
        uri_path(notebook_uri_of(relative)) == Ok::<Seq<char>, UriFault>(relative),
{
    reveal_strlit("notebook:///");
    let uri = notebook_uri_of(relative);
    let bs = encode_utf8(relative);
    assert(uri.take(12) =~= uri_scheme());
    assert(uri.skip(12) =~= percent_encoded(bs));
    lemma_decode_encoded(bs);
    vstd::utf8::encode_utf8_valid_utf8(relative);
    vstd::utf8::encode_utf8_decode_utf8(relative);
}

// ---------------------------------------------------------------------------
// Reporting a run
// ---------------------------------------------------------------------------
/// The status label of a finished run: `ok`, or by the exit code
/// `missing_dependency` (2), `overall_timeout` (124), `interrupted` (130),
/// `error` otherwise.
pub open spec fn status_label(code: Option<i32>) -> Seq<char> {
    match code {
        None => "ok"@,
        Some(c) => if c == 2 {
            "missing_dependency"@
        } else if c == 124 {
            "overall_timeout"@
        } else if c == 130 {
            "interrupted"@
        } else {
            "error"@
        },
    }
}

/// The status label of a run and, when it failed, its message.
pub fn run_status(result: &Result<(), AppExit>) -> (r: (&'static str, Option<String>))
    ensures
        match result {
            Ok(_) => r.0@ == status_label(None) && r.1 is None,
            Err(e) => r.0@ == status_label(Some(e.exit_code())) && (r.1 matches Some(m) && m@
                == e.text()),
        },
{
    match result {
        Ok(()) => ("ok", None),
        Err(e) => {
            let code = e.code();
            let label = if code == 2 {
                "missing_dependency"
            } else if code == 124 {
                "overall_timeout"
            } else if code == 130 {
                "interrupted"
            } else {
                "error"
            };
            (label, Some(e.message().clone()))
        },
    }
}

// ---------------------------------------------------------------------------
// Which outputs a reply carries
// ---------------------------------------------------------------------------
/// `include_outputs`: all, none, or only for cells whose outputs hold an
/// error.
#[derive(Debug, Clone, Copy, PartialEq, Eq, Structural)]
pub enum OutputInclusion {
    All,
    Omitted,
    OnError,
}

/// `include_outputs` accepts `true`/`false` (default `true`) or the string
/// `"on_error"`.
pub open spec fn inclusion_of(arg: Option<JsonV>) -> OutputInclusion {
    match arg {
        Some(JsonV::Bool(false)) => OutputInclusion::Omitted,
        Some(JsonV::Str(s)) => if s == "on_error"@ {
            OutputInclusion::OnError
        } else {
            OutputInclusion::All
        },
        _ => OutputInclusion::All,
    }
}

pub fn output_inclusion(args: &Json) -> (r: OutputInclusion)
    ensures
        r == inclusion_of(crate::json::member(args@, "include_outputs"@)),
{
    match args.get("include_outputs") {
        Some(Json::Bool(false)) => OutputInclusion::Omitted,
        Some(Json::Str(s)) => {
            if str_equal(s.as_str(), "on_error") {
                OutputInclusion::OnError
            } else {
                OutputInclusion::All
            }
        },
        _ => OutputInclusion::All,
    }
}

pub fn should_include_outputs(inclusion: OutputInclusion, outputs: &Vec<Json>) -> (r: bool)
    ensures
        r == match inclusion {
            OutputInclusion::All => true,
            OutputInclusion::Omitted => false,
            OutputInclusion::OnError => exists|k: int|
                0 <= k < outputs@.len() && crate::output_limit::is_error_output(
                    #[trigger] outputs@[k]@,
                ),
        },
{
    match inclusion {
        OutputInclusion::All => true,
        OutputInclusion::Omitted => false,
        OutputInclusion::OnError => crate::output_limit::has_error(outputs),
    }
}

/// The line limit for outputs: none with `full_output`, else
/// `output_lines` (default 100).
pub open spec fn line_limit_of(args: JsonV) -> Option<usize> {
    if crate::json::member(args, "full_output"@) == Some(JsonV::Bool(true)) {
        None
    } else {
        Some(
            match crate::json::member(args, "output_lines"@) {
                Some(JsonV::Number(t)) => match crate::json::json_u64(t) {
                    Some(n) => n as usize,
                    None => crate::output_limit::DEFAULT_MAX_LINES,
                },
                _ => crate::output_limit::DEFAULT_MAX_LINES,
            },
        )
    }
}

pub fn output_line_limit(args: &Json) -> (r: Option<usize>)
    ensures
        r == line_limit_of(args@),
{
    let full = match args.get("full_output") {
        Some(v) => v.as_bool() == Some(true),
        None => false,
    };
    if full {
        return None;
    }
    let n = match args.get("output_lines") {
        Some(v) => match v.as_u64() {
            Some(n) => n as usize,
            None => crate::output_limit::DEFAULT_MAX_LINES,
        },
        None => crate::output_limit::DEFAULT_MAX_LINES,
    };
    Some(n)
}

// ---------------------------------------------------------------------------
// Character limits on outputs
// ---------------------------------------------------------------------------
/// The note that ends a string cut to the character limit.
pub open spec fn cut_notice() -> Seq<char> {
    "\n... output truncated ...\n"@
}

/// Every string inside `v` cut to `limit` characters (with a note), the
/// structure unchanged.
pub open spec fn chars_limited(v: JsonV, limit: nat) -> JsonV
    decreases v,
{
    match v {
        JsonV::Str(s) => JsonV::Str(
            if s.len() > limit {
                s.take(limit as int) + cut_notice()
            } else {
                s
            },
        ),
        JsonV::Array(a) => JsonV::Array(
            Seq::new(
                a.len(),
                |i: int|
                    if 0 <= i < a.len() {
                        chars_limited(a[i], limit)
                    } else {
                        JsonV::Null
                    },
            ),
        ),
        JsonV::Object(ps) => JsonV::Object(
            Seq::new(
                ps.len(),
                |i: int|
                    if 0 <= i < ps.len() {
                        (ps[i].0, chars_limited(ps[i].1, limit))
                    } else {
                        (Seq::empty(), JsonV::Null)
                    },
            ),
        ),
        _ => v,
    }
}

/// Every string anywhere inside `v` (member values and array items at any
/// depth) has at most `limit` characters, or is its first `limit`
/// characters followed by the cut notice.
pub open spec fn strings_cut_to(v: JsonV, limit: nat) -> bool
    decreases v,
{
    match v {
        JsonV::Str(s) => s.len() <= limit || (s.len() > limit && s.skip(limit as int)
            == "\n... output truncated ...\n"@),
        JsonV::Array(a) => forall|i: int| 0 <= i < a.len() ==> strings_cut_to(#[trigger] a[i], limit),
        JsonV::Object(ps) => forall|i: int|
            0 <= i < ps.len() ==> strings_cut_to(#[trigger] ps[i].1, limit),
        _ => true,
    }
}

/// Limiting cuts a long string to its first `limit` characters and the
/// notice, leaves a short one, limits an array item by item and an object
/// member by member (keys kept), and leaves other values alone.
pub proof fn lemma_chars_limited_parts(v: JsonV, limit: nat)
    ensures
        match v {
            JsonV::Str(s) => chars_limited(v, limit) == JsonV::Str(
                if s.len() > limit {
                    s.take(limit as int) + "\n... output truncated ...\n"@
                } else {
                    s
                },
            ),
            JsonV::Array(a) => chars_limited(v, limit) == JsonV::Array(
                a.map_values(|x: JsonV| chars_limited(x, limit)),
            ),
            JsonV::Object(ps) => chars_limited(v, limit) == JsonV::Object(
                ps.map_values(|p: (Seq<char>, JsonV)| (p.0, chars_limited(p.1, limit))),
            ),
            _ => chars_limited(v, limit) == v,
        },
{
    match v {
        JsonV::Array(a) => {
            assert(chars_limited(v, limit)->Array_0 =~= a.map_values(
                |x: JsonV| chars_limited(x, limit),
            ));
        },
        JsonV::Object(ps) => {
            assert(chars_limited(v, limit)->Object_0 =~= ps.map_values(
                |p: (Seq<char>, JsonV)| (p.0, chars_limited(p.1, limit)),
            ));
        },
        _ => {},
    }
}

/// After limiting, no string anywhere in the value is longer than `limit`
/// characters plus the cut notice.
pub proof fn lemma_chars_limited_bounds_strings(v: JsonV, limit: nat)
    ensures
        strings_cut_to(chars_limited(v, limit), limit),
    decreases v,
{
    lemma_chars_limited_parts(v, limit);
    match v {
        JsonV::Str(s) => {
            if s.len() > limit {
                let c = s.take(limit as int) + "\n... output truncated ...\n"@;
                assert(c.skip(limit as int) =~= "\n... output truncated ...\n"@);
            }
        },
        JsonV::Array(a) => {
            let r = a.map_values(|x: JsonV| chars_limited(x, limit));
            assert forall|i: int| 0 <= i < r.len() implies strings_cut_to(#[trigger] r[i], limit) by {
                lemma_chars_limited_bounds_strings(a[i], limit);
            }
        },
        JsonV::Object(ps) => {
            let r = ps.map_values(|p: (Seq<char>, JsonV)| (p.0, chars_limited(p.1, limit)));
            assert forall|i: int| 0 <= i < r.len() implies strings_cut_to(#[trigger] r[i].1, limit) by {
                lemma_chars_limited_bounds_strings(ps[i].1, limit);
            }
        },
        _ => {},
    }
}

/// A copy of `value` with every string cut to `limit` characters.
#[verifier::loop_isolation(false)]
pub fn truncate_output_value(value: &Json, limit: usize) -> (r: Json)
    ensures
        r@ == chars_limited(value@, limit as nat),
    decreases value,
{
    match value {
        Json::Str(text) => {
            let cs = chars_of(text.as_str());
            if cs.len() > limit {
                let mut out = crate::text::copy_range(cs.as_slice(), 0, limit);
                append_str(&mut out, "\n... output truncated ...\n");
                assert(cs@.subrange(0, limit as int) =~= text@.take(limit as int));
                Json::Str(string_of(out.as_slice()))
            } else {
                Json::Str(text.clone())
            }
        },
        Json::Array(v) => {
            let mut out: Vec<Json> = Vec::new();
            let mut i: usize = 0;
            while i < v.len()
                invariant
                    i <= v@.len(),
                    out@.len() == i,
                    forall|k: int|
                        0 <= k < i ==> (#[trigger] out@[k])@ == chars_limited(v@[k]@, limit as nat),
                decreases v.len() - i,
            {
                let x = truncate_output_value(&v[i], limit);
                out.push(x);
                i = i + 1;
            }
            proof {
                crate::json::lemma_view_array(out);
                crate::json::lemma_view_array(*v);
                assert(out@.map_values(|x: Json| x@) =~= chars_limited(value@, limit as nat)->Array_0);
            }
            Json::Array(out)
        },
        Json::Object(v) => {
            let mut out: Vec<(String, Json)> = Vec::new();
            let mut i: usize = 0;
            while i < v.len()
                invariant
                    i <= v@.len(),
                    out@.len() == i,
                    forall|k: int|
                        0 <= k < i ==> (#[trigger] out@[k]).1@ == chars_limited(v@[k].1@, limit as nat)
                            && out@[k].0@ == v@[k].0@,
                decreases v.len() - i,
            {
                let x = truncate_output_value(&v[i].1, limit);
                let k = v[i].0.clone();
                out.push((k, x));
                i = i + 1;
            }
            proof {
                crate::json::lemma_view_object(out);
                crate::json::lemma_view_object(*v);
                assert(crate::json::pairs_view(out@) =~= chars_limited(value@, limit as nat)->Object_0);
            }
            Json::Object(out)
        },
        Json::Null => Json::Null,
        Json::Bool(b) => Json::Bool(*b),
        Json::Number(n) => Json::Number(n.clone()),
    }
}

/// The outputs as a JSON array, each string cut to `max_chars` characters
/// when a limit is given.
pub fn truncate_outputs(outputs: &Vec<Json>, max_chars: Option<usize>) -> (r: Json)
    ensures
        r@ == JsonV::Array(
            match max_chars {
                Some(limit) => outputs@.map_values(|o: Json| chars_limited(o@, limit as nat)),
                None => outputs@.map_values(|o: Json| o@),
            },
        ),
{
    let mut out: Vec<Json> = Vec::new();
    let mut i: usize = 0;
    while i < outputs.len()
        invariant
            i <= outputs@.len(),
            out@.len() == i,
            forall|k: int|
                0 <= k < i ==> (#[trigger] out@[k])@ == match max_chars {
                    Some(limit) => chars_limited(outputs@[k]@, limit as nat),
                    None => outputs@[k]@,
                },
        decreases outputs.len() - i,
    {
        let x = match max_chars {
            Some(limit) => truncate_output_value(&outputs[i], limit),
            None => outputs[i].duplicate(),
        };
        out.push(x);
        i = i + 1;
    }
    proof {
        crate::json::lemma_view_array(out);
        match max_chars {
            Some(limit) => {
                assert(out@.map_values(|x: Json| x@) =~= outputs@.map_values(
                    |o: Json| chars_limited(o@, limit as nat),
                ));
            },
            None => {
                assert(out@.map_values(|x: Json| x@) =~= outputs@.map_values(|o: Json| o@));
            },
        }
    }
    Json::Array(out)
}

// ---------------------------------------------------------------------------
// Paths and the protocol version
// ---------------------------------------------------------------------------
/// What `Path::strip_prefix` leaves of `path` after `root`, as text;
/// `None` when `root` is not a prefix of it.
pub uninterp spec fn path_remainder(path: Seq<char>, root: Seq<char>) -> Option<Seq<char>>;

/// `Path::strip_prefix`, as text (lossy for a path that is not UTF-8,
/// which a `&str` never is).
#[verifier::external_body]
fn strip_path_prefix(path: &str, root: &str) -> (r: Option<String>)
    ensures
        crate::notebook::opt_string_view(r) == path_remainder(path@, root@),
{
    std::path::Path::new(path).strip_prefix(std::path::Path::new(root)).ok().map(
        |p| p.to_string_lossy().into_owned(),
    )
}

/// `s` with every `\` written as `/`.
pub open spec fn forward_slashes(s: Seq<char>) -> Seq<char> {
    s.map_values(|c: char| if c == '\\' { '/' } else { c })
}

/// How a path is shown to clients: relative to the workspace root when it
/// lies inside it, with `/` separators.
pub fn relative_display(root: &str, path: &str) -> (r: String)
    ensures
        r@ == forward_slashes(
            match path_remainder(path@, root@) {
                Some(rest) => rest,
                None => path@,
            },
        ),
{
    let shown = match strip_path_prefix(path, root) {
        Some(rest) => rest,
        None => path.to_owned(),
    };
    let cs = chars_of(shown.as_str());
    let mut out: Vec<char> = Vec::new();
    let mut i: usize = 0;
    while i < cs.len()
        invariant
            i <= cs@.len(),
            out@ == forward_slashes(cs@.take(i as int)),
        decreases cs.len() - i,
    {
        let c = cs[i];
        out.push(if c == '\\' { '/' } else { c });
        i = i + 1;
        assert(out@ =~= forward_slashes(cs@.take(i as int)));
    }
    assert(cs@.take(cs@.len() as int) =~= cs@);
    string_of(out.as_slice())
}

/// The protocol version this server speaks.
pub open spec fn latest_protocol() -> Seq<char> {
    "2025-11-25"@
}

/// The versions a client may ask for.
pub open spec fn supported_protocol(v: Seq<char>) -> bool {
    v == "2024-11-05"@ || v == "2025-03-26"@ || v == "2025-06-18"@ || v == latest_protocol()
}

/// `initialize`: the requested protocol version when supported, else the
/// latest.
pub fn protocol_version(requested: Option<&str>) -> (r: &'static str)
    ensures
        r@ == match requested {
            Some(v) => if supported_protocol(v@) {
                v@
            } else {
                latest_protocol()
            },
            None => latest_protocol(),
        },
{
    match requested {
        Some(v) => {
            if str_equal(v, "2024-11-05") {
                "2024-11-05"
            } else if str_equal(v, "2025-03-26") {
                "2025-03-26"
            } else if str_equal(v, "2025-06-18") {
                "2025-06-18"
            } else {
                "2025-11-25"
            }
        },
        None => "2025-11-25",
    }
}

} // verus!
