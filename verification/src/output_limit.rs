//! Truncates large cell output text so an agent reading it doesn't burn
//! through its context window on a runaway stream or a huge traceback.
//!
//! This only affects what gets displayed: the notebook keeps its outputs.
use crate::json::{
    key_index, lemma_key_index_bounds, lemma_view_array, lemma_view_object, member, member_str,
    pairs_view, with_member, Json, JsonV,
};
use crate::notebook::{copy_jsons, copy_pairs, jsons_view};
use crate::text::{
    append_chars, append_str, chars_of, decimal, flatten, flatten_chars, push_decimal,
    split_incl, split_inclusive_nl, str_equal, string_of, views,
};
use vstd::prelude::*;
use vstd::utf8::encode_utf8;

verus! {

/// Default number of lines kept per output field before truncation kicks in.
pub const DEFAULT_MAX_LINES: usize = 100;

/// Binary payloads larger than this many bytes are replaced by a size marker.
pub const BINARY_OMIT_THRESHOLD_BYTES: usize = 2048;

/// Line statistics of a text that `truncate_lines` looked at.
pub struct LineStats {
    pub total_lines: usize,
    pub total_bytes: usize,
    pub truncated: bool,
}

/// Number of bytes of the UTF-8 encoding of `s` (what `str::len` returns).
pub open spec fn utf8_len(s: Seq<char>) -> usize {
    encode_utf8(s).len() as usize
}

/// The first `max` lines (with their line endings) of `text`.
pub open spec fn kept_lines(text: Seq<char>, max: nat) -> Seq<char> {
    flatten(split_incl(text).take(max as int))
}

/// Keeps the first `max_lines` lines of `text` (lines end after each `\n`).
pub fn truncate_lines(text: &String, max_lines: usize) -> (r: (String, LineStats))
    ensures
        r.1.total_lines == split_incl(text@).len(),
        r.1.total_bytes == utf8_len(text@),
        r.1.truncated == (split_incl(text@).len() > max_lines),
        r.0@ == (if split_incl(text@).len() > max_lines {
            kept_lines(text@, max_lines as nat)
        } else {
            text@
        }),
{
    let total_bytes = text.as_str().len();
    let chars = chars_of(text.as_str());
    let pieces = split_inclusive_nl(chars.as_slice());
    let total_lines = pieces.len();
    if total_lines <= max_lines {
        return (text.clone(), LineStats { total_lines, total_bytes, truncated: false });
    }
    let mut kept: Vec<char> = Vec::new();
    let mut i: usize = 0;
    while i < max_lines
        invariant
            i <= max_lines < pieces@.len(),
            kept@ == flatten(views(pieces@).take(i as int)),
        decreases max_lines - i,
    {
        assert(views(pieces@).take(i + 1).drop_last() =~= views(pieces@).take(i as int));
        append_chars(&mut kept, pieces[i].as_slice());
        i = i + 1;
    }
    (string_of(kept.as_slice()), LineStats { total_lines, total_bytes, truncated: true })
}

/// The text items of a string array, concatenated (other items are skipped).
pub open spec fn strs_concat(items: Seq<JsonV>) -> Seq<char>
    decreases items.len(),
{
    if items.len() == 0 {
        Seq::empty()
    } else {
        match items.last() {
            JsonV::Str(s) => strs_concat(items.drop_last()) + s,
            _ => strs_concat(items.drop_last()),
        }
    }
}

/// nbformat's "string or array of strings", joined into one text.
pub open spec fn multiline_text(v: JsonV) -> Option<Seq<char>> {
    match v {
        JsonV::Str(s) => Some(s),
        JsonV::Array(items) => Some(strs_concat(items)),
        _ => None,
    }
}

/// Joins nbformat's "string or array of strings" into one string.
pub fn multiline_to_string(value: &Json) -> (r: Option<String>)
    ensures
        match (r, multiline_text(value@)) {
            (Some(x), Some(y)) => x@ == y,
            (None, None) => true,
            _ => false,
        },
{
    match value {
        Json::Str(s) => Some(s.clone()),
        Json::Array(items) => {
            proof {
                lemma_view_array(*items);
            }
            let ghost iv = jsons_view(items@);
            let mut out: Vec<char> = Vec::new();
            let mut i: usize = 0;
            while i < items.len()
                invariant
                    i <= items@.len(),
                    iv == jsons_view(items@),
                    out@ == strs_concat(iv.take(i as int)),
                decreases items.len() - i,
            {
                assert(iv.take(i + 1).drop_last() =~= iv.take(i as int));
                assert(iv.take(i + 1).last() == items@[i as int]@);
                match &items[i] {
                    Json::Str(s) => {
                        append_str(&mut out, s.as_str());
                    },
                    _ => {},
                }
                i = i + 1;
            }
            assert(iv.take(items@.len() as int) =~= iv);
            Some(string_of(out.as_slice()))
        },
        _ => None,
    }
}

/// The notice that replaces the dropped lines.
pub open spec fn truncation_notice(max: nat, total: nat, bytes: nat) -> Seq<char> {
    "\n... [truncated: showing "@ + decimal(max) + " of "@ + decimal(total) + " lines ("@
        + decimal(bytes)
        + " bytes total) \u{2014} pass --full-output/full_output or raise --output-lines/output_lines to see more]\n"@
}

/// The members after truncating the text of member `key` to `max` lines,
/// keeping its string-or-array shape.
pub open spec fn truncated_members(ps: Seq<(Seq<char>, JsonV)>, key: Seq<char>, max: nat) -> Seq<
    (Seq<char>, JsonV),
> {
    match key_index(ps, key) {
        None => ps,
        Some(k) => {
            let v = ps[k].1;
            match multiline_text(v) {
                None => ps,
                Some(t) => {
                    if split_incl(t).len() <= max {
                        ps
                    } else {
                        let combined = kept_lines(t, max) + truncation_notice(
                            max,
                            split_incl(t).len(),
                            utf8_len(t) as nat,
                        );
                        let nv = if v is Array {
                            JsonV::Array(seq![JsonV::Str(combined)])
                        } else {
                            JsonV::Str(combined)
                        };
                        with_member(ps, key, nv)
                    }
                },
            }
        },
    }
}

/// Truncates one text-bearing member of an output object in place.
pub fn truncate_field(obj: &mut Vec<(String, Json)>, key: &str, max_lines: usize)
    ensures
        pairs_view(final(obj)@) == truncated_members(pairs_view(old(obj)@), key@, max_lines as nat),
{
    let k = crate::json::find_key(obj, key);
    if k.is_none() {
        return ;
    }
    let k = k.unwrap();
    let was_array = obj[k].1.is_array();
    let text = multiline_to_string(&obj[k].1);
    if text.is_none() {
        return ;
    }
    let text = text.unwrap();
    let (kept, stats) = truncate_lines(&text, max_lines);
    if !stats.truncated {
        return ;
    }
    let mut combined = chars_of(kept.as_str());
    append_str(&mut combined, "\n... [truncated: showing ");
    push_decimal(&mut combined, max_lines);
    append_str(&mut combined, " of ");
    push_decimal(&mut combined, stats.total_lines);
    append_str(&mut combined, " lines (");
    push_decimal(&mut combined, stats.total_bytes);
    append_str(
        &mut combined,
        " bytes total) \u{2014} pass --full-output/full_output or raise --output-lines/output_lines to see more]\n",
    );
    proof {
        let t = text@;
        assert(combined@ =~= kept_lines(t, max_lines as nat) + truncation_notice(
            max_lines as nat,
            split_incl(t).len(),
            utf8_len(t) as nat,
        ));
    }
    let combined = string_of(combined.as_slice());
    let new_value = if was_array {
        let items = vec![Json::Str(combined)];
        proof {
            lemma_view_array(items);
            assert(jsons_view(items@) =~= seq![JsonV::Str(combined@)]);
        }
        Json::Array(items)
    } else {
        Json::Str(combined)
    };
    let key_string = string_of(chars_of(key).as_slice());
    crate::json::set_member(obj, key_string, new_value);
}

pub open spec fn is_text_mime(mime: Seq<char>) -> bool {
    "text/"@.is_prefix_of(mime) || mime == "application/json"@
}

/// Text mime types (`text/...`, `application/json`) are never omitted.
pub fn is_text_mime_str(mime: &str) -> (r: bool)
    ensures
        r == is_text_mime(mime@),
{
    let m = chars_of(mime);
    let prefix = chars_of("text/");
    let starts = if m.len() >= prefix.len() {
        let head = crate::text::copy_range(m.as_slice(), 0, prefix.len());
        crate::text::chars_eq(head.as_slice(), prefix.as_slice())
    } else {
        false
    };
    starts || str_equal(mime, "application/json")
}

/// The marker that stands for an omitted binary payload.
pub open spec fn omitted_marker(mime: Seq<char>, bytes: nat) -> JsonV {
    JsonV::Object(
        seq![
            ("bytes"@, JsonV::Number(decimal(bytes))),
            ("mime"@, JsonV::Str(mime)),
            ("nbedit_omitted"@, JsonV::Bool(true)),
            ("note"@, JsonV::Str("binary output omitted; pass --full-output/full_output to include it"@)),
        ],
    )
}

/// One member of a display-data bundle after binary omission.
pub open spec fn omitted_member(p: (Seq<char>, JsonV)) -> (Seq<char>, JsonV) {
    if !is_text_mime(p.0) && p.1 is Str && utf8_len(p.1->Str_0) > BINARY_OMIT_THRESHOLD_BYTES {
        (p.0, omitted_marker(p.0, utf8_len(p.1->Str_0) as nat))
    } else {
        p
    }
}

fn make_marker(mime: &String, bytes: usize) -> (r: Json)
    ensures
        r@ == omitted_marker(mime@, bytes as nat),
{
    let mut members: Vec<(String, Json)> = Vec::new();
    let number = string_of(crate::text::decimal_chars(bytes).as_slice());
    members.push((string_of(chars_of("bytes").as_slice()), Json::Number(number)));
    members.push((string_of(chars_of("mime").as_slice()), Json::Str(mime.clone())));
    members.push((string_of(chars_of("nbedit_omitted").as_slice()), Json::Bool(true)));
    members.push(
        (
            string_of(chars_of("note").as_slice()),
            Json::Str(
                string_of(
                    chars_of(
                        "binary output omitted; pass --full-output/full_output to include it",
                    ).as_slice(),
                ),
            ),
        ),
    );
    proof {
        lemma_view_object(members);
        assert(pairs_view(members@) =~= omitted_marker(mime@, bytes as nat)->Object_0);
    }
    Json::Object(members)
}

/// Replaces each large binary payload of a display-data bundle by a marker.
pub fn omit_binary_fields(data: &mut Vec<(String, Json)>)
    ensures
        pairs_view(final(data)@) == pairs_view(old(data)@).map_values(
            |p: (Seq<char>, JsonV)| omitted_member(p),
        ),
{
    let ghost before = pairs_view(data@);
    let mut i: usize = 0;
    while i < data.len()
        invariant
            i <= data@.len(),
            before.len() == data@.len(),
            forall|k: int|
                0 <= k < i ==> #[trigger] pairs_view(data@)[k] == omitted_member(before[k]),
            forall|k: int| i <= k < data@.len() ==> #[trigger] pairs_view(data@)[k] == before[k],
        decreases data.len() - i,
    {
        if !is_text_mime_str(data[i].0.as_str()) {
            match &data[i].1 {
                Json::Str(encoded) => {
                    let bytes = encoded.as_str().len();
                    proof {
                        assert(before[i as int] == pairs_view(data@)[i as int]);
                        assert(before[i as int].1 == JsonV::Str(encoded@));
                    }
                    if bytes > BINARY_OMIT_THRESHOLD_BYTES {
                        let marker = make_marker(&data[i].0, bytes);
                        let key = data[i].0.clone();
                        let ghost old_data = pairs_view(data@);
                        proof {
                            assert(omitted_member(before[i as int]) == (key@, marker@));
                        }
                        data.set(i, (key, marker));
                        assert(pairs_view(data@) =~= old_data.update(
                            i as int,
                            omitted_member(before[i as int]),
                        ));
                    }
                },
                _ => {},
            }
        }
        i = i + 1;
    }
    assert(pairs_view(data@) =~= before.map_values(|p: (Seq<char>, JsonV)| omitted_member(p)));
}

/// A single output after [`limit_output`].
pub open spec fn limited_output(o: JsonV, max: nat) -> JsonV {
    match o {
        JsonV::Object(ps) => {
            let ot = match member_str(o, "output_type"@) {
                Some(t) => t,
                None => Seq::empty(),
            };
            if ot == "stream"@ {
                JsonV::Object(truncated_members(ps, "text"@, max))
            } else if ot == "display_data"@ || ot == "execute_result"@ {
                match key_index(ps, "data"@) {
                    Some(k) => match ps[k].1 {
                        JsonV::Object(d) => JsonV::Object(
                            ps.update(
                                k,
                                (
                                    ps[k].0,
                                    JsonV::Object(
                                        truncated_members(
                                            truncated_members(d, "text/plain"@, max),
                                            "text/html"@,
                                            max,
                                        ).map_values(|p: (Seq<char>, JsonV)| omitted_member(p)),
                                    ),
                                ),
                            ),
                        ),
                        _ => o,
                    },
                    None => o,
                }
            } else if ot == "error"@ {
                JsonV::Object(truncated_members(ps, "traceback"@, max))
            } else {
                o
            }
        },
        _ => o,
    }
}

/// Truncates the large text fields of one output (stream text, display
/// data, error tracebacks) to `max_lines` lines each, and replaces large
/// binary payloads with a size marker; other outputs are returned as they are.
pub fn limit_output(output: &Json, max_lines: usize) -> (r: Json)
    ensures
        r@ == limited_output(output@, max_lines as nat),
{
    match output {
        Json::Object(members) => {
            proof {
                lemma_view_object(*members);
            }
            let mut ps = copy_pairs(members);
            let ot = match output.get_str("output_type") {
                Some(t) => chars_of(t.as_str()),
                None => Vec::new(),
            };
            let is_stream = crate::text::chars_eq(ot.as_slice(), chars_of("stream").as_slice());
            let is_display = crate::text::chars_eq(
                ot.as_slice(),
                chars_of("display_data").as_slice(),
            ) || crate::text::chars_eq(ot.as_slice(), chars_of("execute_result").as_slice());
            let is_error = crate::text::chars_eq(ot.as_slice(), chars_of("error").as_slice());
            if is_stream {
                truncate_field(&mut ps, "text", max_lines);
            } else if is_display {
                match crate::json::find_key(&ps, "data") {
                    Some(k) => {
                        proof {
                            lemma_key_index_bounds(pairs_view(ps@), "data"@);
                        }
                        match &ps[k].1 {
                            Json::Object(d) => {
                                proof {
                                    lemma_view_object(*d);
                                }
                                let mut data = copy_pairs(d);
                                truncate_field(&mut data, "text/plain", max_lines);
                                truncate_field(&mut data, "text/html", max_lines);
                                omit_binary_fields(&mut data);
                                let key = ps[k].0.clone();
                                let ghost old_ps = pairs_view(ps@);
                                proof {
                                    lemma_view_object(data);
                                }
                                ps.set(k, (key, Json::Object(data)));
                                assert(pairs_view(ps@) =~= old_ps.update(
                                    k as int,
                                    (old_ps[k as int].0, Json::Object(data)@),
                                ));
                            },
                            _ => {},
                        }
                    },
                    None => {},
                }
            } else if is_error {
                truncate_field(&mut ps, "traceback", max_lines);
            }
            proof {
                lemma_view_object(ps);
            }
            Json::Object(ps)
        },
        _ => output.duplicate(),
    }
}

/// Truncates every output; `None` disables truncation and returns the
/// outputs unchanged.
pub fn limit_outputs(outputs: &Vec<Json>, max_lines: Option<usize>) -> (r: Vec<Json>)
    ensures
        jsons_view(r@) == (match max_lines {
            None => jsons_view(outputs@),
            Some(m) => jsons_view(outputs@).map_values(|o: JsonV| limited_output(o, m as nat)),
        }),
{
    match max_lines {
        None => copy_jsons(outputs),
        Some(m) => {
            let mut out: Vec<Json> = Vec::new();
            let mut i: usize = 0;
            while i < outputs.len()
                invariant
                    i <= outputs@.len(),
                    out@.len() == i,
                    forall|k: int|
                        0 <= k < i ==> (#[trigger] out@[k])@ == limited_output(
                            outputs@[k]@,
                            m as nat,
                        ),
                decreases outputs.len() - i,
            {
                out.push(limit_output(&outputs[i], m));
                i = i + 1;
            }
            assert(jsons_view(out@) =~= jsons_view(outputs@).map_values(
                |o: JsonV| limited_output(o, m as nat),
            ));
            out
        },
    }
}

/// Whether an output is an error (an unhandled exception).
pub open spec fn is_error_output(o: JsonV) -> bool {
    member_str(o, "output_type"@) == Some("error"@)
}

/// Whether any output is an error.
pub fn has_error(outputs: &Vec<Json>) -> (r: bool)
    ensures
        r == exists|k: int| 0 <= k < outputs@.len() && is_error_output(#[trigger] outputs@[k]@),
{
    let mut i: usize = 0;
    while i < outputs.len()
        invariant
            i <= outputs@.len(),
            forall|k: int| 0 <= k < i ==> !is_error_output(#[trigger] outputs@[k]@),
        decreases outputs.len() - i,
    {
        let found = match outputs[i].get_str("output_type") {
            Some(t) => str_equal(t.as_str(), "error"),
            None => false,
        };
        if found {
            return true;
        }
        i = i + 1;
    }
    false
}

// ---------------------------------------------------------------------------
// What limiting promises of each text field
// ---------------------------------------------------------------------------
/// The text of member `key` of `o` (string or array of strings), if any.
pub open spec fn member_text(o: JsonV, key: Seq<char>) -> Option<Seq<char>> {
    match member(o, key) {
        Some(v) => multiline_text(v),
        None => None,
    }
}

/// A text as it is shown under a limit of `max` lines: unchanged when it has
/// at most `max` lines, else its first `max` lines and then the notice that
/// says how many lines and bytes there were.
pub open spec fn cut_to_lines(t: Seq<char>, max: nat) -> Seq<char> {
    if split_incl(t).len() <= max {
        t
    } else {
        flatten(split_incl(t).take(max as int)) + truncation_notice(
            max,
            split_incl(t).len(),
            utf8_len(t) as nat,
        )
    }
}

/// Two member lists with the same keys, position by position, find every
/// key at the same position.
proof fn lemma_same_keys_same_index(a: Seq<(Seq<char>, JsonV)>, b: Seq<(Seq<char>, JsonV)>, key: Seq<char>)
    requires
        a.len() == b.len(),
        forall|i: int| 0 <= i < a.len() ==> #[trigger] a[i].0 == b[i].0,
    ensures
        key_index(a, key) == key_index(b, key),
    decreases a.len(),
{
    if a.len() > 0 && a[0].0 != key {
        let ta = a.drop_first();
        let tb = b.drop_first();
        assert forall|i: int| 0 <= i < ta.len() implies #[trigger] ta[i].0 == tb[i].0 by {
            assert(ta[i] == a[i + 1]);
            assert(tb[i] == b[i + 1]);
        }
        lemma_same_keys_same_index(ta, tb, key);
    }
}

proof fn lemma_single_item_text(c: Seq<char>)
    ensures
        strs_concat(seq![JsonV::Str(c)]) == c,
{
    let s = seq![JsonV::Str(c)];
    assert(s.drop_last() =~= Seq::<JsonV>::empty());
    assert(strs_concat(Seq::<JsonV>::empty()) == Seq::<char>::empty());
    assert(Seq::<char>::empty() + c =~= c);
}

/// Truncating member `key` keeps every key in place, leaves every other
/// member's value alone, and gives `key` the text `cut_to_lines` of its own.
proof fn lemma_truncated_members(ps: Seq<(Seq<char>, JsonV)>, key: Seq<char>, max: nat)
    ensures
        truncated_members(ps, key, max).len() == ps.len(),
        forall|i: int|
            0 <= i < ps.len() ==> #[trigger] truncated_members(ps, key, max)[i].0 == ps[i].0,
        forall|i: int|
            0 <= i < ps.len() && ps[i].0 != key ==> #[trigger] truncated_members(ps, key, max)[i]
                == ps[i],
        forall|k2: Seq<char>|
            #[trigger] key_index(truncated_members(ps, key, max), k2) == key_index(ps, k2),
        match key_index(ps, key) {
            Some(k) => match multiline_text(ps[k].1) {
                Some(t) => multiline_text(truncated_members(ps, key, max)[k].1) == Some(
                    cut_to_lines(t, max),
                ),
                None => true,
            },
            None => true,
        },
{
    lemma_key_index_bounds(ps, key);
    let r = truncated_members(ps, key, max);
    if let Some(k) = key_index(ps, key) {
        if let Some(t) = multiline_text(ps[k].1) {
            if split_incl(t).len() > max {
                let combined = kept_lines(t, max) + truncation_notice(
                    max,
                    split_incl(t).len(),
                    utf8_len(t) as nat,
                );
                lemma_single_item_text(combined);
                let nv = if ps[k].1 is Array {
                    JsonV::Array(seq![JsonV::Str(combined)])
                } else {
                    JsonV::Str(combined)
                };
                assert(r == ps.update(k, (key, nv)));
                assert(r[k].1 == nv);
                assert(multiline_text(nv) == Some(combined));
                assert(combined == cut_to_lines(t, max));
            } else {
                assert(r == ps);
            }
        }
    }
    assert forall|k2: Seq<char>| #[trigger] key_index(r, k2) == key_index(ps, k2) by {
        lemma_same_keys_same_index(r, ps, k2);
    }
}

proof fn lemma_omitted_members(d: Seq<(Seq<char>, JsonV)>, k2: Seq<char>)
    ensures
        key_index(d.map_values(|p: (Seq<char>, JsonV)| omitted_member(p)), k2) == key_index(d, k2),
{
    let m = d.map_values(|p: (Seq<char>, JsonV)| omitted_member(p));
    lemma_same_keys_same_index(m, d, k2);
}

/// Text mime types keep their value through binary omission.
proof fn lemma_text_mimes()
    ensures
        is_text_mime("text/plain"@),
        is_text_mime("text/html"@),
{
    reveal_strlit("text/");
    reveal_strlit("text/plain");
    reveal_strlit("text/html");
    assert("text/"@ =~= "text/plain"@.take(5));
    assert("text/"@ =~= "text/html"@.take(5));
}

/// The output types and the limited fields are distinct words.
proof fn lemma_words_distinct()
    ensures
        "stream"@ != "display_data"@,
        "stream"@ != "execute_result"@,
        "stream"@ != "error"@,
        "error"@ != "display_data"@,
        "error"@ != "execute_result"@,
        "text/plain"@ != "text/html"@,
{
    reveal_strlit("stream");
    reveal_strlit("error");
    reveal_strlit("display_data");
    reveal_strlit("execute_result");
    reveal_strlit("text/plain");
    reveal_strlit("text/html");
    assert("stream"@.len() != "display_data"@.len());
    assert("stream"@.len() != "execute_result"@.len());
    assert("stream"@.len() != "error"@.len());
    assert("error"@.len() != "display_data"@.len());
    assert("error"@.len() != "execute_result"@.len());
    assert("text/plain"@.len() != "text/html"@.len());
}

/// The text of a stream output (`text`) or of an error output (`traceback`)
/// is shown cut to `max` lines: when it has more, its first `max` lines and
/// the truncation notice; otherwise it is unchanged.
pub proof fn lemma_stream_and_traceback_limited(o: JsonV, max: nat, key: Seq<char>, t: Seq<char>)
    requires
        o is Object,
        (member_str(o, "output_type"@) == Some("stream"@) && key == "text"@) || (member_str(
            o,
            "output_type"@,
        ) == Some("error"@) && key == "traceback"@),
        member_text(o, key) == Some(t),
    ensures
        member_text(limited_output(o, max), key) == Some(cut_to_lines(t, max)),
{
    lemma_words_distinct();
    let ps = o->Object_0;
    assert(o == JsonV::Object(ps));
    lemma_key_index_bounds(ps, key);
    lemma_truncated_members(ps, key, max);
    let ot = member_str(o, "output_type"@)->Some_0;
    assert(ot != "display_data"@ && ot != "execute_result"@);
    if ot == "stream"@ {
        assert(limited_output(o, max) == JsonV::Object(truncated_members(ps, "text"@, max)));
    } else {
        assert(ot == "error"@);
        assert(ot != "stream"@);
        assert(limited_output(o, max) == JsonV::Object(truncated_members(ps, "traceback"@, max)));
    }
}

/// The `text/plain` and the `text/html` of a display or result bundle are
/// each shown cut to `max` lines: when one has more, its first `max` lines
/// and the truncation notice; otherwise it is unchanged.
pub proof fn lemma_display_texts_limited(o: JsonV, max: nat, key: Seq<char>, t: Seq<char>)
    requires
        o is Object,
        member_str(o, "output_type"@) == Some("display_data"@) || member_str(o, "output_type"@)
            == Some("execute_result"@),
        key == "text/plain"@ || key == "text/html"@,
        member(o, "data"@) matches Some(d) && d is Object && member_text(d, key) == Some(t),
    ensures
        member(limited_output(o, max), "data"@) matches Some(d2) && member_text(d2, key) == Some(
            cut_to_lines(t, max),
        ),
{
    lemma_words_distinct();
    lemma_text_mimes();
    let ps = o->Object_0;
    assert(o == JsonV::Object(ps));
    let ot = member_str(o, "output_type"@)->Some_0;
    assert(ot != "stream"@);
    lemma_key_index_bounds(ps, "data"@);
    let k = key_index(ps, "data"@)->Some_0;
    let d = ps[k].1->Object_0;
    let d1 = truncated_members(d, "text/plain"@, max);
    let d2 = truncated_members(d1, "text/html"@, max);
    let d3 = d2.map_values(|p: (Seq<char>, JsonV)| omitted_member(p));
    lemma_truncated_members(d, "text/plain"@, max);
    lemma_truncated_members(d1, "text/html"@, max);
    lemma_omitted_members(d2, key);
    let nps = ps.update(k, (ps[k].0, JsonV::Object(d3)));
    assert(limited_output(o, max) == JsonV::Object(nps));
    assert forall|i: int| 0 <= i < nps.len() implies #[trigger] nps[i].0 == ps[i].0 by {}
    lemma_same_keys_same_index(nps, ps, "data"@);
    assert(member(limited_output(o, max), "data"@) == Some(JsonV::Object(d3)));
    lemma_key_index_bounds(d, key);
    let j = key_index(d, key)->Some_0;
    assert(key_index(d3, key) == Some(j));
    assert(d3[j] == omitted_member(d2[j]));
    assert(d2[j].0 == key);
    if key == "text/plain"@ {
        assert(d2[j] == d1[j]);
    } else {
        assert(d1[j] == d[j]);
    }
}

/// A display or result payload other than `text/plain` and `text/html` is
/// kept as it is unless it is a non-text payload (not `text/...` or
/// `application/json`) given as a string of more than 2048 bytes; such a
/// payload is replaced by a marker that says it was omitted, its size in
/// bytes and its mime type.
pub proof fn lemma_binary_payloads_omitted(o: JsonV, max: nat, mk: Seq<char>, v: JsonV)
    requires
        o is Object,
        member_str(o, "output_type"@) == Some("display_data"@) || member_str(o, "output_type"@)
            == Some("execute_result"@),
        member(o, "data"@) matches Some(d) && d is Object && member(d, mk) == Some(v),
        mk != "text/plain"@,
        mk != "text/html"@,
    ensures
        member(limited_output(o, max), "data"@) matches Some(d2) && ({
            if !is_text_mime(mk) && v is Str && utf8_len(v->Str_0) > 2048 {
                member(d2, mk) matches Some(m) && member(m, "nbedit_omitted"@) == Some(
                    JsonV::Bool(true),
                ) && member(m, "bytes"@) == Some(
                    JsonV::Number(decimal(utf8_len(v->Str_0) as nat)),
                ) && member_str(m, "mime"@) == Some(mk)
            } else {
                member(d2, mk) == Some(v)
            }
        }),
{
    lemma_words_distinct();
    let ps = o->Object_0;
    assert(o == JsonV::Object(ps));
    let ot = member_str(o, "output_type"@)->Some_0;
    assert(ot != "stream"@);
    lemma_key_index_bounds(ps, "data"@);
    let k = key_index(ps, "data"@)->Some_0;
    let d = ps[k].1->Object_0;
    let d1 = truncated_members(d, "text/plain"@, max);
    let d2 = truncated_members(d1, "text/html"@, max);
    let d3 = d2.map_values(|p: (Seq<char>, JsonV)| omitted_member(p));
    lemma_truncated_members(d, "text/plain"@, max);
    lemma_truncated_members(d1, "text/html"@, max);
    lemma_omitted_members(d2, mk);
    let nps = ps.update(k, (ps[k].0, JsonV::Object(d3)));
    assert(limited_output(o, max) == JsonV::Object(nps));
    assert forall|i: int| 0 <= i < nps.len() implies #[trigger] nps[i].0 == ps[i].0 by {}
    lemma_same_keys_same_index(nps, ps, "data"@);
    assert(member(limited_output(o, max), "data"@) == Some(JsonV::Object(d3)));
    lemma_key_index_bounds(d, mk);
    let j = key_index(d, mk)->Some_0;
    assert(key_index(d3, mk) == Some(j));
    assert(d1[j] == d[j]);
    assert(d2[j] == d1[j]);
    assert(d3[j] == omitted_member(d[j]));
    if !is_text_mime(mk) && v is Str && utf8_len(v->Str_0) > 2048 {
        let m = omitted_marker(mk, utf8_len(v->Str_0) as nat);
        assert(d3[j].1 == m);
        let mp = m->Object_0;
        reveal_strlit("bytes");
        reveal_strlit("mime");
        reveal_strlit("nbedit_omitted");
        reveal_strlit("note");
        assert(mp[0].0 != "nbedit_omitted"@) by {
            assert(mp[0].0.len() != "nbedit_omitted"@.len());
        }
        assert(mp[1].0 != "nbedit_omitted"@) by {
            assert(mp[1].0.len() != "nbedit_omitted"@.len());
        }
        assert(mp[0].0 != "mime"@) by {
            assert(mp[0].0.len() != "mime"@.len());
        }
        crate::json::lemma_key_index(mp, "bytes"@, 0);
        crate::json::lemma_key_index(mp, "mime"@, 1);
        crate::json::lemma_key_index(mp, "nbedit_omitted"@, 2);
    }
}

} // verus!
