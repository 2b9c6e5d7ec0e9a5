//! The JSON values that a notebook carries (metadata, outputs), as plain data.
//!
//! Numbers keep the exact text they were written with, so a value read from
//! a notebook is written back unchanged.
use crate::text::str_equal;
use vstd::prelude::*;

verus! {

/// A JSON value. Object members keep their order; keys are unique in values
/// that come from a parsed document.
#[derive(Debug, PartialEq)]
pub enum Json {
    Null,
    Bool(bool),
    Number(String),
    Str(String),
    Array(Vec<Json>),
    Object(Vec<(String, Json)>),
}

/// The mathematical content of a [`Json`] value.
pub enum JsonV {
    Null,
    Bool(bool),
    Number(Seq<char>),
    Str(Seq<char>),
    Array(Seq<JsonV>),
    Object(Seq<(Seq<char>, JsonV)>),
}

pub open spec fn json_view(j: Json) -> JsonV
    decreases j,
{
    match j {
        Json::Null => JsonV::Null,
        Json::Bool(b) => JsonV::Bool(b),
        Json::Number(n) => JsonV::Number(n@),
        Json::Str(s) => JsonV::Str(s@),
        Json::Array(v) => JsonV::Array(
            Seq::new(
                v@.len(),
                |i: int|
                    if 0 <= i < v@.len() {
                        json_view(v@[i])
                    } else {
                        JsonV::Null
                    },
            ),
        ),
        Json::Object(v) => JsonV::Object(
            Seq::new(
                v@.len(),
                |i: int|
                    if 0 <= i < v@.len() {
                        (v@[i].0@, json_view(v@[i].1))
                    } else {
                        (Seq::empty(), JsonV::Null)
                    },
            ),
        ),
    }
}

impl View for Json {
    type V = JsonV;

    open spec fn view(&self) -> JsonV {
        json_view(*self)
    }
}


/// Index of the first member named `key`.
pub open spec fn key_index(ps: Seq<(Seq<char>, JsonV)>, key: Seq<char>) -> Option<int>
    decreases ps.len(),
{
    if ps.len() == 0 {
        None
    } else if ps[0].0 == key {
        Some(0)
    } else {
        match key_index(ps.drop_first(), key) {
            Some(k) => Some(k + 1),
            None => None,
        }
    }
}

/// The value of member `key` of an object; `None` for other values.
pub open spec fn member(j: JsonV, key: Seq<char>) -> Option<JsonV> {
    match j {
        JsonV::Object(ps) => match key_index(ps, key) {
            Some(k) => Some(ps[k].1),
            None => None,
        },
        _ => None,
    }
}

/// The string content, if the value is a string.
pub open spec fn str_value(j: JsonV) -> Option<Seq<char>> {
    match j {
        JsonV::Str(s) => Some(s),
        _ => None,
    }
}

/// `obj.get(key).and_then(as_str)`.
pub open spec fn member_str(j: JsonV, key: Seq<char>) -> Option<Seq<char>> {
    match member(j, key) {
        Some(v) => str_value(v),
        None => None,
    }
}

/// The members after setting `key` to `v`: the first member with that key is
/// replaced in place, or the member is appended.
pub open spec fn with_member(ps: Seq<(Seq<char>, JsonV)>, key: Seq<char>, v: JsonV) -> Seq<
    (Seq<char>, JsonV),
> {
    match key_index(ps, key) {
        Some(k) => ps.update(k, (key, v)),
        None => ps.push((key, v)),
    }
}

/// The members without the first one named `key`.
pub open spec fn without_member(ps: Seq<(Seq<char>, JsonV)>, key: Seq<char>) -> Seq<
    (Seq<char>, JsonV),
> {
    match key_index(ps, key) {
        Some(k) => ps.remove(k),
        None => ps,
    }
}

pub proof fn lemma_key_index(ps: Seq<(Seq<char>, JsonV)>, key: Seq<char>, i: int)
    requires
        0 <= i <= ps.len(),
        forall|k: int| 0 <= k < i ==> ps[k].0 != key,
    ensures
        i < ps.len() && ps[i].0 == key ==> key_index(ps, key) == Some(i),
        i == ps.len() ==> key_index(ps, key) is None,
    decreases i,
{
    if i > 0 {
        let t = ps.drop_first();
        assert forall|k: int| 0 <= k < i - 1 implies t[k].0 != key by {
            assert(t[k] == ps[k + 1]);
        }
        if i < ps.len() {
            assert(t[i - 1] == ps[i]);
        }
        lemma_key_index(t, key, i - 1);
    }
}

pub proof fn lemma_key_index_bounds(ps: Seq<(Seq<char>, JsonV)>, key: Seq<char>)
    ensures
        key_index(ps, key) matches Some(k) ==> 0 <= k < ps.len() && ps[k].0 == key && forall|
            j: int,
        |
            0 <= j < k ==> ps[j].0 != key,
    decreases ps.len(),
{
    if ps.len() > 0 && ps[0].0 != key {
        let t = ps.drop_first();
        lemma_key_index_bounds(t, key);
        if let Some(k) = key_index(t, key) {
            assert forall|j: int| 0 <= j < k + 1 implies ps[j].0 != key by {
                if j > 0 {
                    assert(ps[j] == t[j - 1]);
                }
            }
        }
    }
}

pub proof fn lemma_key_index_absent(ps: Seq<(Seq<char>, JsonV)>, key: Seq<char>)
    ensures
        key_index(ps, key) is None ==> forall|j: int| 0 <= j < ps.len() ==> ps[j].0 != key,
    decreases ps.len(),
{
    if ps.len() > 0 && ps[0].0 != key {
        let t = ps.drop_first();
        lemma_key_index_absent(t, key);
        if key_index(ps, key) is None {
            assert forall|j: int| 0 <= j < ps.len() implies ps[j].0 != key by {
                if j > 0 {
                    assert(ps[j] == t[j - 1]);
                }
            }
        }
    }
}

pub proof fn lemma_view_array(v: Vec<Json>)
    ensures
        Json::Array(v)@ == JsonV::Array(v@.map_values(|x: Json| x@)),
{
    assert(Json::Array(v)@->Array_0 =~= v@.map_values(|x: Json| x@));
}

pub proof fn lemma_view_object(v: Vec<(String, Json)>)
    ensures
        Json::Object(v)@ == JsonV::Object(
            v@.map_values(|p: (String, Json)| (p.0@, p.1@)),
        ),
{
    assert(Json::Object(v)@->Object_0 =~= v@.map_values(|p: (String, Json)| (p.0@, p.1@)));
}

/// The members of an object, as the view sees them.
pub open spec fn pairs_view(v: Seq<(String, Json)>) -> Seq<(Seq<char>, JsonV)> {
    v.map_values(|p: (String, Json)| (p.0@, p.1@))
}

/// Index of the first member named `key` in a member vector.
pub fn find_key(pairs: &Vec<(String, Json)>, key: &str) -> (r: Option<usize>)
    ensures
        match (r, key_index(pairs_view(pairs@), key@)) {
            (Some(i), Some(k)) => i == k && i < pairs@.len(),
            (None, None) => true,
            _ => false,
        },
{
    let ghost ps = pairs_view(pairs@);
    let mut i: usize = 0;
    while i < pairs.len()
        invariant
            i <= pairs@.len(),
            ps == pairs_view(pairs@),
            forall|k: int| 0 <= k < i ==> ps[k].0 != key@,
        decreases pairs.len() - i,
    {
        if str_equal(pairs[i].0.as_str(), key) {
            proof {
                lemma_key_index(ps, key@, i as int);
            }
            return Some(i);
        }
        i = i + 1;
    }
    proof {
        lemma_key_index(ps, key@, i as int);
    }
    None
}

/// A number's value when its text is plain decimal digits that fit in
/// `u64` (how a non-negative integer is written).
pub open spec fn json_u64(t: Seq<char>) -> Option<u64> {
    if t.len() > 0 && crate::text::all_digits(t) && crate::text::digits_value(t) <= u64::MAX {
        Some(crate::text::digits_value(t) as u64)
    } else {
        None
    }
}

proof fn lemma_digits_value_prefix(d: Seq<char>, i: int)
    requires
        0 <= i <= d.len(),
        crate::text::all_digits(d),
    ensures
        crate::text::digits_value(d.take(i)) <= crate::text::digits_value(d),
    decreases d.len() - i,
{
    if i < d.len() {
        lemma_digits_value_prefix(d, i + 1);
        assert(d.take(i + 1).drop_last() =~= d.take(i));
        assert(crate::text::is_digit(d[i]));
        let v = crate::text::digits_value(d.take(i));
        assert(crate::text::digits_value(d.take(i + 1)) == v * 10 + ((d[i] as nat) - 48) as nat);
        assert(v <= v * 10 + ((d[i] as nat) - 48) as nat) by (nonlinear_arith);
    } else {
        assert(d.take(i) =~= d);
    }
}

fn parse_u64_digits(s: &[char]) -> (r: Option<u64>)
    ensures
        r == json_u64(s@),
{
    if s.len() == 0 {
        return None;
    }
    let mut acc: u64 = 0;
    let mut i: usize = 0;
    while i < s.len()
        invariant
            i <= s@.len(),
            s@.len() > 0,
            forall|k: int| 0 <= k < i ==> crate::text::is_digit(#[trigger] s@[k]),
            acc as nat == crate::text::digits_value(s@.take(i as int)),
        decreases s.len() - i,
    {
        let c = s[i];
        if !('0' <= c && c <= '9') {
            assert(!crate::text::is_digit(s@[i as int]));
            return None;
        }
        let dv = (c as u32 - 48) as u64;
        assert(s@.take(i + 1).drop_last() =~= s@.take(i as int));
        assert(s@.take(i + 1).last() == c);
        let m = acc.checked_mul(10);
        if m.is_none() {
            proof {
                if crate::text::all_digits(s@) {
                    lemma_digits_value_prefix(s@, i + 1);
                }
            }
            return None;
        }
        let m = m.unwrap();
        let a = m.checked_add(dv);
        if a.is_none() {
            proof {
                if crate::text::all_digits(s@) {
                    lemma_digits_value_prefix(s@, i + 1);
                }
            }
            return None;
        }
        acc = a.unwrap();
        i = i + 1;
    }
    assert(s@.take(s@.len() as int) =~= s@);
    Some(acc)
}

impl Json {
    /// A copy with the same content.
    #[verifier::loop_isolation(false)]
    pub fn duplicate(&self) -> (r: Json)
        ensures
            r@ == self@,
        decreases self,
    {
        match self {
            Json::Null => Json::Null,
            Json::Bool(b) => Json::Bool(*b),
            Json::Number(n) => Json::Number(n.clone()),
            Json::Str(s) => Json::Str(s.clone()),
            Json::Array(v) => {
                let mut out: Vec<Json> = Vec::new();
                let mut i: usize = 0;
                while i < v.len()
                    invariant
                        i <= v@.len(),
                        out@.len() == i,
                        forall|k: int| 0 <= k < i ==> (#[trigger] out@[k])@ == v@[k]@,
                    decreases v.len() - i,
                {
                    let x = v[i].duplicate();
                    out.push(x);
                    i = i + 1;
                }
                proof {
                    lemma_view_array(out);
                    lemma_view_array(*v);
                    assert(out@.map_values(|x: Json| x@) =~= v@.map_values(|x: Json| x@));
                }
                Json::Array(out)
            },
            Json::Object(v) => {
                let mut out: Vec<(String, Json)> = Vec::new();
                let mut i: usize = 0;
                while i < v.len()
                    invariant
                        i <= v@.len(),
                        out@.len() == i,
                        forall|k: int|
                            0 <= k < i ==> (#[trigger] out@[k]).1@ == v@[k].1@ && out@[k].0@
                                == v@[k].0@,
                    decreases v.len() - i,
                {
                    let x = v[i].1.duplicate();
                    let k = v[i].0.clone();
                    out.push((k, x));
                    i = i + 1;
                }
                proof {
                    lemma_view_object(out);
                    lemma_view_object(*v);
                    assert(pairs_view(out@) =~= pairs_view(v@));
                }
                Json::Object(out)
            },
        }
    }

    /// The member named `key`, if this is an object that has one.
    pub fn get(&self, key: &str) -> (r: Option<&Json>)
        ensures
            match (r, member(self@, key@)) {
                (Some(x), Some(y)) => x@ == y,
                (None, None) => true,
                _ => false,
            },
    {
        match self {
            Json::Object(pairs) => {
                proof {
                    lemma_view_object(*pairs);
                }
                match find_key(pairs, key) {
                    Some(i) => Some(&pairs[i].1),
                    None => None,
                }
            },
            _ => None,
        }
    }

    /// The string content, if this is a string.
    pub fn as_str(&self) -> (r: Option<&String>)
        ensures
            match (r, str_value(self@)) {
                (Some(x), Some(y)) => x@ == y,
                (None, None) => true,
                _ => false,
            },
    {
        match self {
            Json::Str(s) => Some(s),
            _ => None,
        }
    }

    /// `self.get(key).and_then(as_str)`.
    pub fn get_str(&self, key: &str) -> (r: Option<&String>)
        ensures
            match (r, member_str(self@, key@)) {
                (Some(x), Some(y)) => x@ == y,
                (None, None) => true,
                _ => false,
            },
    {
        match self.get(key) {
            Some(v) => v.as_str(),
            None => None,
        }
    }

    /// The boolean, if this is one.
    pub fn as_bool(&self) -> (r: Option<bool>)
        ensures
            r == match self@ {
                JsonV::Bool(b) => Some(b),
                _ => None::<bool>,
            },
    {
        match self {
            Json::Bool(b) => Some(*b),
            _ => None,
        }
    }

    /// The elements, if this is an array.
    pub fn as_array(&self) -> (r: Option<&Vec<Json>>)
        ensures
            match r {
                Some(v) => self@ == JsonV::Array(v@.map_values(|x: Json| x@)),
                None => !(self@ is Array),
            },
    {
        match self {
            Json::Array(v) => {
                proof {
                    lemma_view_array(*v);
                }
                Some(v)
            },
            _ => None,
        }
    }

    /// The value as an unsigned integer, if it is a number written as plain
    /// decimal digits that fits in `u64`.
    pub fn as_u64(&self) -> (r: Option<u64>)
        ensures
            r == match self@ {
                JsonV::Number(t) => json_u64(t),
                _ => None::<u64>,
            },
    {
        match self {
            Json::Number(t) => {
                let cs = crate::text::chars_of(t.as_str());
                parse_u64_digits(cs.as_slice())
            },
            _ => None,
        }
    }

    /// An empty object.
    pub fn empty_object() -> (r: Json)
        ensures
            r@ == JsonV::Object(Seq::empty()),
    {
        let v: Vec<(String, Json)> = Vec::new();
        proof {
            lemma_view_object(v);
            assert(pairs_view(v@) =~= Seq::empty());
        }
        Json::Object(v)
    }

    pub fn is_object(&self) -> (r: bool)
        ensures
            r == (self@ is Object),
    {
        match self {
            Json::Object(_) => true,
            _ => false,
        }
    }

    pub fn is_array(&self) -> (r: bool)
        ensures
            r == (self@ is Array),
    {
        match self {
            Json::Array(_) => true,
            _ => false,
        }
    }
}

/// Sets member `key` of an object's member vector to `value`.
pub fn set_member(pairs: &mut Vec<(String, Json)>, key: String, value: Json)
    ensures
        pairs_view(final(pairs)@) == with_member(pairs_view(old(pairs)@), key@, value@),
{
    match find_key(pairs, key.as_str()) {
        Some(i) => {
            let ghost before = pairs_view(pairs@);
            pairs.set(i, (key, value));
            assert(pairs_view(pairs@) =~= before.update(i as int, (key@, value@)));
        },
        None => {
            let ghost before = pairs_view(pairs@);
            pairs.push((key, value));
            assert(pairs_view(pairs@) =~= before.push((key@, value@)));
        },
    }
}

/// Removes member `key` from an object's member vector; reports whether it was there.
pub fn remove_member(pairs: &mut Vec<(String, Json)>, key: &str) -> (r: bool)
    ensures
        r == (key_index(pairs_view(old(pairs)@), key@) is Some),
        pairs_view(final(pairs)@) == without_member(pairs_view(old(pairs)@), key@),
{
    match find_key(pairs, key) {
        Some(i) => {
            let ghost before = pairs_view(pairs@);
            pairs.remove(i);
            assert(pairs_view(pairs@) =~= before.remove(i as int));
            true
        },
        None => false,
    }
}

// ---------------------------------------------------------------------------
// Compact serialization through serde_json
// ---------------------------------------------------------------------------
/// serde_json's dynamic JSON value, carried opaquely.
#[verifier::external_type_specification]
#[verifier::external_body]
pub struct ExSerdeValue(serde_json::Value);

/// The compact text that `serde_json::to_string` writes for the value.
pub uninterp spec fn json_compact_text(v: JsonV) -> Seq<char>;

/// The `serde_json::Value` with the same content, variant for variant. A
/// number is parsed from its text (`serde_json::Number`'s `FromStr`); text
/// that is no JSON number becomes `null`. Nothing is stated of the result.
#[verifier::external_body]
fn to_serde_value(v: &Json) -> serde_json::Value {
    match v {
        Json::Null => serde_json::Value::Null,
        Json::Bool(b) => serde_json::Value::Bool(*b),
        Json::Number(n) => n.parse().map_or(serde_json::Value::Null, serde_json::Value::Number),
        Json::Str(t) => serde_json::Value::String(t.clone()),
        Json::Array(a) => serde_json::Value::Array(a.iter().map(to_serde_value).collect()),
        Json::Object(m) => serde_json::Value::Object(
            m.iter().map(|(k, x)| (k.clone(), to_serde_value(x))).collect(),
        ),
    }
}

/// `serde_json::to_string` of the value: its compact JSON text. Claimed: the
/// text is `json_compact_text` of the value's content, a function of that
/// content alone. Writing a `serde_json::Value` does not fail.
#[verifier::external_body]
pub(crate) fn json_text(v: &Json) -> (r: String)
    ensures
        r@ == json_compact_text(json_view(*v)),
{
    serde_json::to_string(&to_serde_value(v)).unwrap_or_default()
}

} // verus!
