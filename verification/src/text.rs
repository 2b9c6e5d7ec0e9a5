//! Character-level text model shared by the whole library: decimal numbers,
//! whitespace trimming, separators and the line structure of cell sources.
use vstd::prelude::*;

verus! {

// ---------------------------------------------------------------------------
// Conversions between std strings and character vectors
// ---------------------------------------------------------------------------
/// `str::chars`, collected: the characters of `s` in order.
#[verifier::external_body]
pub(crate) fn chars_of(s: &str) -> (r: Vec<char>)
    ensures
        r@ == s@,
{
    s.chars().collect()
}

/// `String: FromIterator<char>`: the string made of the given characters.
#[verifier::external_body]
pub(crate) fn string_of(v: &[char]) -> (r: String)
    ensures
        r@ == v@,
{
    v.iter().collect()
}

/// `str == str`: whether the two texts are the same.
#[verifier::external_body]
pub(crate) fn str_equal(a: &str, b: &str) -> (r: bool)
    ensures
        r == (a@ == b@),
{
    a == b
}

// ---------------------------------------------------------------------------
// Decimal numbers
// ---------------------------------------------------------------------------
pub open spec fn digit_char(d: nat) -> char
    recommends
        d < 10,
{
    if d == 0 {
        '0'
    } else if d == 1 {
        '1'
    } else if d == 2 {
        '2'
    } else if d == 3 {
        '3'
    } else if d == 4 {
        '4'
    } else if d == 5 {
        '5'
    } else if d == 6 {
        '6'
    } else if d == 7 {
        '7'
    } else if d == 8 {
        '8'
    } else {
        '9'
    }
}

pub open spec fn is_digit(c: char) -> bool {
    '0' <= c && c <= '9'
}

/// Decimal rendering of a natural number, without sign or leading zeros.
pub open spec fn decimal(n: nat) -> Seq<char>
    decreases n,
{
    if n < 10 {
        seq![digit_char(n)]
    } else {
        decimal(n / 10).push(digit_char(n % 10))
    }
}

/// Appends the decimal rendering of `n` to `out`.
pub fn push_decimal(out: &mut Vec<char>, n: usize)
    ensures
        final(out)@ == old(out)@ + decimal(n as nat),
    decreases n,
{
    if n >= 10 {
        push_decimal(out, n / 10);
    }
    let d = (n % 10) as u32;
    let c = char_from_digit(d);
    out.push(c);
    proof {
        if n < 10 {
            assert(decimal(n as nat) == seq![digit_char(n as nat)]);
        }
    }
}

/// Appends the decimal rendering of `n` to `out`.
pub fn push_decimal_u64(out: &mut Vec<char>, n: u64)
    ensures
        final(out)@ == old(out)@ + decimal(n as nat),
    decreases n,
{
    if n >= 10 {
        push_decimal_u64(out, n / 10);
    }
    let d = (n % 10) as u32;
    let c = char_from_digit(d);
    out.push(c);
    proof {
        if n < 10 {
            assert(decimal(n as nat) == seq![digit_char(n as nat)]);
        }
    }
}

/// Decimal rendering of an integer, with `-` before a negative one.
pub open spec fn signed_decimal(i: int) -> Seq<char> {
    if i < 0 {
        seq!['-'] + decimal((-i) as nat)
    } else {
        decimal(i as nat)
    }
}

/// Appends the decimal rendering of `n` (with its sign) to `out`.
pub fn push_signed_decimal(out: &mut Vec<char>, n: i64)
    ensures
        final(out)@ == old(out)@ + signed_decimal(n as int),
{
    if n < 0 {
        let ghost start = out@;
        out.push('-');
        let m: u64 = ((-(n + 1)) as u64) + 1;
        push_decimal_u64(out, m);
        assert(out@ =~= start + (seq!['-'] + decimal((-n) as nat)));
    } else {
        push_decimal_u64(out, n as u64);
    }
}

/// `n` right-aligned in a field of `width` characters (`{:>width}`).
pub open spec fn pad_left(n: nat, width: nat) -> Seq<char> {
    let d = decimal(n);
    if d.len() >= width {
        d
    } else {
        Seq::new((width - d.len()) as nat, |i: int| ' ') + d
    }
}

/// Appends `n` right-aligned in a field of `width` characters.
pub fn push_pad_left(out: &mut Vec<char>, n: usize, width: usize)
    ensures
        final(out)@ == old(out)@ + pad_left(n as nat, width as nat),
{
    let d = decimal_chars(n);
    let mut k = d.len();
    let ghost start = out@;
    while k < width
        invariant
            d@ == decimal(n as nat),
            d@.len() <= k <= width || (k == d@.len() && k >= width),
            out@ == start + Seq::new((k - d@.len()) as nat, |i: int| ' '),
        decreases width - k,
    {
        out.push(' ');
        k = k + 1;
        assert(out@ =~= start + Seq::new((k - d@.len()) as nat, |i: int| ' '));
    }
    append_chars(out, d.as_slice());
    proof {
        if d@.len() >= width {
            assert(out@ =~= start + d@);
        } else {
            assert(out@ =~= start + (Seq::new((width - d@.len()) as nat, |i: int| ' ') + d@));
        }
    }
}

fn char_from_digit(d: u32) -> (c: char)
    requires
        d < 10,
    ensures
        c == digit_char(d as nat),
{
    if d == 0 {
        '0'
    } else if d == 1 {
        '1'
    } else if d == 2 {
        '2'
    } else if d == 3 {
        '3'
    } else if d == 4 {
        '4'
    } else if d == 5 {
        '5'
    } else if d == 6 {
        '6'
    } else if d == 7 {
        '7'
    } else if d == 8 {
        '8'
    } else {
        '9'
    }
}

/// The decimal rendering of `n` as a vector of characters.
pub fn decimal_chars(n: usize) -> (r: Vec<char>)
    ensures
        r@ == decimal(n as nat),
{
    let mut out: Vec<char> = Vec::new();
    push_decimal(&mut out, n);
    assert(out@ == Seq::<char>::empty() + decimal(n as nat));
    out
}

/// Value of a sequence of decimal digits (most significant first).
pub open spec fn digits_value(d: Seq<char>) -> nat
    decreases d.len(),
{
    if d.len() == 0 {
        0
    } else {
        digits_value(d.drop_last()) * 10 + ((d.last() as nat) - 48) as nat
    }
}

pub open spec fn all_digits(d: Seq<char>) -> bool {
    forall|i: int| 0 <= i < d.len() ==> is_digit(#[trigger] d[i])
}

/// What `str::parse::<usize>` accepts: an optional `+`, then one or more
/// ASCII digits whose value fits in `usize`.
pub open spec fn parse_usize(s: Seq<char>) -> Option<usize> {
    let d = if s.len() > 0 && s[0] == '+' {
        s.drop_first()
    } else {
        s
    };
    if d.len() > 0 && all_digits(d) && digits_value(d) <= usize::MAX {
        Some(digits_value(d) as usize)
    } else {
        None
    }
}

proof fn lemma_digits_value_prefix(d: Seq<char>, i: int)
    requires
        0 <= i <= d.len(),
        all_digits(d),
    ensures
        digits_value(d.take(i)) <= digits_value(d),
    decreases d.len() - i,
{
    if i < d.len() {
        lemma_digits_value_prefix(d, i + 1);
        assert(d.take(i + 1).drop_last() =~= d.take(i));
        assert(is_digit(d[i]));
        let v = digits_value(d.take(i));
        assert(digits_value(d.take(i + 1)) == v * 10 + ((d[i] as nat) - 48) as nat);
        assert(v <= v * 10 + ((d[i] as nat) - 48) as nat) by (nonlinear_arith);
    } else {
        assert(d.take(i) =~= d);
    }
}

/// Parses a decimal `usize` exactly as `str::parse::<usize>` does.
pub fn parse_usize_chars(s: &[char]) -> (r: Option<usize>)
    ensures
        r == parse_usize(s@),
{
    let mut start: usize = 0;
    if s.len() > 0 && s[0] == '+' {
        start = 1;
    }
    let ghost d = if s@.len() > 0 && s@[0] == '+' {
        s@.drop_first()
    } else {
        s@
    };
    assert(d =~= s@.subrange(start as int, s@.len() as int));
    if start >= s.len() {
        return None;
    }
    let mut acc: usize = 0;
    let mut i: usize = start;
    while i < s.len()
        invariant
            start <= i <= s.len(),
            d =~= s@.subrange(start as int, s@.len() as int),
            d == (if s@.len() > 0 && s@[0] == '+' {
                s@.drop_first()
            } else {
                s@
            }),
            forall|k: int| 0 <= k < i - start ==> is_digit(#[trigger] d[k]),
            acc as nat == digits_value(d.take(i - start)),
        decreases s.len() - i,
    {
        let c = s[i];
        if !('0' <= c && c <= '9') {
            assert(!is_digit(d[i - start]));
            return None;
        }
        let dv = (c as u32 - 48) as usize;
        assert(d.take(i - start + 1).drop_last() =~= d.take(i - start));
        assert(d.take(i - start + 1).last() == c);
        let m = acc.checked_mul(10);
        if m.is_none() {
            proof {
                if all_digits(d) {
                    lemma_digits_value_prefix(d, i - start + 1);
                }
            }
            return None;
        }
        let m = m.unwrap();
        let a = m.checked_add(dv);
        if a.is_none() {
            proof {
                if all_digits(d) {
                    lemma_digits_value_prefix(d, i - start + 1);
                }
            }
            return None;
        }
        acc = a.unwrap();
        i = i + 1;
    }
    assert(d.take(s@.len() - start) =~= d);
    Some(acc)
}


// ---------------------------------------------------------------------------
// Copies and views of character vectors
// ---------------------------------------------------------------------------
/// The characters of each vector, in order.
pub open spec fn views(v: Seq<Vec<char>>) -> Seq<Seq<char>> {
    v.map_values(|x: Vec<char>| x@)
}

pub proof fn lemma_views_push(v: Seq<Vec<char>>, x: Vec<char>)
    ensures
        views(v.push(x)) == views(v).push(x@),
{
    assert(views(v.push(x)) =~= views(v).push(x@));
}

/// A copy of `s[a..b]`.
pub fn copy_range(s: &[char], a: usize, b: usize) -> (r: Vec<char>)
    requires
        a <= b <= s@.len(),
    ensures
        r@ == s@.subrange(a as int, b as int),
{
    let mut r: Vec<char> = Vec::new();
    let mut i = a;
    while i < b
        invariant
            a <= i <= b <= s@.len(),
            r@ == s@.subrange(a as int, i as int),
        decreases b - i,
    {
        r.push(s[i]);
        i = i + 1;
        assert(r@ =~= s@.subrange(a as int, i as int));
    }
    r
}

/// A copy of the whole of `s`.
pub fn copy_all(s: &[char]) -> (r: Vec<char>)
    ensures
        r@ == s@,
{
    let r = copy_range(s, 0, s.len());
    assert(s@.subrange(0, s@.len() as int) =~= s@);
    r
}

/// Appends `t` to `out`.
pub fn append_chars(out: &mut Vec<char>, t: &[char])
    ensures
        final(out)@ == old(out)@ + t@,
{
    let mut i: usize = 0;
    while i < t.len()
        invariant
            i <= t@.len(),
            out@ == old(out)@ + t@.take(i as int),
        decreases t.len() - i,
    {
        out.push(t[i]);
        i = i + 1;
        assert(out@ =~= old(out)@ + t@.take(i as int));
    }
    assert(t@.take(t@.len() as int) =~= t@);
}

/// Appends the characters of `t` to `out`.
pub fn append_str(out: &mut Vec<char>, t: &str)
    ensures
        final(out)@ == old(out)@ + t@,
{
    let v = chars_of(t);
    append_chars(out, v.as_slice());
}

pub fn chars_eq(a: &[char], b: &[char]) -> (r: bool)
    ensures
        r == (a@ == b@),
{
    if a.len() != b.len() {
        return false;
    }
    let mut i: usize = 0;
    while i < a.len()
        invariant
            a@.len() == b@.len(),
            i <= a@.len(),
            forall|k: int| 0 <= k < i ==> a@[k] == b@[k],
        decreases a.len() - i,
    {
        if a[i] != b[i] {
            return false;
        }
        i = i + 1;
    }
    assert(a@ =~= b@);
    true
}

/// `t` occurs in `s` as a contiguous run (`str::contains`).
pub open spec fn contains_seq(s: Seq<char>, t: Seq<char>) -> bool {
    exists|i: int| 0 <= i && i + t.len() <= s.len() && #[trigger] s.subrange(i, i + t.len()) == t
}

/// Whether `t` occurs in `s` at position `i`.
fn matches_at(s: &[char], t: &[char], i: usize) -> (r: bool)
    requires
        i + t@.len() <= s@.len(),
    ensures
        r == (s@.subrange(i as int, i + t@.len()) == t@),
{
    let n = s.len();
    let mut j: usize = 0;
    while j < t.len()
        invariant
            n == s@.len(),
            i + t@.len() <= s@.len(),
            j <= t@.len(),
            forall|m: int| 0 <= m < j ==> s@[i + m] == t@[m],
        decreases t.len() - j,
    {
        if s[i + j] != t[j] {
            assert(s@.subrange(i as int, i + t@.len())[j as int] != t@[j as int]);
            return false;
        }
        j = j + 1;
    }
    assert(s@.subrange(i as int, i + t@.len()) =~= t@);
    true
}

/// Whether `t` occurs in `s`.
pub fn contains_chars(s: &[char], t: &[char]) -> (r: bool)
    ensures
        r == contains_seq(s@, t@),
{
    if t.len() > s.len() {
        return false;
    }
    let last = s.len() - t.len();
    let mut i: usize = 0;
    while i < last
        invariant
            i <= last,
            last + t@.len() == s@.len(),
            forall|k: int| 0 <= k < i ==> #[trigger] s@.subrange(k, k + t@.len()) != t@,
        decreases last - i,
    {
        if matches_at(s, t, i) {
            return true;
        }
        i = i + 1;
    }
    matches_at(s, t, last)
}

// ---------------------------------------------------------------------------
// Whitespace and case
// ---------------------------------------------------------------------------
/// The Unicode `White_Space` characters, which `char::is_whitespace` accepts.
pub open spec fn is_ws(c: char) -> bool {
    let u = c as u32;
    u == 9 || u == 10 || u == 11 || u == 12 || u == 13 || u == 32 || u == 0x85 || u == 0xA0
        || u == 0x1680 || (0x2000 <= u && u <= 0x200A) || u == 0x2028 || u == 0x2029 || u
        == 0x202F || u == 0x205F || u == 0x3000
}

pub fn is_ws_char(c: char) -> (r: bool)
    ensures
        r == is_ws(c),
{
    let u = c as u32;
    u == 9 || u == 10 || u == 11 || u == 12 || u == 13 || u == 32 || u == 0x85 || u == 0xA0
        || u == 0x1680 || (0x2000 <= u && u <= 0x200A) || u == 0x2028 || u == 0x2029 || u
        == 0x202F || u == 0x205F || u == 0x3000
}

/// Number of leading whitespace characters.
pub open spec fn lead_ws(s: Seq<char>) -> nat
    decreases s.len(),
{
    if s.len() > 0 && is_ws(s[0]) {
        1 + lead_ws(s.drop_first())
    } else {
        0
    }
}

/// Number of trailing whitespace characters.
pub open spec fn trail_ws(s: Seq<char>) -> nat
    decreases s.len(),
{
    if s.len() > 0 && is_ws(s.last()) {
        1 + trail_ws(s.drop_last())
    } else {
        0
    }
}

/// `str::trim`: the text without leading and trailing whitespace.
pub open spec fn trim(s: Seq<char>) -> Seq<char> {
    let t = s.skip(lead_ws(s) as int);
    t.take(t.len() - trail_ws(t))
}

proof fn lemma_lead_ws(s: Seq<char>, i: int)
    requires
        0 <= i <= s.len(),
        forall|k: int| 0 <= k < i ==> is_ws(#[trigger] s[k]),
        i == s.len() || !is_ws(s[i]),
    ensures
        lead_ws(s) == i,
    decreases i,
{
    if i > 0 {
        let t = s.drop_first();
        assert forall|k: int| 0 <= k < i - 1 implies is_ws(#[trigger] t[k]) by {
            assert(t[k] == s[k + 1]);
        }
        if i - 1 < t.len() {
            assert(t[i - 1] == s[i]);
        }
        lemma_lead_ws(t, i - 1);
    }
}

proof fn lemma_trail_ws(s: Seq<char>, j: int)
    requires
        0 <= j <= s.len(),
        forall|k: int| j <= k < s.len() ==> is_ws(#[trigger] s[k]),
        j == 0 || !is_ws(s[j - 1]),
    ensures
        trail_ws(s) == s.len() - j,
    decreases s.len() - j,
{
    if j < s.len() {
        let t = s.drop_last();
        assert forall|k: int| j <= k < t.len() implies is_ws(#[trigger] t[k]) by {
            assert(t[k] == s[k]);
        }
        if j > 0 {
            assert(t[j - 1] == s[j - 1]);
        }
        lemma_trail_ws(t, j);
    }
}

/// `str::trim` on a character vector.
pub fn trim_chars(s: &[char]) -> (r: Vec<char>)
    ensures
        r@ == trim(s@),
{
    let mut i: usize = 0;
    while i < s.len() && is_ws_char(s[i])
        invariant
            i <= s@.len(),
            forall|k: int| 0 <= k < i ==> is_ws(#[trigger] s@[k]),
        decreases s.len() - i,
    {
        i = i + 1;
    }
    proof {
        lemma_lead_ws(s@, i as int);
    }
    let mut j: usize = s.len();
    while j > i && is_ws_char(s[j - 1])
        invariant
            i <= j <= s@.len(),
            forall|k: int| j <= k < s@.len() ==> is_ws(#[trigger] s@[k]),
        decreases j - i,
    {
        j = j - 1;
    }
    proof {
        let t = s@.skip(i as int);
        assert forall|k: int| j - i <= k < t.len() implies is_ws(#[trigger] t[k]) by {
            assert(t[k] == s@[k + i]);
        }
        if j > i {
            assert(t[j - i - 1] == s@[j - 1]);
        }
        lemma_trail_ws(t, j - i);
        assert(t.take(t.len() - trail_ws(t)) =~= s@.subrange(i as int, j as int));
    }
    copy_range(s, i, j)
}

pub open spec fn ascii_lower(c: char) -> char {
    if 'A' <= c && c <= 'Z' {
        ((c as u32) + 32) as char
    } else {
        c
    }
}

/// `str::eq_ignore_ascii_case`.
pub open spec fn eq_ignore_ascii_case(a: Seq<char>, b: Seq<char>) -> bool {
    a.len() == b.len() && forall|i: int| 0 <= i < a.len() ==> ascii_lower(#[trigger] a[i])
        == ascii_lower(b[i])
}

fn ascii_lower_char(c: char) -> (r: char)
    ensures
        r == ascii_lower(c),
{
    if 'A' <= c && c <= 'Z' {
        let u = (c as u32) + 32;
        let r = char_of_ascii(u);
        r
    } else {
        c
    }
}

fn char_of_ascii(u: u32) -> (r: char)
    requires
        u < 128,
    ensures
        r == u as char,
{
    let b = u as u8;
    let r = b as char;
    assert(r as u32 == u);
    r
}

pub fn eq_ignore_ascii_case_chars(a: &[char], b: &[char]) -> (r: bool)
    ensures
        r == eq_ignore_ascii_case(a@, b@),
{
    if a.len() != b.len() {
        return false;
    }
    let mut i: usize = 0;
    while i < a.len()
        invariant
            a@.len() == b@.len(),
            i <= a@.len(),
            forall|k: int| 0 <= k < i ==> ascii_lower(#[trigger] a@[k]) == ascii_lower(b@[k]),
        decreases a.len() - i,
    {
        if ascii_lower_char(a[i]) != ascii_lower_char(b[i]) {
            return false;
        }
        i = i + 1;
    }
    true
}

// ---------------------------------------------------------------------------
// Separators
// ---------------------------------------------------------------------------
pub fn contains_char(s: &[char], c: char) -> (r: bool)
    ensures
        r == s@.contains(c),
{
    let mut i: usize = 0;
    while i < s.len()
        invariant
            i <= s@.len(),
            forall|k: int| 0 <= k < i ==> s@[k] != c,
        decreases s.len() - i,
    {
        if s[i] == c {
            assert(s@[i as int] == c);
            return true;
        }
        i = i + 1;
    }
    false
}

/// Index of the first occurrence of `c` in `s`, which occurs.
pub open spec fn first_index(s: Seq<char>, c: char) -> int
    recommends
        s.contains(c),
{
    choose|k: int| 0 <= k < s.len() && s[k] == c && forall|j: int| 0 <= j < k ==> s[j] != c
}

pub fn first_index_of(s: &[char], c: char) -> (r: usize)
    requires
        s@.contains(c),
    ensures
        r == first_index(s@, c),
        r < s@.len(),
        s@[r as int] == c,
        forall|j: int| 0 <= j < r ==> s@[j] != c,
{
    let mut i: usize = 0;
    while i < s.len()
        invariant
            i <= s@.len(),
            s@.contains(c),
            forall|k: int| 0 <= k < i ==> s@[k] != c,
        decreases s.len() - i,
    {
        if s[i] == c {
            proof {
                let p = |k: int| 0 <= k < s@.len() && s@[k] == c && forall|j: int|
                    0 <= j < k ==> s@[j] != c;
                assert(p(i as int));
                let k = first_index(s@, c);
                assert(p(k));
                if k < i {
                } else if k > i {
                    assert(s@[i as int] != c);
                }
            }
            return i;
        }
        i = i + 1;
    }
    proof {
        let k = choose|k: int| 0 <= k < s@.len() && s@[k] == c;
        assert(s@[k] != c);
    }
    0
}

/// `str::split(c)`: the pieces between occurrences of `c` (at least one).
pub open spec fn split_on(s: Seq<char>, c: char) -> Seq<Seq<char>>
    decreases s.len(),
{
    if s.len() == 0 {
        seq![Seq::<char>::empty()]
    } else {
        let p = split_on(s.drop_last(), c);
        if s.last() == c {
            p.push(Seq::<char>::empty())
        } else {
            p.update(p.len() - 1, p.last().push(s.last()))
        }
    }
}

pub proof fn lemma_split_on_len(s: Seq<char>, c: char)
    ensures
        split_on(s, c).len() >= 1,
{
    lemma_split_on_nonempty(s, c);
}

proof fn lemma_split_on_nonempty(s: Seq<char>, c: char)
    ensures
        split_on(s, c).len() >= 1,
    decreases s.len(),
{
    if s.len() > 0 {
        lemma_split_on_nonempty(s.drop_last(), c);
    }
}

pub fn split_on_char(s: &[char], c: char) -> (r: Vec<Vec<char>>)
    ensures
        views(r@) == split_on(s@, c),
{
    let mut pieces: Vec<Vec<char>> = Vec::new();
    let mut cur: Vec<char> = Vec::new();
    let mut i: usize = 0;
    assert(s@.take(0) =~= Seq::<char>::empty());
    while i < s.len()
        invariant
            i <= s@.len(),
            views(pieces@).push(cur@) == split_on(s@.take(i as int), c),
        decreases s.len() - i,
    {
        proof {
            lemma_split_on_nonempty(s@.take(i as int), c);
        }
        let ch = s[i];
        assert(s@.take(i + 1).drop_last() =~= s@.take(i as int));
        if ch == c {
            pieces.push(cur);
            cur = Vec::new();
            assert(views(pieces@).push(cur@) =~= split_on(s@.take(i as int), c).push(
                Seq::<char>::empty(),
            ));
        } else {
            let ghost before = cur@;
            cur.push(ch);
            let ghost p = split_on(s@.take(i as int), c);
            assert(views(pieces@).push(cur@) =~= p.update(p.len() - 1, p.last().push(ch)));
        }
        i = i + 1;
    }
    pieces.push(cur);
    assert(s@.take(s@.len() as int) =~= s@);
    pieces
}


// ---------------------------------------------------------------------------
// Lines
// ---------------------------------------------------------------------------
pub open spec fn ends_with_nl(s: Seq<char>) -> bool {
    s.len() > 0 && s.last() == '\n'
}

/// `str::split_inclusive('\n')`: the pieces of `s`, each ending with its
/// newline except possibly the last; no piece is empty.
pub open spec fn split_incl(s: Seq<char>) -> Seq<Seq<char>>
    decreases s.len(),
{
    if s.len() == 0 {
        Seq::<Seq<char>>::empty()
    } else {
        let p = split_incl(s.drop_last());
        if p.len() == 0 || ends_with_nl(p.last()) {
            p.push(seq![s.last()])
        } else {
            p.update(p.len() - 1, p.last().push(s.last()))
        }
    }
}

/// The concatenation of all pieces.
pub open spec fn flatten(v: Seq<Seq<char>>) -> Seq<char>
    decreases v.len(),
{
    if v.len() == 0 {
        Seq::<char>::empty()
    } else {
        flatten(v.drop_last()) + v.last()
    }
}

/// The pieces joined with `sep` between neighbours.
pub open spec fn join(v: Seq<Seq<char>>, sep: Seq<char>) -> Seq<char>
    decreases v.len(),
{
    if v.len() == 0 {
        Seq::<char>::empty()
    } else if v.len() == 1 {
        v[0]
    } else {
        join(v.drop_last(), sep) + sep + v.last()
    }
}

/// One line as `str::lines` yields it: without its `\n` or `\r\n` ending.
pub open spec fn line_of(piece: Seq<char>) -> Seq<char> {
    if ends_with_nl(piece) {
        let m = piece.drop_last();
        if m.len() > 0 && m.last() == '\r' {
            m.drop_last()
        } else {
            m
        }
    } else {
        piece
    }
}

/// `str::lines`.
pub open spec fn lines(s: Seq<char>) -> Seq<Seq<char>> {
    split_incl(s).map_values(|p: Seq<char>| line_of(p))
}

pub proof fn lemma_flatten_split_incl(s: Seq<char>)
    ensures
        flatten(split_incl(s)) == s,
    decreases s.len(),
{
    if s.len() > 0 {
        let p = split_incl(s.drop_last());
        lemma_flatten_split_incl(s.drop_last());
        if p.len() == 0 || ends_with_nl(p.last()) {
            assert(split_incl(s).drop_last() =~= p);
            assert(s =~= s.drop_last() + seq![s.last()]);
        } else {
            let q = split_incl(s);
            assert(q.drop_last() =~= p.drop_last());
            assert(p.drop_last().push(p.last()) =~= p);
            assert(flatten(p) == flatten(p.drop_last()) + p.last());
            assert(s =~= s.drop_last() + seq![s.last()]);
            assert(flatten(q) =~= flatten(p.drop_last()) + p.last().push(s.last()));
        }
    }
}

pub proof fn lemma_split_incl_empty_iff(s: Seq<char>)
    ensures
        (split_incl(s).len() == 0) == (s.len() == 0),
    decreases s.len(),
{
    if s.len() > 0 {
        lemma_split_incl_empty_iff(s.drop_last());
    }
}

pub proof fn lemma_flatten_append(a: Seq<Seq<char>>, b: Seq<Seq<char>>)
    ensures
        flatten(a + b) == flatten(a) + flatten(b),
    decreases b.len(),
{
    if b.len() == 0 {
        assert(a + b =~= a);
        assert(flatten(a) + flatten(b) =~= flatten(a));
    } else {
        lemma_flatten_append(a, b.drop_last());
        assert((a + b).drop_last() =~= a + b.drop_last());
        assert(flatten(a) + flatten(b) =~= flatten(a) + flatten(b.drop_last()) + b.last());
    }
}

/// Splits `s` after each newline, as `str::split_inclusive('\n')` does.
pub fn split_inclusive_nl(s: &[char]) -> (r: Vec<Vec<char>>)
    ensures
        views(r@) == split_incl(s@),
{
    let mut pieces: Vec<Vec<char>> = Vec::new();
    let mut cur: Vec<char> = Vec::new();
    let mut i: usize = 0;
    while i < s.len()
        invariant
            i <= s@.len(),
            cur@.len() == 0 ==> views(pieces@) == split_incl(s@.take(i as int)),
            cur@.len() > 0 ==> views(pieces@).push(cur@) == split_incl(s@.take(i as int)),
            cur@.len() > 0 ==> !ends_with_nl(cur@),
            forall|k: int| 0 <= k < pieces@.len() ==> ends_with_nl(#[trigger] pieces@[k]@),
        decreases s.len() - i,
    {
        let ch = s[i];
        let ghost prev = split_incl(s@.take(i as int));
        assert(s@.take(i + 1).drop_last() =~= s@.take(i as int));
        assert(s@.take(i + 1).last() == ch);
        if cur.len() == 0 {
            assert(prev.len() == 0 || ends_with_nl(prev.last())) by {
                if prev.len() > 0 {
                    assert(prev.last() == views(pieces@)[pieces@.len() - 1]);
                }
            }
        } else {
            assert(prev.last() == cur@);
        }
        let ghost cur_old = cur@;
        let ghost pieces_old = views(pieces@);
        cur.push(ch);
        if ch == '\n' {
            let done = cur;
            cur = Vec::new();
            pieces.push(done);
            proof {
                if prev.len() == 0 || ends_with_nl(prev.last()) {
                    assert(cur_old.len() == 0);
                    assert(cur_old.push(ch) =~= seq![ch]);
                    assert(views(pieces@) =~= pieces_old.push(cur_old.push(ch)));
                    assert(views(pieces@) =~= prev.push(seq![ch]));
                } else {
                    assert(views(pieces@) =~= prev.update(prev.len() - 1, prev.last().push(ch)));
                }
            }
        } else {
            proof {
                if prev.len() == 0 || ends_with_nl(prev.last()) {
                    assert(cur_old.len() == 0);
                    assert(cur@ =~= seq![ch]);
                    assert(views(pieces@).push(cur@) =~= prev.push(seq![ch]));
                } else {
                    assert(views(pieces@).push(cur@) =~= prev.update(
                        prev.len() - 1,
                        prev.last().push(ch),
                    ));
                }
            }
        }
        i = i + 1;
    }
    assert(s@.take(s@.len() as int) =~= s@);
    if cur.len() > 0 {
        pieces.push(cur);
    }
    pieces
}

fn line_of_piece(p: &[char]) -> (r: Vec<char>)
    ensures
        r@ == line_of(p@),
{
    let n = p.len();
    if n > 0 && p[n - 1] == '\n' {
        if n > 1 && p[n - 2] == '\r' {
            copy_range(p, 0, n - 2)
        } else {
            copy_range(p, 0, n - 1)
        }
    } else {
        copy_all(p)
    }
}

/// The lines of `s`, as `str::lines` yields them.
pub fn lines_of(s: &[char]) -> (r: Vec<Vec<char>>)
    ensures
        views(r@) == lines(s@),
{
    let pieces = split_inclusive_nl(s);
    let mut out: Vec<Vec<char>> = Vec::new();
    let mut i: usize = 0;
    while i < pieces.len()
        invariant
            i <= pieces@.len(),
            views(pieces@) == split_incl(s@),
            views(out@) == views(pieces@).take(i as int).map_values(|p: Seq<char>| line_of(p)),
        decreases pieces.len() - i,
    {
        let l = line_of_piece(pieces[i].as_slice());
        let ghost out_old = views(out@);
        out.push(l);
        proof {
            let f = |p: Seq<char>| line_of(p);
            assert(views(out@) =~= out_old.push(l@));
            assert(views(pieces@)[i as int] == pieces@[i as int]@);
            assert(views(pieces@).take(i + 1).map_values(f) =~= views(pieces@).take(
                i as int,
            ).map_values(f).push(f(views(pieces@)[i as int])));
        }
        i = i + 1;
    }
    assert(views(pieces@).take(pieces@.len() as int) =~= views(pieces@));
    out
}

/// The pieces joined with `sep`.
pub fn join_chars(v: &Vec<Vec<char>>, sep: &[char]) -> (r: Vec<char>)
    ensures
        r@ == join(views(v@), sep@),
{
    let mut out: Vec<char> = Vec::new();
    let mut i: usize = 0;
    while i < v.len()
        invariant
            i <= v@.len(),
            out@ == join(views(v@).take(i as int), sep@),
        decreases v.len() - i,
    {
        let ghost t = views(v@).take(i as int + 1);
        assert(t.drop_last() =~= views(v@).take(i as int));
        if i > 0 {
            append_chars(&mut out, sep);
        }
        append_chars(&mut out, v[i].as_slice());
        i = i + 1;
        proof {
            if i == 1 {
                assert(out@ =~= t[0]);
            }
        }
    }
    assert(views(v@).take(v@.len() as int) =~= views(v@));
    out
}

/// All pieces concatenated.
pub fn flatten_chars(v: &Vec<Vec<char>>) -> (r: Vec<char>)
    ensures
        r@ == flatten(views(v@)),
{
    let mut out: Vec<char> = Vec::new();
    let mut i: usize = 0;
    while i < v.len()
        invariant
            i <= v@.len(),
            out@ == flatten(views(v@).take(i as int)),
        decreases v.len() - i,
    {
        let ghost t = views(v@).take(i as int + 1);
        assert(t.drop_last() =~= views(v@).take(i as int));
        append_chars(&mut out, v[i].as_slice());
        i = i + 1;
    }
    assert(views(v@).take(v@.len() as int) =~= views(v@));
    out
}

} // verus!
