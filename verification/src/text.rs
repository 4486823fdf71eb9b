//! Character-level text primitives shared by every parser: Unicode whitespace,
//! ASCII classes and case, trimming, line and whitespace splitting, substring
//! search. Each executable helper is proved against the spec function of the
//! same meaning, so the parsers above can be specified over these.

use vstd::prelude::*;

verus! {

// ─── Character classes ────────────────────────────────────────────────────

/// Unicode `White_Space` — the set `char::is_whitespace` tests, and therefore
/// what `str::trim` and `str::split_whitespace` split on.
pub open spec fn is_ws(c: char) -> bool {
    let u: u32 = c as u32;
    ||| (9 <= u && u <= 13)
    ||| u == 32
    ||| u == 0x85
    ||| u == 0xA0
    ||| u == 0x1680
    ||| (0x2000 <= u && u <= 0x200A)
    ||| u == 0x2028
    ||| u == 0x2029
    ||| u == 0x202F
    ||| u == 0x205F
    ||| u == 0x3000
}

pub fn is_whitespace(c: char) -> (b: bool)
    ensures
        b == is_ws(c),
{
    let u: u32 = c as u32;
    (9 <= u && u <= 13) || u == 32 || u == 0x85 || u == 0xA0 || u == 0x1680 || (0x2000 <= u
        && u <= 0x200A) || u == 0x2028 || u == 0x2029 || u == 0x202F || u == 0x205F || u == 0x3000
}

pub open spec fn is_digit(c: char) -> bool {
    '0' <= c && c <= '9'
}

pub open spec fn is_lower_alpha(c: char) -> bool {
    'a' <= c && c <= 'z'
}

pub open spec fn is_upper_alpha(c: char) -> bool {
    'A' <= c && c <= 'Z'
}

pub open spec fn is_alpha(c: char) -> bool {
    is_lower_alpha(c) || is_upper_alpha(c)
}

pub open spec fn is_alnum(c: char) -> bool {
    is_alpha(c) || is_digit(c)
}

pub open spec fn is_hex(c: char) -> bool {
    is_digit(c) || ('a' <= c && c <= 'f') || ('A' <= c && c <= 'F')
}

pub fn char_is_alnum(c: char) -> (b: bool)
    ensures
        b == is_alnum(c),
{
    ('a' <= c && c <= 'z') || ('A' <= c && c <= 'Z') || ('0' <= c && c <= '9')
}

pub fn char_is_alpha(c: char) -> (b: bool)
    ensures
        b == is_alpha(c),
{
    ('a' <= c && c <= 'z') || ('A' <= c && c <= 'Z')
}

pub fn char_is_digit(c: char) -> (b: bool)
    ensures
        b == is_digit(c),
{
    '0' <= c && c <= '9'
}

pub fn char_is_hex(c: char) -> (b: bool)
    ensures
        b == is_hex(c),
{
    ('0' <= c && c <= '9') || ('a' <= c && c <= 'f') || ('A' <= c && c <= 'F')
}

pub fn char_is_upper(c: char) -> (b: bool)
    ensures
        b == is_upper_alpha(c),
{
    'A' <= c && c <= 'Z'
}

/// ASCII lower-casing of one character; anything else is unchanged.
pub open spec fn lower_char(c: char) -> char {
    if is_upper_alpha(c) {
        ((c as u32) + 32) as char
    } else {
        c
    }
}

/// ASCII upper-casing of one character; anything else is unchanged.
pub open spec fn upper_char(c: char) -> char {
    if is_lower_alpha(c) {
        ((c as u32) - 32) as char
    } else {
        c
    }
}

pub fn to_lower_char(c: char) -> (r: char)
    ensures
        r == lower_char(c),
{
    if 'A' <= c && c <= 'Z' {
        let u: u32 = c as u32 + 32;
        proof {
            assert(u <= 0x7A);
        }
        char_from_ascii(u)
    } else {
        c
    }
}

pub fn to_upper_char(c: char) -> (r: char)
    ensures
        r == upper_char(c),
{
    if 'a' <= c && c <= 'z' {
        let u: u32 = c as u32 - 32;
        char_from_ascii(u)
    } else {
        c
    }
}

/// The character with an ASCII code point.
fn char_from_ascii(u: u32) -> (c: char)
    requires
        u < 128,
    ensures
        c == u as char,
        c as u32 == u,
{
    let b: u8 = u as u8;
    let c = b as char;
    proof {
        assert(c as u32 == u);
    }
    c
}

pub open spec fn lower_seq(s: Seq<char>) -> Seq<char> {
    s.map_values(|c: char| lower_char(c))
}

pub open spec fn upper_seq(s: Seq<char>) -> Seq<char> {
    s.map_values(|c: char| upper_char(c))
}

// ─── Conversions with `str` and `String` ──────────────────────────────────

/// Every character of `s`, in order.
pub fn chars_of(s: &str) -> (v: Vec<char>)
    ensures
        v@ == s@,
{
    let mut v: Vec<char> = Vec::new();
    for c in it: s.chars()
        invariant
            v@ == it.seq().take(it.index() as int),
            it.seq() == s@,
    {
        v.push(c);
    }
    v
}

/// Builds a `String` holding exactly `chars`, via std's
/// `FromIterator<&char> for String`. The contract claims what std documents:
/// the string is the characters in order.
#[verifier::external_body]
pub fn string_of(chars: &[char]) -> (s: String)
    ensures
        s@ == chars@,
{
    chars.iter().collect()
}

/// The `Box<str>` std's `String::into_boxed_str` gives back: the same
/// characters.
#[verifier::external_body]
pub fn into_boxed(s: String) -> (b: Box<str>)
    ensures
        b@ == s@,
{
    s.into_boxed_str()
}

/// std's `Clone` for `Box<str>` copies the string.
pub assume_specification[ <Box<str> as Clone>::clone ](b: &Box<str>) -> (res: Box<str>)
    ensures
        res@ == b@,
;

/// `v[from..to]` as a `Box<str>`.
pub fn boxed_of_range(v: &[char], from: usize, to: usize) -> (b: Box<str>)
    requires
        from <= to <= v.len(),
    ensures
        b@ == v@.subrange(from as int, to as int),
{
    into_boxed(string_of_range(v, from, to))
}

/// Whether `a` and `b` are equal ignoring ASCII case.
pub fn eq_ignore_case(a: &[char], b: &[char]) -> (r: bool)
    ensures
        r == (lower_seq(a@) == lower_seq(b@)),
{
    if a.len() != b.len() {
        proof {
            assert(lower_seq(a@).len() != lower_seq(b@).len());
        }
        return false;
    }
    let mut k: usize = 0;
    while k < a.len()
        invariant
            a.len() == b.len(),
            0 <= k <= a.len(),
            forall|j: int| 0 <= j < k ==> lower_char(a@[j]) == lower_char(b@[j]),
        decreases a.len() - k,
    {
        if to_lower_char(a[k]) != to_lower_char(b[k]) {
            proof {
                assert(lower_seq(a@)[k as int] != lower_seq(b@)[k as int]);
            }
            return false;
        }
        k += 1;
    }
    proof {
        assert(lower_seq(a@) =~= lower_seq(b@));
    }
    true
}

/// A copy of `v[from..to]` as a `String`.
pub fn string_of_range(v: &[char], from: usize, to: usize) -> (s: String)
    requires
        from <= to <= v.len(),
    ensures
        s@ == v@.subrange(from as int, to as int),
{
    let mut out: Vec<char> = Vec::new();
    let mut i: usize = from;
    while i < to
        invariant
            from <= i <= to <= v.len(),
            out@ == v@.subrange(from as int, i as int),
        decreases to - i,
    {
        out.push(v[i]);
        i += 1;
    }
    string_of(out.as_slice())
}

/// `v[from..to]` lower-cased, as a `String`.
pub fn lowered_string_of_range(v: &[char], from: usize, to: usize) -> (s: String)
    requires
        from <= to <= v.len(),
    ensures
        s@ == lower_seq(v@.subrange(from as int, to as int)),
{
    let mut out: Vec<char> = Vec::new();
    let mut i: usize = from;
    while i < to
        invariant
            from <= i <= to <= v.len(),
            out@ == lower_seq(v@.subrange(from as int, i as int)),
        decreases to - i,
    {
        out.push(to_lower_char(v[i]));
        proof {
            assert(v@.subrange(from as int, i + 1) == v@.subrange(from as int, i as int).push(
                v@[i as int],
            ));
        }
        i += 1;
    }
    string_of(out.as_slice())
}

/// `v[from..to]` upper-cased, as a `String`.
pub fn uppered_string_of_range(v: &[char], from: usize, to: usize) -> (s: String)
    requires
        from <= to <= v.len(),
    ensures
        s@ == upper_seq(v@.subrange(from as int, to as int)),
{
    let mut out: Vec<char> = Vec::new();
    let mut i: usize = from;
    while i < to
        invariant
            from <= i <= to <= v.len(),
            out@ == upper_seq(v@.subrange(from as int, i as int)),
        decreases to - i,
    {
        out.push(to_upper_char(v[i]));
        proof {
            assert(v@.subrange(from as int, i + 1) == v@.subrange(from as int, i as int).push(
                v@[i as int],
            ));
        }
        i += 1;
    }
    string_of(out.as_slice())
}

// ─── Trimming ─────────────────────────────────────────────────────────────

/// Index of the first non-whitespace character at or after `from`, or
/// `s.len()`.
pub open spec fn skip_ws(s: Seq<char>, from: int) -> int
    decreases s.len() - from,
{
    if from >= s.len() || !is_ws(s[from]) {
        from
    } else {
        skip_ws(s, from + 1)
    }
}

/// One past the last non-whitespace character before `to`, or `from` when
/// `s[from..to]` is all whitespace.
pub open spec fn back_ws(s: Seq<char>, from: int, to: int) -> int
    decreases to - from,
{
    if to <= from || !is_ws(s[to - 1]) {
        to
    } else {
        back_ws(s, from, to - 1)
    }
}

/// `str::trim` on `s[from..to]`, as the bounds of the trimmed range.
pub open spec fn trim_bounds(s: Seq<char>, from: int, to: int) -> (int, int) {
    let a = skip_ws(s.subrange(0, to), from);
    (a, back_ws(s, a, to))
}

pub proof fn lemma_skip_ws_bounds(s: Seq<char>, from: int)
    requires
        0 <= from <= s.len(),
    ensures
        from <= skip_ws(s, from) <= s.len(),
        forall|k: int| from <= k < skip_ws(s, from) ==> is_ws(#[trigger] s[k]),
        skip_ws(s, from) < s.len() ==> !is_ws(s[skip_ws(s, from)]),
    decreases s.len() - from,
{
    if from < s.len() && is_ws(s[from]) {
        lemma_skip_ws_bounds(s, from + 1);
    }
}

pub proof fn lemma_back_ws_bounds(s: Seq<char>, from: int, to: int)
    requires
        0 <= from <= to <= s.len(),
    ensures
        from <= back_ws(s, from, to) <= to,
        forall|k: int| back_ws(s, from, to) <= k < to ==> is_ws(#[trigger] s[k]),
        back_ws(s, from, to) > from ==> !is_ws(s[back_ws(s, from, to) - 1]),
    decreases to - from,
{
    if to > from && is_ws(s[to - 1]) {
        lemma_back_ws_bounds(s, from, to - 1);
    }
}

/// The bounds of `v[from..to]` after `str::trim`.
pub fn trim_range(v: &[char], from: usize, to: usize) -> (r: (usize, usize))
    requires
        from <= to <= v.len(),
    ensures
        (r.0 as int, r.1 as int) == trim_bounds(v@, from as int, to as int),
        from <= r.0 <= r.1 <= to,
{
    let ghost w = v@.subrange(0, to as int);
    let mut a: usize = from;
    while a < to && is_whitespace(v[a])
        invariant
            from <= a <= to <= v.len(),
            skip_ws(w, from as int) == skip_ws(w, a as int),
            w == v@.subrange(0, to as int),
        decreases to - a,
    {
        assert(w[a as int] == v@[a as int]);
        a += 1;
    }
    proof {
        lemma_skip_ws_bounds(w, from as int);
    }
    let mut b: usize = to;
    while b > a && is_whitespace(v[b - 1])
        invariant
            from <= a <= b <= to <= v.len(),
            back_ws(v@, a as int, to as int) == back_ws(v@, a as int, b as int),
        decreases b - a,
    {
        b -= 1;
    }
    (a, b)
}

// ─── Lines ────────────────────────────────────────────────────────────────

/// Index of the first `'\n'` at or after `from`, or `s.len()`.
pub open spec fn line_end(s: Seq<char>, from: int) -> int
    decreases s.len() - from,
{
    if from >= s.len() || s[from] == '\n' {
        from
    } else {
        line_end(s, from + 1)
    }
}

pub proof fn lemma_line_end_bounds(s: Seq<char>, from: int)
    requires
        0 <= from <= s.len(),
    ensures
        from <= line_end(s, from) <= s.len(),
        line_end(s, from) < s.len() ==> s[line_end(s, from)] == '\n',
        forall|k: int| from <= k < line_end(s, from) ==> #[trigger] s[k] != '\n',
    decreases s.len() - from,
{
    if from < s.len() && s[from] != '\n' {
        lemma_line_end_bounds(s, from + 1);
    }
}

/// The end of the line's content: `str::lines` drops one `'\r'` that
/// immediately precedes the `'\n'` (or the end of the text).
pub open spec fn content_end(s: Seq<char>, from: int) -> int {
    let e = line_end(s, from);
    if e > from && s[e - 1] == '\r' {
        e - 1
    } else {
        e
    }
}

/// `str::lines`, as the `(start, end)` bounds of each line in `s`, starting
/// the scan at `from`. The text after the last `'\n'` is a line only when it is
/// not empty.
pub open spec fn line_bounds_from(s: Seq<char>, from: int) -> Seq<(int, int)>
    decreases s.len() - from,
{
    if from < 0 || from >= s.len() {
        Seq::empty()
    } else {
        let e = line_end(s, from);
        if e >= s.len() {
            seq![(from, content_end(s, from))]
        } else {
            proof {
                lemma_line_end_bounds(s, from);
            }
            seq![(from, content_end(s, from))] + line_bounds_from(s, e + 1)
        }
    }
}

/// The bounds of every line `str::lines` yields for `s`.
pub open spec fn line_bounds(s: Seq<char>) -> Seq<(int, int)> {
    line_bounds_from(s, 0)
}

/// Scans forward from `from` for the next line, returning its content bounds
/// and where the line after it starts.
pub fn next_line(v: &[char], from: usize) -> (r: (usize, usize, usize))
    requires
        from < v.len(),
    ensures
        r.0 == from,
        (r.0 as int, r.1 as int) == line_bounds_from(v@, from as int)[0],
        r.2 as int == line_end(v@, from as int),
        from <= r.1 <= r.2 <= v.len(),
        r.2 < v.len() ==> v@[r.2 as int] == '\n',
        line_bounds_from(v@, from as int) == if r.2 >= v.len() {
            seq![(from as int, r.1 as int)]
        } else {
            seq![(from as int, r.1 as int)] + line_bounds_from(v@, r.2 + 1)
        },
{
    let mut e: usize = from;
    while e < v.len() && v[e] != '\n'
        invariant
            from <= e <= v.len(),
            line_end(v@, from as int) == line_end(v@, e as int),
        decreases v.len() - e,
    {
        e += 1;
    }
    proof {
        lemma_line_end_bounds(v@, from as int);
    }
    let end: usize = if e > from && v[e - 1] == '\r' {
        e - 1
    } else {
        e
    };
    (from, end, e)
}

// ─── Whitespace-separated tokens ──────────────────────────────────────────

/// Index of the first whitespace character at or after `from`, or `s.len()`.
pub open spec fn token_end(s: Seq<char>, from: int) -> int
    decreases s.len() - from,
{
    if from >= s.len() || is_ws(s[from]) {
        from
    } else {
        token_end(s, from + 1)
    }
}

pub proof fn lemma_token_end_bounds(s: Seq<char>, from: int)
    requires
        0 <= from <= s.len(),
    ensures
        from <= token_end(s, from) <= s.len(),
        token_end(s, from) < s.len() ==> is_ws(s[token_end(s, from)]),
        forall|k: int| from <= k < token_end(s, from) ==> !is_ws(#[trigger] s[k]),
    decreases s.len() - from,
{
    if from < s.len() && !is_ws(s[from]) {
        lemma_token_end_bounds(s, from + 1);
    }
}

/// `str::split_whitespace` on `s[from..]`, as the bounds of each token.
pub open spec fn tokens_from(s: Seq<char>, from: int) -> Seq<(int, int)>
    decreases s.len() - from,
{
    let a = skip_ws(s, from);
    if from < 0 || a >= s.len() {
        Seq::empty()
    } else {
        proof {
            if from <= s.len() {
                lemma_skip_ws_bounds(s, from);
                lemma_token_end_bounds(s, a);
            }
        }
        if a < from {
            Seq::empty()
        } else {
            seq![(a, token_end(s, a))] + tokens_from(s, token_end(s, a))
        }
    }
}

/// The next whitespace-separated token of `v[..to]` at or after `from`.
pub fn next_token(v: &[char], from: usize, to: usize) -> (r: Option<(usize, usize)>)
    requires
        from <= to <= v.len(),
    ensures
        match r {
            None => {
                &&& tokens_from(v@.subrange(0, to as int), from as int).len() == 0
                &&& skip_ws(v@.subrange(0, to as int), from as int) >= to
            },
            Some((a, b)) => {
                &&& from <= a < b <= to
                &&& a == skip_ws(v@.subrange(0, to as int), from as int)
                &&& b == token_end(v@.subrange(0, to as int), a as int)
                &&& tokens_from(v@.subrange(0, to as int), from as int) == seq![(a as int, b as int)]
                    + tokens_from(v@.subrange(0, to as int), b as int)
            },
        },
{
    let ghost w = v@.subrange(0, to as int);
    let mut a: usize = from;
    while a < to && is_whitespace(v[a])
        invariant
            from <= a <= to <= v.len(),
            skip_ws(w, from as int) == skip_ws(w, a as int),
            w == v@.subrange(0, to as int),
        decreases to - a,
    {
        assert(w[a as int] == v@[a as int]);
        a += 1;
    }
    proof {
        lemma_skip_ws_bounds(w, from as int);
    }
    if a >= to {
        return None;
    }
    let mut b: usize = a;
    while b < to && !is_whitespace(v[b])
        invariant
            a <= b <= to <= v.len(),
            token_end(w, a as int) == token_end(w, b as int),
            w == v@.subrange(0, to as int),
        decreases to - b,
    {
        assert(w[b as int] == v@[b as int]);
        b += 1;
    }
    proof {
        lemma_token_end_bounds(w, a as int);
    }
    Some((a, b))
}

/// How many whitespace-separated tokens `v[from..to]` holds.
pub fn count_tokens(v: &[char], from: usize, to: usize) -> (n: usize)
    requires
        from <= to <= v.len(),
    ensures
        n == tokens_from(v@.subrange(0, to as int), from as int).len(),
        n <= to - from,
{
    let ghost w = v@.subrange(0, to as int);
    let mut n: usize = 0;
    let mut at: usize = from;
    loop
        invariant
            from <= at <= to <= v.len(),
            n <= at - from,
            n + tokens_from(w, at as int).len() == tokens_from(w, from as int).len(),
            w == v@.subrange(0, to as int),
        decreases to - at,
    {
        match next_token(v, at, to) {
            None => return n,
            Some((_, b)) => {
                n += 1;
                at = b;
            },
        }
    }
}

// ─── Substrings ───────────────────────────────────────────────────────────

/// `pat` occurs in `s` at `at`.
pub open spec fn occurs_at(s: Seq<char>, pat: Seq<char>, at: int) -> bool {
    0 <= at && at + pat.len() <= s.len() && s.subrange(at, at + pat.len()) == pat
}

pub open spec fn contains_seq(s: Seq<char>, pat: Seq<char>) -> bool {
    exists|at: int| occurs_at(s, pat, at)
}

pub open spec fn starts_with(s: Seq<char>, pat: Seq<char>) -> bool {
    occurs_at(s, pat, 0)
}

pub open spec fn ends_with(s: Seq<char>, pat: Seq<char>) -> bool {
    occurs_at(s, pat, s.len() - pat.len())
}

/// `pat` occurs in `v[from..to]` starting at `at`.
pub fn occurs_in_at(v: &[char], to: usize, pat: &[char], at: usize) -> (b: bool)
    requires
        to <= v.len(),
    ensures
        b == occurs_at(v@.subrange(0, to as int), pat@, at as int),
{
    let ghost w = v@.subrange(0, to as int);
    if at > to || pat.len() > to - at {
        return false;
    }
    let mut k: usize = 0;
    while k < pat.len()
        invariant
            at + pat.len() <= to <= v.len(),
            0 <= k <= pat.len(),
            forall|j: int| 0 <= j < k ==> v@[at + j] == pat@[j],
            w == v@.subrange(0, to as int),
        decreases pat.len() - k,
    {
        if v[at + k] != pat[k] {
            proof {
                assert(w.subrange(at as int, at + pat@.len())[k as int] != pat@[k as int]);
            }
            return false;
        }
        k += 1;
    }
    proof {
        assert(w.subrange(at as int, at + pat@.len()) =~= pat@);
    }
    true
}

/// Lowest `at` in `[from, to)` where `pat` occurs in `v[..to]`.
pub open spec fn first_occurrence(s: Seq<char>, pat: Seq<char>, at: int) -> bool {
    occurs_at(s, pat, at) && forall|k: int| 0 <= k < at ==> !occurs_at(s, pat, k)
}

/// The first position of `pat` in `v[from..to]`.
pub fn find_in(v: &[char], from: usize, to: usize, pat: &[char]) -> (r: Option<usize>)
    requires
        from <= to <= v.len(),
    ensures
        match r {
            Some(at) => from <= at && occurs_at(v@.subrange(0, to as int), pat@, at as int)
                && forall|k: int|
                from <= k < at ==> !occurs_at(v@.subrange(0, to as int), pat@, k),
            None => forall|k: int|
                from <= k ==> !occurs_at(v@.subrange(0, to as int), pat@, k),
        },
{
    let mut at: usize = from;
    while at < to
        invariant
            from <= at <= to <= v.len(),
            forall|k: int| from <= k < at ==> !occurs_at(v@.subrange(0, to as int), pat@, k),
        decreases to - at,
    {
        if occurs_in_at(v, to, pat, at) {
            return Some(at);
        }
        at += 1;
    }
    if pat.len() == 0 {
        proof {
            assert(v@.subrange(0, to as int).subrange(to as int, to as int) =~= pat@);
        }
        return Some(to);
    }
    proof {
        assert forall|k: int| from <= k implies !occurs_at(v@.subrange(0, to as int), pat@, k) by {
            if k >= to {
                assert(v@.subrange(0, to as int).len() == to);
            }
        }
    }
    None
}

/// Whether `c` occurs in `v[from..to]`.
pub fn has_char(v: &[char], from: usize, to: usize, c: char) -> (b: bool)
    requires
        from <= to <= v.len(),
    ensures
        b == exists|k: int| from <= k < to && v@[k] == c,
{
    let mut k: usize = from;
    while k < to
        invariant
            from <= k <= to <= v.len(),
            forall|j: int| from <= j < k ==> v@[j] != c,
        decreases to - k,
    {
        if v[k] == c {
            return true;
        }
        k += 1;
    }
    false
}

// ─── Splitting on a separator ─────────────────────────────────────────────

/// Index of the first `sep` in `s[from..]`, or `s.len()`.
pub open spec fn sep_end(s: Seq<char>, from: int, sep: char) -> int
    decreases s.len() - from,
{
    if from >= s.len() || s[from] == sep {
        from
    } else {
        sep_end(s, from + 1, sep)
    }
}

pub proof fn lemma_sep_end_bounds(s: Seq<char>, from: int, sep: char)
    requires
        0 <= from <= s.len(),
    ensures
        from <= sep_end(s, from, sep) <= s.len(),
        sep_end(s, from, sep) < s.len() ==> s[sep_end(s, from, sep)] == sep,
        forall|k: int| from <= k < sep_end(s, from, sep) ==> #[trigger] s[k] != sep,
    decreases s.len() - from,
{
    if from < s.len() && s[from] != sep {
        lemma_sep_end_bounds(s, from + 1, sep);
    }
}

/// `str::split(sep)` on `s[from..]`, as the bounds of each piece — always at
/// least one piece, empty pieces included.
pub open spec fn split_from(s: Seq<char>, from: int, sep: char) -> Seq<(int, int)>
    decreases s.len() - from,
{
    if from < 0 || from > s.len() {
        Seq::empty()
    } else {
        let e = sep_end(s, from, sep);
        if e >= s.len() {
            seq![(from, s.len() as int)]
        } else {
            proof {
                lemma_sep_end_bounds(s, from, sep);
            }
            seq![(from, e)] + split_from(s, e + 1, sep)
        }
    }
}

/// The end of the piece of `v[..to]` starting at `from`: the next `sep`, or
/// `to`.
pub fn piece_end(v: &[char], from: usize, to: usize, sep: char) -> (e: usize)
    requires
        from <= to <= v.len(),
    ensures
        e as int == sep_end(v@.subrange(0, to as int), from as int, sep),
        from <= e <= to,
        e < to ==> v@[e as int] == sep,
        split_from(v@.subrange(0, to as int), from as int, sep) == if e >= to {
            seq![(from as int, to as int)]
        } else {
            seq![(from as int, e as int)] + split_from(v@.subrange(0, to as int), e + 1, sep)
        },
{
    let ghost w = v@.subrange(0, to as int);
    let mut e: usize = from;
    while e < to && v[e] != sep
        invariant
            from <= e <= to <= v.len(),
            w == v@.subrange(0, to as int),
            sep_end(w, from as int, sep) == sep_end(w, e as int, sep),
        decreases to - e,
    {
        assert(w[e as int] == v@[e as int]);
        e += 1;
    }
    proof {
        lemma_sep_end_bounds(w, from as int, sep);
    }
    e
}

/// Trimming `s[from..to]` in place and trimming the subrange on its own find
/// the same characters.
pub proof fn lemma_trim_shift(s: Seq<char>, from: int, to: int)
    requires
        0 <= from <= to <= s.len(),
    ensures
        ({
            let (a, b) = trim_bounds(s, from, to);
            let (a2, b2) = trim_bounds(s.subrange(from, to), 0, to - from);
            a2 == a - from && b2 == b - from && from <= a <= b <= to
        }),
{
    let w = s.subrange(0, to);
    let t = s.subrange(from, to);
    lemma_skip_ws_shift(w, t.subrange(0, to - from), from, from);
    let a = skip_ws(w, from);
    lemma_skip_ws_bounds(w, from);
    lemma_back_ws_shift(s, t, from, a, to);
    lemma_back_ws_bounds(s, a, to);
}

proof fn lemma_skip_ws_shift(w: Seq<char>, t: Seq<char>, off: int, i: int)
    requires
        0 <= off <= i <= w.len(),
        t.len() == w.len() - off,
        forall|k: int| 0 <= k < t.len() ==> t[k] == w[k + off],
    ensures
        skip_ws(t, i - off) == skip_ws(w, i) - off,
    decreases w.len() - i,
{
    if i < w.len() && is_ws(w[i]) {
        lemma_skip_ws_shift(w, t, off, i + 1);
    }
}

proof fn lemma_back_ws_shift(s: Seq<char>, t: Seq<char>, off: int, a: int, b: int)
    requires
        0 <= off <= a <= b <= s.len(),
        off + t.len() <= s.len(),
        b - off <= t.len(),
        forall|k: int| 0 <= k < t.len() ==> t[k] == s[k + off],
    ensures
        back_ws(t, a - off, b - off) == back_ws(s, a, b) - off,
    decreases b - a,
{
    if b > a && is_ws(s[b - 1]) {
        lemma_back_ws_shift(s, t, off, a, b - 1);
    }
}

/// A copy of `v[from..to]`.
pub fn copy_of(v: &[char], from: usize, to: usize) -> (w: Vec<char>)
    requires
        from <= to <= v.len(),
    ensures
        w@ == v@.subrange(from as int, to as int),
{
    let mut w: Vec<char> = Vec::new();
    let mut i: usize = from;
    while i < to
        invariant
            from <= i <= to <= v.len(),
            w@ == v@.subrange(from as int, i as int),
        decreases to - i,
    {
        w.push(v[i]);
        proof {
            assert(v@.subrange(from as int, i + 1) =~= v@.subrange(from as int, i as int).push(v@[i as int]));
        }
        i += 1;
    }
    w
}

/// Whether `a` and `b` hold the same characters.
pub fn eq_chars(a: &[char], b: &[char]) -> (r: bool)
    ensures
        r == (a@ == b@),
{
    if a.len() != b.len() {
        return false;
    }
    let mut k: usize = 0;
    while k < a.len()
        invariant
            a.len() == b.len(),
            0 <= k <= a.len(),
            forall|j: int| 0 <= j < k ==> a@[j] == b@[j],
        decreases a.len() - k,
    {
        if a[k] != b[k] {
            return false;
        }
        k += 1;
    }
    proof {
        assert(a@ =~= b@);
    }
    true
}

/// ASCII whitespace, as `u8::is_ascii_whitespace` counts it.
pub open spec fn is_ascii_ws(c: char) -> bool {
    c == ' ' || c == '\t' || c == '\n' || c == '\x0C' || c == '\r'
}

/// Whether `t` holds an ASCII whitespace character.
pub open spec fn has_ascii_ws(t: Seq<char>) -> bool {
    exists|k: int| 0 <= k < t.len() && is_ascii_ws(#[trigger] t[k])
}

/// Whether `v[from..to]` holds an ASCII whitespace character.
pub fn any_ascii_ws(v: &[char], from: usize, to: usize) -> (b: bool)
    requires
        from <= to <= v.len(),
    ensures
        b == has_ascii_ws(v@.subrange(from as int, to as int)),
{
    let ghost t = v@.subrange(from as int, to as int);
    let mut k: usize = from;
    while k < to
        invariant
            from <= k <= to <= v.len(),
            t == v@.subrange(from as int, to as int),
            forall|j: int| 0 <= j < k - from ==> !is_ascii_ws(#[trigger] t[j]),
        decreases to - k,
    {
        let c = v[k];
        if c == ' ' || c == '\t' || c == '\n' || c == '\x0C' || c == '\r' {
            proof {
                assert(is_ascii_ws(t[k - from]));
            }
            return true;
        }
        k += 1;
    }
    false
}

/// The length of `s` encoded in UTF-8, in bytes — what `str::len` counts.
pub open spec fn utf8_len(s: Seq<char>) -> nat
    decreases s.len(),
{
    if s.len() == 0 {
        0
    } else {
        utf8_len(s.drop_last()) + utf8_width(s.last())
    }
}

/// The number of bytes UTF-8 encodes `c` in.
pub open spec fn utf8_width(c: char) -> nat {
    if (c as u32) < 0x80 {
        1
    } else if (c as u32) < 0x800 {
        2
    } else if (c as u32) < 0x1_0000 {
        3
    } else {
        4
    }
}

proof fn lemma_utf8_len_grows(s: Seq<char>, k: int)
    requires
        0 <= k <= s.len(),
    ensures
        utf8_len(s.take(k)) <= utf8_len(s),
    decreases s.len() - k,
{
    if k < s.len() {
        lemma_utf8_len_grows(s, k + 1);
        assert(s.take(k + 1).drop_last() =~= s.take(k));
    } else {
        assert(s.take(k) =~= s);
    }
}

/// Whether `v[from..to]` is longer than `limit` bytes in UTF-8.
pub fn utf8_len_exceeds(v: &[char], from: usize, to: usize, limit: usize) -> (b: bool)
    requires
        from <= to <= v.len(),
        limit <= usize::MAX - 4,
    ensures
        b == (utf8_len(v@.subrange(from as int, to as int)) > limit),
{
    let ghost t = v@.subrange(from as int, to as int);
    let mut n: usize = 0;
    let mut k: usize = from;
    while k < to
        invariant
            from <= k <= to <= v.len(),
            t == v@.subrange(from as int, to as int),
            limit <= usize::MAX - 4,
            n == utf8_len(t.take(k - from)),
            n <= limit,
        decreases to - k,
    {
        let c = v[k];
        let width: usize = if (c as u32) < 0x80 {
            1
        } else if (c as u32) < 0x800 {
            2
        } else if (c as u32) < 0x1_0000 {
            3
        } else {
            4
        };
        proof {
            assert(t.take(k - from + 1).drop_last() =~= t.take(k - from));
            assert(t[k - from] == c);
        }
        n = n + width;
        k += 1;
        if n > limit {
            proof {
                lemma_utf8_len_grows(t, k - from);
            }
            return true;
        }
    }
    proof {
        assert(t.take(t.len() as int) =~= t);
    }
    false
}

pub proof fn lemma_len_le_utf8_len(s: Seq<char>)
    ensures
        s.len() <= utf8_len(s),
    decreases s.len(),
{
    if s.len() > 0 {
        lemma_len_le_utf8_len(s.drop_last());
    }
}

// ─── Building text ────────────────────────────────────────────────────────

/// What std's `Debug` for `str` writes for `s`: the text in double quotes,
/// with escapes.
pub uninterp spec fn str_debug(s: Seq<char>) -> Seq<char>;

/// `format!("{:?}", s)`: std's `Debug` rendering of a string, named by
/// [`str_debug`]; nothing more is stated of it.
#[verifier::external_body]
pub fn debug_quoted(s: &str) -> (r: String)
    ensures
        r@ == str_debug(s@),
{
    format!("{:?}", s)
}

/// The decimal digit `d` as a character.
pub open spec fn digit_char(d: nat) -> char {
    (48 + d) as char
}

/// `n` in decimal, as std's `Display` for integers writes it.
pub open spec fn decimal_text(n: nat) -> Seq<char>
    decreases n,
{
    if n < 10 {
        seq![digit_char(n)]
    } else {
        decimal_text(n / 10).push(digit_char(n % 10))
    }
}

/// Appends `n` in decimal.
pub fn push_decimal(out: &mut Vec<char>, n: usize)
    ensures
        final(out)@ == old(out)@ + decimal_text(n as nat),
    decreases n,
{
    if n >= 10 {
        push_decimal(out, n / 10);
    }
    let d: u8 = (n % 10) as u8;
    let c = (d + 48) as char;
    proof {
        assert(c == digit_char((n % 10) as nat));
    }
    out.push(c);
    proof {
        if n < 10 {
            assert(decimal_text(n as nat) =~= seq![digit_char(n as nat)]);
        }
    }
}

/// Appends the characters of `s`.
pub fn push_str(out: &mut Vec<char>, s: &str)
    ensures
        final(out)@ == old(out)@ + s@,
{
    let ghost start = out@;
    for c in it: s.chars()
        invariant
            it.seq() == s@,
            out@ == start + it.seq().take(it.index() as int),
    {
        out.push(c);
        proof {
            assert(out@ =~= start + it.seq().take(it.index() + 1));
        }
    }
    proof {
        assert(s@.take(s@.len() as int) =~= s@);
    }
}

/// Appends `s`.
pub fn push_chars(out: &mut Vec<char>, s: &[char])
    ensures
        final(out)@ == old(out)@ + s@,
{
    let ghost start = out@;
    let mut k: usize = 0;
    while k < s.len()
        invariant
            k <= s.len(),
            out@ == start + s@.take(k as int),
        decreases s.len() - k,
    {
        out.push(s[k]);
        k += 1;
        proof {
            assert(out@ =~= start + s@.take(k as int));
        }
    }
    proof {
        assert(s@.take(s@.len() as int) =~= s@);
    }
}

} // verus!
