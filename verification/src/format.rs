//! Rule-list format detection.
//!
//! Format is detected once per list, by sampling its content lines — not per
//! line.

use vstd::prelude::*;

use crate::text::{
    char_is_alpha, char_is_digit, char_is_hex, chars_of, contains_seq, ends_with, find_in,
    is_alnum, is_alpha, is_digit, is_hex, line_bounds, line_bounds_from, next_line, next_token,
    occurs_at, occurs_in_at, starts_with, tokens_from, trim_bounds, trim_range, line_end, back_ws, is_ws,
    lemma_line_end_bounds, content_end, skip_ws, lemma_skip_ws_bounds,
};

verus! {

/// One of the rule-list formats the engine supports. EasyList, uBlock Origin
/// and AdGuard share one syntax family and therefore one parser (`Adblock`).
#[derive(Debug, Clone, Copy, PartialEq, Eq, Structural)]
pub enum RuleFormat {
    Hosts,
    PlainDomainList,
    Adblock,
}

/// How many content lines [`detect_format`] weighs before deciding.
pub const SAMPLE_LINES: usize = 200;

// ─── Line shapes ──────────────────────────────────────────────────────────

/// Dotted decimal: digits and dots only, at least one dot, and no empty part
/// between, before or after them.
pub open spec fn dotted_decimal(t: Seq<char>) -> bool {
    &&& t.len() > 0
    &&& forall|k: int| 0 <= k < t.len() ==> is_digit(#[trigger] t[k]) || t[k] == '.'
    &&& t[0] != '.'
    &&& t[t.len() - 1] != '.'
    &&& forall|k: int| 0 <= k < t.len() - 1 ==> !(#[trigger] t[k] == '.' && t[k + 1] == '.')
}

pub open spec fn holds(t: Seq<char>, c: char) -> bool {
    exists|k: int| 0 <= k < t.len() && t[k] == c
}

/// Loose IPv4/IPv6 shape check for hosts-line detection — not full
/// validation: dotted decimal when the token has a `.` and no `:`, otherwise
/// hex digits and colons when it has a `:`.
pub open spec fn spec_looks_like_ip(t: Seq<char>) -> bool {
    if holds(t, '.') && !holds(t, ':') {
        dotted_decimal(t)
    } else if holds(t, ':') {
        forall|k: int| 0 <= k < t.len() ==> is_hex(#[trigger] t[k]) || t[k] == ':'
    } else {
        false
    }
}

/// A `$` directly followed by a letter or `~` — an option name.
pub open spec fn has_option_marker(l: Seq<char>) -> bool {
    exists|k: int|
        0 <= k && k + 1 < l.len() && #[trigger] l[k] == '$' && (is_alpha(l[k + 1]) || l[k + 1]
            == '~')
}

/// Markers a hosts entry or a bare domain can never contain.
pub open spec fn spec_looks_like_adblock(l: Seq<char>) -> bool {
    ||| starts_with(l, seq!['|', '|'])
    ||| starts_with(l, seq!['@', '@'])
    ||| starts_with(l, seq!['|'])
    ||| ends_with(l, seq!['|'])
    ||| contains_seq(l, seq!['#', '#'])
    ||| contains_seq(l, seq!['#', '@', '#'])
    ||| contains_seq(l, seq!['#', '?', '#'])
    ||| contains_seq(l, seq!['#', '$', '#'])
    ||| holds(l, '^')
    ||| holds(l, '/')
    ||| has_option_marker(l)
}

pub open spec fn is_bare_domain_char(c: char) -> bool {
    is_alnum(c) || c == '.' || c == '-' || c == '_'
}

/// One non-empty token made only of characters a bare domain line may hold.
pub open spec fn spec_looks_like_bare_domain(l: Seq<char>) -> bool {
    l.len() > 0 && forall|k: int| 0 <= k < l.len() ==> is_bare_domain_char(#[trigger] l[k])
}

/// The format one trimmed content line looks like, or `None`.
pub open spec fn spec_classify_line(l: Seq<char>) -> Option<RuleFormat> {
    let toks = tokens_from(l, 0);
    if toks.len() >= 2 && spec_looks_like_ip(l.subrange(toks[0].0, toks[0].1)) {
        Some(RuleFormat::Hosts)
    } else if spec_looks_like_adblock(l) {
        Some(RuleFormat::Adblock)
    } else if spec_looks_like_bare_domain(l) {
        Some(RuleFormat::PlainDomainList)
    } else {
        None
    }
}

pub fn looks_like_ip(t: &[char]) -> (b: bool)
    ensures
        b == spec_looks_like_ip(t@),
{
    let mut dot = false;
    let mut colon = false;
    let mut k: usize = 0;
    while k < t.len()
        invariant
            0 <= k <= t.len(),
            dot == exists|j: int| 0 <= j < k && t@[j] == '.',
            colon == exists|j: int| 0 <= j < k && t@[j] == ':',
        decreases t.len() - k,
    {
        if t[k] == '.' {
            dot = true;
        }
        if t[k] == ':' {
            colon = true;
        }
        k += 1;
    }
    if dot && !colon {
        if t[0] == '.' || t[t.len() - 1] == '.' {
            return false;
        }
        let mut k: usize = 0;
        while k < t.len()
            invariant
                0 <= k <= t.len(),
                t.len() > 0,
                holds(t@, '.') && !holds(t@, ':'),
                t@[0] != '.',
                t@[t@.len() - 1] != '.',
                forall|j: int| 0 <= j < k ==> is_digit(#[trigger] t@[j]) || t@[j] == '.',
                forall|j: int| 0 <= j < k && j < t.len() - 1 ==> !(#[trigger] t@[j] == '.' && t@[j + 1]
                    == '.'),
            decreases t.len() - k,
        {
            let c = t[k];
            if !(char_is_digit(c) || c == '.') {
                proof {
                    assert(!(is_digit(t@[k as int]) || t@[k as int] == '.'));
                }
                return false;
            }
            if c == '.' && k + 1 < t.len() && t[k + 1] == '.' {
                return false;
            }
            k += 1;
        }
        true
    } else if colon {
        let mut k: usize = 0;
        while k < t.len()
            invariant
                0 <= k <= t.len(),
                holds(t@, ':'),
                forall|j: int| 0 <= j < k ==> is_hex(#[trigger] t@[j]) || t@[j] == ':',
            decreases t.len() - k,
        {
            let c = t[k];
            if !(char_is_hex(c) || c == ':') {
                proof {
                    assert(!(is_hex(t@[k as int]) || t@[k as int] == ':'));
                }
                return false;
            }
            k += 1;
        }
        true
    } else {
        false
    }
}

/// Whether `c` occurs in `l`.
pub fn has_char_in(l: &[char], c: char) -> (b: bool)
    ensures
        b == holds(l@, c),
{
    let mut k: usize = 0;
    while k < l.len()
        invariant
            0 <= k <= l.len(),
            forall|j: int| 0 <= j < k ==> l@[j] != c,
        decreases l.len() - k,
    {
        if l[k] == c {
            return true;
        }
        k += 1;
    }
    false
}

/// Whether `pat` occurs anywhere in `l`.
pub fn contains_in(l: &[char], pat: &[char]) -> (b: bool)
    ensures
        b == contains_seq(l@, pat@),
{
    proof {
        assert(l@.subrange(0, l@.len() as int) =~= l@);
    }
    match find_in(l, 0, l.len(), pat) {
        Some(_) => true,
        None => {
            proof {
                assert forall|k: int| !occurs_at(l@, pat@, k) by {
                    if k >= 0 {
                    }
                }
            }
            false
        },
    }
}

pub fn starts_with_in(l: &[char], pat: &[char]) -> (b: bool)
    ensures
        b == starts_with(l@, pat@),
{
    proof {
        assert(l@.subrange(0, l@.len() as int) =~= l@);
    }
    occurs_in_at(l, l.len(), pat, 0)
}

pub fn ends_with_in(l: &[char], pat: &[char]) -> (b: bool)
    ensures
        b == ends_with(l@, pat@),
{
    proof {
        assert(l@.subrange(0, l@.len() as int) =~= l@);
    }
    if pat.len() > l.len() {
        return false;
    }
    occurs_in_at(l, l.len(), pat, l.len() - pat.len())
}

pub fn looks_like_adblock(l: &[char]) -> (b: bool)
    ensures
        b == spec_looks_like_adblock(l@),
{
    let pipes = ['|', '|'];
    let ats = ['@', '@'];
    let pipe = ['|'];
    let m1 = ['#', '#'];
    let m2 = ['#', '@', '#'];
    let m3 = ['#', '?', '#'];
    let m4 = ['#', '$', '#'];
    proof {
        assert(pipes@ == seq!['|', '|']);
        assert(ats@ == seq!['@', '@']);
        assert(pipe@ == seq!['|']);
        assert(m1@ == seq!['#', '#']);
        assert(m2@ == seq!['#', '@', '#']);
        assert(m3@ == seq!['#', '?', '#']);
        assert(m4@ == seq!['#', '$', '#']);
    }
    if starts_with_in(l, pipes.as_slice()) || starts_with_in(l, ats.as_slice()) || starts_with_in(
        l,
        pipe.as_slice(),
    ) || ends_with_in(l, pipe.as_slice()) || contains_in(l, m1.as_slice()) || contains_in(
        l,
        m2.as_slice(),
    ) || contains_in(l, m3.as_slice()) || contains_in(l, m4.as_slice()) || has_char_in(l, '^')
        || has_char_in(l, '/') {
        return true;
    }
    let mut k: usize = 0;
    while k < l.len()
        invariant
            0 <= k <= l.len(),
            forall|j: int|
                0 <= j < k && j + 1 < l@.len() ==> !(#[trigger] l@[j] == '$' && (is_alpha(l@[j + 1])
                    || l@[j + 1] == '~')),
        decreases l.len() - k,
    {
        if l[k] == '$' && k + 1 < l.len() && (char_is_alpha(l[k + 1]) || l[k + 1] == '~') {
            return true;
        }
        k += 1;
    }
    false
}

pub fn looks_like_bare_domain(l: &[char]) -> (b: bool)
    ensures
        b == spec_looks_like_bare_domain(l@),
{
    if l.len() == 0 {
        return false;
    }
    let mut k: usize = 0;
    while k < l.len()
        invariant
            0 <= k <= l.len(),
            forall|j: int| 0 <= j < k ==> is_bare_domain_char(#[trigger] l@[j]),
        decreases l.len() - k,
    {
        let c = l[k];
        if !(crate::text::char_is_alnum(c) || c == '.' || c == '-' || c == '_') {
            return false;
        }
        k += 1;
    }
    true
}

/// Classifies one trimmed content line, or `None` when it fits no format.
pub fn classify_line(l: &[char]) -> (r: Option<RuleFormat>)
    ensures
        r == spec_classify_line(l@),
{
    proof {
        assert(l@.subrange(0, l@.len() as int) =~= l@);
    }
    if let Some((a, b)) = next_token(l, 0, l.len()) {
        if let Some(_) = next_token(l, b, l.len()) {
            if looks_like_ip(&l[a..b]) {
                return Some(RuleFormat::Hosts);
            }
        }
    }
    if looks_like_adblock(l) {
        return Some(RuleFormat::Adblock);
    }
    if looks_like_bare_domain(l) {
        return Some(RuleFormat::PlainDomainList);
    }
    None
}

// ─── Sampling ─────────────────────────────────────────────────────────────

/// A line `detect_format` skips: blank, or a `#`, `!` or `[` comment/header.
pub open spec fn is_ignorable(l: Seq<char>) -> bool {
    l.len() == 0 || l[0] == '#' || l[0] == '!' || l[0] == '['
}

/// What one line contributes to the sample: nothing when ignorable, else its
/// classification (which may itself be "no format").
pub open spec fn sample_of(s: Seq<char>, line: (int, int)) -> Option<Option<RuleFormat>> {
    let (a, b) = trim_bounds(s, line.0, line.1);
    let l = s.subrange(a, b);
    if is_ignorable(l) {
        None
    } else {
        Some(spec_classify_line(l))
    }
}

/// The classification of every sampled line, in order.
pub open spec fn samples(s: Seq<char>, lines: Seq<(int, int)>) -> Seq<Option<RuleFormat>>
    decreases lines.len(),
{
    if lines.len() == 0 {
        Seq::empty()
    } else {
        let rest = samples(s, lines.drop_last());
        match sample_of(s, lines.last()) {
            None => rest,
            Some(c) => rest.push(c),
        }
    }
}

pub proof fn lemma_samples_append(s: Seq<char>, a: Seq<(int, int)>, b: Seq<(int, int)>)
    ensures
        samples(s, a + b) == samples(s, a) + samples(s, b),
    decreases b.len(),
{
    if b.len() == 0 {
        assert(a + b =~= a);
        assert(samples(s, b) =~= Seq::<Option<RuleFormat>>::empty());
        assert(samples(s, a) + samples(s, b) =~= samples(s, a));
    } else {
        assert((a + b).drop_last() =~= a + b.drop_last());
        lemma_samples_append(s, a, b.drop_last());
        match sample_of(s, b.last()) {
            None => {},
            Some(c) => {
                assert(samples(s, a) + samples(s, b.drop_last()).push(c) =~= (samples(s, a)
                    + samples(s, b.drop_last())).push(c));
            },
        }
    }
}

pub open spec fn count_of(v: Seq<Option<RuleFormat>>, f: RuleFormat) -> nat
    decreases v.len(),
{
    if v.len() == 0 {
        0
    } else {
        count_of(v.drop_last(), f) + if v.last() == Some(f) {
            1nat
        } else {
            0nat
        }
    }
}

/// The decision over a sample: strict majority for hosts, then adblock,
/// plain domain list otherwise — ties and empty samples included.
pub open spec fn decide(sample: Seq<Option<RuleFormat>>) -> RuleFormat {
    let hosts = count_of(sample, RuleFormat::Hosts);
    let adblock = count_of(sample, RuleFormat::Adblock);
    let domains = count_of(sample, RuleFormat::PlainDomainList);
    if hosts > adblock && hosts > domains {
        RuleFormat::Hosts
    } else if adblock > domains && adblock > hosts {
        RuleFormat::Adblock
    } else {
        RuleFormat::PlainDomainList
    }
}

/// The format of a list: the majority over its first [`SAMPLE_LINES`] content
/// lines (blank and `#`/`!`/`[` lines skipped, lines fitting no format counted
/// but voting for nothing).
pub open spec fn spec_detect_format(s: Seq<char>) -> RuleFormat {
    let all = samples(s, line_bounds(s));
    decide(if all.len() > SAMPLE_LINES {
        all.take(SAMPLE_LINES as int)
    } else {
        all
    })
}

pub fn detect_format_chars(v: &[char]) -> (f: RuleFormat)
    ensures
        f == spec_detect_format(v@),
{
    let mut hosts: usize = 0;
    let mut adblock: usize = 0;
    let mut domains: usize = 0;
    let mut sampled: usize = 0;
    let ghost mut done: Seq<(int, int)> = Seq::empty();
    let mut at: usize = 0;
    while at < v.len()
        invariant
            at <= v.len(),
            line_bounds(v@) == done + line_bounds_from(v@, at as int),
            sampled == samples(v@, done).len(),
            sampled < SAMPLE_LINES,
            hosts == count_of(samples(v@, done), RuleFormat::Hosts),
            adblock == count_of(samples(v@, done), RuleFormat::Adblock),
            domains == count_of(samples(v@, done), RuleFormat::PlainDomainList),
            hosts <= sampled && adblock <= sampled && domains <= sampled,
        decreases v.len() - at,
    {
        let (s, e, nl) = next_line(v, at);
        let (a, b) = trim_range(v, s, e);
        let ghost prev = done;
        proof {
            done = done.push((s as int, e as int));
            assert(done.drop_last() == prev);
            assert((prev + seq![(s as int, e as int)]) =~= done);
            if nl >= v.len() {
                assert(line_bounds_from(v@, at as int) == seq![(s as int, e as int)]);
                assert(line_bounds(v@) =~= done + line_bounds_from(v@, v.len() as int));
            } else {
                assert(line_bounds(v@) =~= done + line_bounds_from(v@, nl + 1));
            }
        }
        let l = &v[a..b];
        let ignorable = l.len() == 0 || l[0] == '#' || l[0] == '!' || l[0] == '[';
        proof {
            assert(l@ == v@.subrange(a as int, b as int));
            assert(ignorable == is_ignorable(l@));
            assert(done.last() == (s as int, e as int));
        }
        if !ignorable {
            let c = classify_line(l);
            proof {
                assert(sample_of(v@, (s as int, e as int)) == Some(c));
                assert(samples(v@, done) == samples(v@, prev).push(c));
                assert(samples(v@, done).drop_last() =~= samples(v@, prev));
            }
            match c {
                Some(RuleFormat::Hosts) => hosts += 1,
                Some(RuleFormat::Adblock) => adblock += 1,
                Some(RuleFormat::PlainDomainList) => domains += 1,
                None => {},
            }
            sampled += 1;
        } else {
            proof {
                assert(sample_of(v@, (s as int, e as int)).is_none());
                assert(samples(v@, done) == samples(v@, prev));
            }
        }
        if nl >= v.len() {
            at = v.len();
        } else {
            at = nl + 1;
        }
        if sampled >= SAMPLE_LINES {
            proof {
                let rest = line_bounds_from(v@, at as int);
                lemma_samples_append(v@, done, rest);
                assert(samples(v@, line_bounds(v@)).take(SAMPLE_LINES as int) =~= samples(
                    v@,
                    done,
                ));
            }
            return decide_counts(hosts, adblock, domains);
        }
    }
    proof {
        assert(line_bounds_from(v@, at as int) =~= Seq::<(int, int)>::empty());
        assert(done + Seq::<(int, int)>::empty() =~= done);
    }
    decide_counts(hosts, adblock, domains)
}

fn decide_counts(hosts: usize, adblock: usize, domains: usize) -> (f: RuleFormat)
    ensures
        f == (if hosts > adblock && hosts > domains {
            RuleFormat::Hosts
        } else if adblock > domains && adblock > hosts {
            RuleFormat::Adblock
        } else {
            RuleFormat::PlainDomainList
        }),
{
    if hosts > adblock && hosts > domains {
        RuleFormat::Hosts
    } else if adblock > domains && adblock > hosts {
        RuleFormat::Adblock
    } else {
        RuleFormat::PlainDomainList
    }
}

/// Detects a rule list's format by sampling its content lines and taking the
/// format most of them look like; a tie, or a list with no content line,
/// resolves to `PlainDomainList` — see [`spec_detect_format`].
pub fn detect_format(text: &str) -> (f: RuleFormat)
    ensures
        f == spec_detect_format(text@),
{
    let v = chars_of(text);
    detect_format_chars(v.as_slice())
}


// ─── Only the sample decides ──────────────────────────────────────────────

proof fn lemma_line_end_append(s: Seq<char>, t: Seq<char>, from: int)
    requires
        0 <= from < s.len(),
        s[s.len() - 1] == '\n',
    ensures
        line_end(s + t, from) == line_end(s, from),
        line_end(s, from) < s.len(),
    decreases s.len() - from,
{
    if s[from] != '\n' {
        lemma_line_end_append(s, t, from + 1);
    }
}

proof fn lemma_back_ws_append(s: Seq<char>, t: Seq<char>, from: int, to: int)
    requires
        0 <= from,
        0 <= to <= s.len(),
    ensures
        back_ws(s + t, from, to) == back_ws(s, from, to),
    decreases to - from,
{
    if to > from && is_ws(s[to - 1]) {
        lemma_back_ws_append(s, t, from, to - 1);
    }
}

proof fn lemma_bounds_append(s: Seq<char>, t: Seq<char>, from: int)
    requires
        0 <= from <= s.len(),
        s.len() > 0,
        s[s.len() - 1] == '\n',
    ensures
        line_bounds_from(s + t, from) == line_bounds_from(s, from) + line_bounds_from(s + t, s.len() as int),
        forall|k: int|
            0 <= k < line_bounds_from(s, from).len() ==> 0 <= (#[trigger] line_bounds_from(s, from)[k]).0
                <= line_bounds_from(s, from)[k].1 <= s.len(),
    decreases s.len() - from,
{
    if from == s.len() {
        assert(line_bounds_from(s, from) =~= Seq::<(int, int)>::empty());
        assert(line_bounds_from(s, from) + line_bounds_from(s + t, s.len() as int) =~= line_bounds_from(
            s + t,
            from,
        ));
    } else {
        lemma_line_end_append(s, t, from);
        lemma_line_end_bounds(s, from);
        let e = line_end(s, from);
        lemma_bounds_append(s, t, e + 1);
        assert(content_end(s + t, from) == content_end(s, from));
        assert(line_bounds_from(s + t, from) =~= seq![(from, content_end(s, from))] + line_bounds_from(
            s + t,
            e + 1,
        ));
        assert(line_bounds_from(s, from) =~= seq![(from, content_end(s, from))] + line_bounds_from(s, e + 1));
        assert(line_bounds_from(s + t, from) =~= line_bounds_from(s, from) + line_bounds_from(
            s + t,
            s.len() as int,
        ));
    }
}

proof fn lemma_samples_within(s: Seq<char>, t: Seq<char>, lines: Seq<(int, int)>)
    requires
        forall|k: int| 0 <= k < lines.len() ==> 0 <= (#[trigger] lines[k]).0 <= lines[k].1 <= s.len(),
    ensures
        samples(s + t, lines) == samples(s, lines),
    decreases lines.len(),
{
    if lines.len() > 0 {
        lemma_samples_within(s, t, lines.drop_last());
        let (a, b) = lines.last();
        assert((s + t).subrange(0, b) =~= s.subrange(0, b));
        let a2 = skip_ws(s.subrange(0, b), a);
        lemma_skip_ws_bounds(s.subrange(0, b), a);
        lemma_back_ws_append(s, t, a2, b);
        assert(trim_bounds(s + t, a, b) == trim_bounds(s, a, b));
        let (x, y) = trim_bounds(s, a, b);
        lemma_back_ws_le(s, x, b);
        assert(a <= x <= b);
        assert(x <= y <= b);
        assert((s + t).subrange(x, y) =~= s.subrange(x, y));
        assert(sample_of(s + t, lines.last()) == sample_of(s, lines.last()));
    }
}

proof fn lemma_back_ws_le(s: Seq<char>, from: int, to: int)
    ensures
        back_ws(s, from, to) <= to,
        from <= to ==> from <= back_ws(s, from, to),
    decreases to - from,
{
    if to > from && is_ws(s[to - 1]) {
        lemma_back_ws_le(s, from, to - 1);
    }
}

/// Only the sampled lines decide a list's format: once a text ending in a
/// line break holds [`SAMPLE_LINES`] sampled lines, nothing appended after
/// it changes what [`spec_detect_format`] says.
pub proof fn lemma_detect_ignores_what_follows(s: Seq<char>, t: Seq<char>)
    requires
        s.len() > 0,
        s[s.len() - 1] == '\n',
        samples(s, line_bounds(s)).len() >= SAMPLE_LINES,
    ensures
        spec_detect_format(s + t) == spec_detect_format(s),
{
    lemma_bounds_append(s, t, 0);
    let head = line_bounds(s);
    let rest = line_bounds_from(s + t, s.len() as int);
    lemma_samples_append(s + t, head, rest);
    lemma_samples_within(s, t, head);
    let a = samples(s, head);
    let b = samples(s + t, rest);
    assert(samples(s + t, line_bounds(s + t)) == a + b);
    assert((a + b).take(SAMPLE_LINES as int) =~= a.take(SAMPLE_LINES as int));
    if a.len() == SAMPLE_LINES {
        assert(a.take(SAMPLE_LINES as int) =~= a);
    }
}

} // verus!
