//! Which traffic interception leaves alone: hostname normalization, the
//! exclusion set with its parent-suffix match, and the validation of an
//! interception document into the scope that is served.

use vstd::prelude::*;
use crate::client::{in_network, ip_in_network, parse_selector, spec_parse_selector, ClientSelector, SelectorV};
use crate::ip::IpAddr;
use crate::text::{
    chars_of, debug_quoted, decimal_text, eq_chars, push_decimal, push_str, str_debug, into_boxed, lower_seq, string_of, to_lower_char,
    trim_bounds, trim_range,
};

verus! {

pub const MAX_NAME_LEN: usize = 253;

pub const MAX_LABEL_LEN: usize = 63;

pub const MAX_CLIENTS: usize = 256;

pub const MAX_EXCLUDE_DOMAINS: usize = 512;

// ─── Hostnames ────────────────────────────────────────────────────────────

/// ASCII lower-casing of one byte.
pub open spec fn lower_byte(b: u8) -> u8 {
    if 65 <= b && b <= 90 {
        (b + 32) as u8
    } else {
        b
    }
}

/// A byte that may stand anywhere in a label: `a-z`, `0-9`, `_`.
pub open spec fn is_word_byte(b: u8) -> bool {
    (97 <= b && b <= 122) || (48 <= b && b <= 57) || b == 95
}

/// Bytes since the last dot among the first `n` bytes of `raw`: the length
/// of the label in progress after `n` bytes.
pub open spec fn label_run(raw: Seq<u8>, n: nat) -> nat
    decreases n,
{
    if n == 0 || n > raw.len() {
        0
    } else if raw[n - 1] == 46 {
        0
    } else {
        label_run(raw, (n - 1) as nat) + 1
    }
}

/// Byte `i` of `raw` is acceptable: a dot or hyphen neither opens a label
/// nor ends the name; any other byte is a word byte (after lower-casing)
/// that keeps its label within `MAX_LABEL_LEN`.
pub open spec fn host_byte_ok(raw: Seq<u8>, i: int) -> bool {
    let c = lower_byte(raw[i]);
    if c == 46 || c == 45 {
        i > 0 && raw[i - 1] != 46 && i + 1 < raw.len()
    } else {
        is_word_byte(c) && label_run(raw, (i + 1) as nat) <= MAX_LABEL_LEN
    }
}

/// The lower-cased host, one character per byte.
pub open spec fn lowered_host(raw: Seq<u8>) -> Seq<char> {
    Seq::new(raw.len(), |i: int| lower_byte(raw[i]) as char)
}

/// What `normalize_host` gives back: the lower-cased name when it is 1 to
/// `MAX_NAME_LEN` bytes and every byte is acceptable.
pub open spec fn spec_normalize_host(raw: Seq<u8>) -> Option<Seq<char>> {
    if 1 <= raw.len() <= MAX_NAME_LEN && forall|i: int| 0 <= i < raw.len() ==> host_byte_ok(raw, i) {
        Some(lowered_host(raw))
    } else {
        None
    }
}

/// Validates and lower-cases a hostname.
pub fn normalize_host(raw: &[u8]) -> (r: Option<Box<str>>)
    ensures
        match r {
            Some(h) => spec_normalize_host(raw@) == Some(h@),
            None => spec_normalize_host(raw@) is None,
        },
{
    match normalized_chars(raw) {
        Some(host) => Some(into_boxed(string_of(host.as_slice()))),
        None => None,
    }
}

/// `normalize_host`, as characters.
fn normalized_chars(raw: &[u8]) -> (r: Option<Vec<char>>)
    ensures
        match r {
            Some(h) => spec_normalize_host(raw@) == Some(h@),
            None => spec_normalize_host(raw@) is None,
        },
{
    if raw.len() == 0 || raw.len() > MAX_NAME_LEN {
        return None;
    }
    let mut host: Vec<char> = Vec::new();
    let mut label: usize = 0;
    let last = raw.len() - 1;
    let mut index: usize = 0;
    while index < raw.len()
        invariant
            1 <= raw.len() <= MAX_NAME_LEN,
            last == raw.len() - 1,
            index <= raw.len(),
            label <= index,
            label == label_run(raw@, index as nat),
            host@ == Seq::new(index as nat, |i: int| lower_byte(raw@[i]) as char),
            forall|i: int| 0 <= i < index ==> host_byte_ok(raw@, i),
        decreases raw.len() - index,
    {
        let byte = raw[index];
        let ch: u8 = if 65 <= byte && byte <= 90 {
            byte + 32
        } else {
            byte
        };
        assert(ch == lower_byte(raw@[index as int]));
        let ghost opens = label == 0;
        proof {
            if index > 0 {
                assert(label_run(raw@, index as nat) == if raw@[index - 1] == 46 {
                    0
                } else {
                    label_run(raw@, (index - 1) as nat) + 1
                });
            }
            assert(opens <==> !(index > 0 && raw@[index - 1] != 46));
        }
        if ch == 46 {
            if label == 0 || index == last {
                proof {
                    assert(!host_byte_ok(raw@, index as int));
                }
                return None;
            }
            label = 0;
        } else if ch == 45 {
            if label == 0 || index == last {
                proof {
                    assert(!host_byte_ok(raw@, index as int));
                }
                return None;
            }
            label += 1;
        } else if (97 <= ch && ch <= 122) || (48 <= ch && ch <= 57) || ch == 95 {
            label += 1;
            if label > MAX_LABEL_LEN {
                proof {
                    assert(!host_byte_ok(raw@, index as int));
                }
                return None;
            }
        } else {
            proof {
                assert(!host_byte_ok(raw@, index as int));
            }
            return None;
        }
        host.push(ch as char);
        index += 1;
        proof {
            assert(host@ =~= Seq::new(index as nat, |i: int| lower_byte(raw@[i]) as char));
        }
    }
    proof {
        assert(host@ =~= lowered_host(raw@));
    }
    Some(host)
}

// ─── Entries as written ───────────────────────────────────────────────────

/// The end of `s[from..to]` once trailing dots are dropped, as
/// `trim_end_matches('.')` does.
pub open spec fn dots_end(s: Seq<char>, from: int, to: int) -> int
    decreases to - from,
{
    if to <= from || s[to - 1] != '.' {
        to
    } else {
        dots_end(s, from, to - 1)
    }
}

/// Every character is ASCII.
pub open spec fn all_ascii(t: Seq<char>) -> bool {
    forall|i: int| 0 <= i < t.len() ==> (t[i] as u32) < 128
}

/// The UTF-8 bytes of an all-ASCII text.
pub open spec fn ascii_bytes(t: Seq<char>) -> Seq<u8> {
    Seq::new(t.len(), |i: int| (t[i] as u32) as u8)
}

/// `normalize_host` on the UTF-8 bytes of `t`. A non-ASCII character
/// encodes to bytes no hostname admits.
pub open spec fn host_of_chars(t: Seq<char>) -> Option<Seq<char>> {
    if all_ascii(t) {
        spec_normalize_host(ascii_bytes(t))
    } else {
        None
    }
}

/// The host an entry names: surrounding whitespace and trailing dots
/// dropped, then normalized.
pub open spec fn entry_host(e: Seq<char>) -> Option<Seq<char>> {
    let (a, b) = trim_bounds(e, 0, e.len() as int);
    host_of_chars(e.subrange(a, dots_end(e, a, b)))
}

fn trim_dots(v: &[char], from: usize, to: usize) -> (r: usize)
    requires
        from <= to <= v.len(),
    ensures
        r == dots_end(v@, from as int, to as int),
        from <= r <= to,
{
    let mut b = to;
    while b > from && v[b - 1] == '.'
        invariant
            from <= b <= to <= v.len(),
            dots_end(v@, from as int, to as int) == dots_end(v@, from as int, b as int),
        decreases b - from,
    {
        b -= 1;
    }
    b
}

/// `normalize_host` on the bytes of `v[from..to]`.
fn host_of_range(v: &[char], from: usize, to: usize) -> (r: Option<Vec<char>>)
    requires
        from <= to <= v.len(),
    ensures
        match r {
            Some(h) => host_of_chars(v@.subrange(from as int, to as int)) == Some(h@),
            None => host_of_chars(v@.subrange(from as int, to as int)) is None,
        },
{
    let ghost t = v@.subrange(from as int, to as int);
    let mut bytes: Vec<u8> = Vec::new();
    let mut k = from;
    while k < to
        invariant
            from <= k <= to <= v.len(),
            t == v@.subrange(from as int, to as int),
            bytes@ == ascii_bytes(t.take(k - from)),
            all_ascii(t.take(k - from)),
        decreases to - k,
    {
        let u: u32 = v[k] as u32;
        if u >= 128 {
            proof {
                assert(t[k - from] == v@[k as int]);
                assert(!all_ascii(t));
            }
            return None;
        }
        bytes.push(u as u8);
        k += 1;
        proof {
            assert(bytes@ =~= ascii_bytes(t.take(k - from)));
        }
    }
    proof {
        assert(t.take(to - from) =~= t);
    }
    normalized_chars(bytes.as_slice())
}

/// The host of an entry as written.
fn host_of_entry(entry: &[char]) -> (r: Option<Vec<char>>)
    ensures
        match r {
            Some(h) => entry_host(entry@) == Some(h@),
            None => entry_host(entry@) is None,
        },
{
    let (a, b) = trim_range(entry, 0, entry.len());
    let c = trim_dots(entry, a, b);
    host_of_range(entry, a, c)
}

// ─── The exclusion set ────────────────────────────────────────────────────

/// An entry that does not name a host, as the user wrote it.
#[derive(Debug, Clone, PartialEq, Eq)]
pub struct InvalidExclusion(pub String);

/// Normalized hosts that interception leaves alone, with everything under
/// them.
#[derive(Debug, Clone)]
pub struct ExclusionSet {
    hosts: Vec<Vec<char>>,
}

/// The hosts of the entries, in order, or the first entry that names none.
pub open spec fn exclusion_hosts(entries: Seq<Seq<char>>) -> Result<Set<Seq<char>>, Seq<char>>
    decreases entries.len(),
{
    if entries.len() == 0 {
        Ok(Set::empty())
    } else {
        match exclusion_hosts(entries.drop_last()) {
            Err(e) => Err(e),
            Ok(s) => match entry_host(entries.last()) {
                None => Err(entries.last()),
                Some(h) => Ok(s.insert(h)),
            },
        }
    }
}

/// What `ExclusionSet::contains` normalizes a query to: trimmed, trailing
/// dots dropped, ASCII lower-cased.
pub open spec fn query_host(h: Seq<char>) -> Seq<char> {
    let (a, b) = trim_bounds(h, 0, h.len() as int);
    lower_seq(h.subrange(a, dots_end(h, a, b)))
}

/// `q` is listed, or one of its parents is: the part after any of its dots.
pub open spec fn listed_or_parent(set: Set<Seq<char>>, q: Seq<char>) -> bool {
    set.contains(q) || exists|i: int| 0 <= i < q.len() && q[i] == '.' && set.contains(q.skip(i + 1))
}

pub open spec fn views(hosts: Seq<Vec<char>>) -> Seq<Seq<char>> {
    hosts.map_values(|h: Vec<char>| h@)
}

impl View for ExclusionSet {
    type V = Set<Seq<char>>;

    closed spec fn view(&self) -> Set<Seq<char>> {
        views(self.hosts@).to_set()
    }
}

impl ExclusionSet {
    /// No host is held twice.
    pub closed spec fn wf(&self) -> bool {
        views(self.hosts@).no_duplicates()
    }

    /// The set of the hosts the entries name; the first entry that names
    /// none is the error.
    pub fn new(user: &[&str]) -> (r: Result<ExclusionSet, InvalidExclusion>)
        ensures
            match r {
                Ok(set) => set.wf() && exclusion_hosts(user@.map_values(|s: &str| s@)) == Ok::<
                    Set<Seq<char>>,
                    Seq<char>,
                >(set@),
                Err(e) => exclusion_hosts(user@.map_values(|s: &str| s@)) == Err::<
                    Set<Seq<char>>,
                    Seq<char>,
                >(e.0@),
            },
    {
        let ghost entries = user@.map_values(|s: &str| s@);
        let mut hosts: Vec<Vec<char>> = Vec::new();
        proof {
            assert(views(hosts@).to_set() =~= Set::empty());
            assert(entries.take(0).len() == 0);
        }
        let mut i: usize = 0;
        while i < user.len()
            invariant
                i <= user.len(),
                entries == user@.map_values(|s: &str| s@),
                exclusion_hosts(entries.take(i as int)) == Ok::<Set<Seq<char>>, Seq<char>>(
                    views(hosts@).to_set(),
                ),
                views(hosts@).no_duplicates(),
            decreases user.len() - i,
        {
            let entry = chars_of(user[i]);
            proof {
                assert(entries.take(i + 1).drop_last() =~= entries.take(i as int));
                assert(entries.take(i + 1).last() == entry@);
            }
            match host_of_entry(entry.as_slice()) {
                None => {
                    proof {
                        lemma_error_stands(entries, i + 1, entries.len() as int);
                        assert(entries.take(entries.len() as int) =~= entries);
                    }
                    return Err(InvalidExclusion(string_of(entry.as_slice())));
                },
                Some(host) => {
                    let ghost before = views(hosts@);
                    let ghost h = host@;
                    let found = position_of(&hosts, host.as_slice());
                    if found.is_none() {
                        hosts.push(host);
                        proof {
                            assert(views(hosts@) =~= before.push(h));
                            before.lemma_push_to_set_commute(h);
                        }
                    } else {
                        proof {
                            assert(before.to_set() =~= before.to_set().insert(h));
                        }
                    }
                },
            }
            i += 1;
        }
        proof {
            assert(entries.take(i as int) =~= entries);
        }
        Ok(ExclusionSet { hosts })
    }
}

impl ExclusionSet {
    /// How many distinct hosts are listed.
    pub fn len(&self) -> (n: usize)
        requires
            self.wf(),
        ensures
            n == self@.len(),
    {
        proof {
            views(self.hosts@).unique_seq_to_set();
        }
        self.hosts.len()
    }

    pub fn is_empty(&self) -> (b: bool)
        requires
            self.wf(),
        ensures
            b == (self@.len() == 0),
    {
        self.len() == 0
    }

    /// Whether `host`, or a parent of it, is listed. The query is trimmed,
    /// loses its trailing dots and is lower-cased first; it is not
    /// otherwise validated.
    pub fn contains(&self, host: &str) -> (b: bool)
        ensures
            b == listed_or_parent(self@, query_host(host@)),
    {
        let raw = chars_of(host);
        let (a, b) = trim_range(raw.as_slice(), 0, raw.len());
        let c = trim_dots(raw.as_slice(), a, b);
        let mut q: Vec<char> = Vec::new();
        let mut k = a;
        while k < c
            invariant
                a <= k <= c <= raw.len(),
                q@ == lower_seq(raw@.subrange(a as int, k as int)),
            decreases c - k,
        {
            q.push(to_lower_char(raw[k]));
            k += 1;
            proof {
                assert(q@ =~= lower_seq(raw@.subrange(a as int, k as int)));
            }
        }
        let ghost query = q@;
        assert(query == query_host(host@));
        if self.holds_suffix(q.as_slice(), 0) {
            assert(query.skip(0) =~= query);
            return true;
        }
        assert(query.skip(0) =~= query);
        let mut i: usize = 0;
        while i < q.len()
            invariant
                i <= q.len(),
                q@ == query,
                query == query_host(host@),
                !self@.contains(query),
                forall|j: int| 0 <= j < i && query[j] == '.' ==> !self@.contains(query.skip(j + 1)),
            decreases q.len() - i,
        {
            if q[i] == '.' && self.holds_suffix(q.as_slice(), i + 1) {
                assert(0 <= i < query.len() && query[i as int] == '.' && self@.contains(
                    query.skip(i + 1),
                ));
                return true;
            }
            i += 1;
        }
        false
    }

    /// Whether `q[from..]` is one of the hosts.
    fn holds_suffix(&self, q: &[char], from: usize) -> (b: bool)
        requires
            from <= q.len(),
        ensures
            b == self@.contains(q@.skip(from as int)),
    {
        let mut k: usize = 0;
        while k < self.hosts.len()
            invariant
                k <= self.hosts.len(),
                from <= q.len(),
                forall|j: int| 0 <= j < k ==> views(self.hosts@)[j] != q@.skip(from as int),
            decreases self.hosts.len() - k,
        {
            if eq_suffix(self.hosts[k].as_slice(), q, from) {
                assert(views(self.hosts@)[k as int] == q@.skip(from as int));
                return true;
            }
            k += 1;
        }
        false
    }
}

impl Default for ExclusionSet {
    fn default() -> (r: Self)
        ensures
            r.wf(),
            r@ == Set::<Seq<char>>::empty(),
    {
        let r = ExclusionSet { hosts: Vec::new() };
        assert(views(r.hosts@).to_set() =~= Set::<Seq<char>>::empty());
        r
    }
}

/// Whether `a` equals `q[from..]`.
fn eq_suffix(a: &[char], q: &[char], from: usize) -> (b: bool)
    requires
        from <= q.len(),
    ensures
        b == (a@ == q@.skip(from as int)),
{
    if a.len() != q.len() - from {
        return false;
    }
    let mut k: usize = 0;
    while k < a.len()
        invariant
            a.len() == q.len() - from,
            k <= a.len(),
            forall|j: int| 0 <= j < k ==> a@[j] == q@[from + j],
        decreases a.len() - k,
    {
        if a[k] != q[from + k] {
            return false;
        }
        k += 1;
    }
    assert(a@ =~= q@.skip(from as int));
    true
}

// ─── Interception documents ───────────────────────────────────────────────

/// A network of clients that interception applies to. A bare address is
/// the network of that one address.
#[derive(Debug, Clone, Copy, PartialEq, Eq, Structural)]
pub struct AllowedNet {
    pub address: IpAddr,
    pub prefix_len: u8,
}

/// An address, or `address/prefix`, surrounding whitespace aside.
#[verifier::opaque]
pub open spec fn spec_allowed_net(s: Seq<char>) -> Option<AllowedNet> {
    match spec_parse_selector(s) {
        Some(SelectorV::Ip(a)) => Some(AllowedNet { address: a, prefix_len: a.max_prefix() }),
        Some(SelectorV::Network { address, prefix_len }) => Some(
            AllowedNet { address, prefix_len },
        ),
        _ => None,
    }
}

impl AllowedNet {
    pub fn parse(s: &str) -> (r: Option<AllowedNet>)
        ensures
            r == spec_allowed_net(s@),
    {
        let v = chars_of(s);
        proof {
            assert(v@.subrange(0, v@.len() as int) =~= s@);
            reveal(spec_allowed_net);
        }
        match parse_selector(v.as_slice(), 0, v.len()) {
            Some(ClientSelector::Ip(a)) => {
                let prefix_len: u8 = match a {
                    IpAddr::V4(_) => 32,
                    IpAddr::V6(_) => 128,
                };
                Some(AllowedNet { address: a, prefix_len })
            },
            Some(ClientSelector::Network { address, prefix_len }) => Some(
                AllowedNet { address, prefix_len },
            ),
            _ => None,
        }
    }

    /// Whether `ip` lies in this network.
    pub fn contains(&self, ip: IpAddr) -> (b: bool)
        ensures
            b == in_network(ip, self.address, self.prefix_len),
    {
        ip_in_network(ip, self.address, self.prefix_len)
    }
}

/// The interception document as the user wrote it.
#[derive(Debug, Clone, PartialEq, Eq)]
pub struct InterceptionDocument {
    pub clients: Vec<String>,
    pub exclude_domains: Vec<String>,
}

/// Why a document is refused, naming the list and the entry.
#[derive(Debug, Clone, PartialEq, Eq)]
pub enum DocumentError {
    OverCap { list: &'static str, len: usize, cap: usize },
    InvalidEntry { list: &'static str, index: usize, entry: String },
    Duplicate { list: &'static str, index: usize, entry: String, duplicate_of: usize },
}

pub enum DocumentErrorV {
    OverCap { list: Seq<char>, len: usize, cap: usize },
    InvalidEntry { list: Seq<char>, index: usize, entry: Seq<char> },
    Duplicate { list: Seq<char>, index: usize, entry: Seq<char>, duplicate_of: usize },
}

impl View for DocumentError {
    type V = DocumentErrorV;

    open spec fn view(&self) -> DocumentErrorV {
        match self {
            DocumentError::OverCap { list, len, cap } => DocumentErrorV::OverCap {
                list: list@,
                len: *len,
                cap: *cap,
            },
            DocumentError::InvalidEntry { list, index, entry } => DocumentErrorV::InvalidEntry {
                list: list@,
                index: *index,
                entry: entry@,
            },
            DocumentError::Duplicate { list, index, entry, duplicate_of } =>
                DocumentErrorV::Duplicate {
                list: list@,
                index: *index,
                entry: entry@,
                duplicate_of: *duplicate_of,
            },
        }
    }
}

pub open spec fn strings_view(v: Seq<String>) -> Seq<Seq<char>> {
    v.map_values(|s: String| s@)
}

/// The networks of the client entries, in order; the first entry that is
/// no network, or repeats an earlier one, is the error.
pub open spec fn client_nets(entries: Seq<Seq<char>>) -> Result<Seq<AllowedNet>, DocumentErrorV>
    decreases entries.len(),
{
    if entries.len() == 0 {
        Ok(Seq::empty())
    } else {
        let i = entries.len() - 1;
        match client_nets(entries.drop_last()) {
            Err(e) => Err(e),
            Ok(nets) => match spec_allowed_net(entries[i]) {
                None => Err(
                    DocumentErrorV::InvalidEntry { list: "clients"@, index: i as usize, entry: entries[i] },
                ),
                Some(n) => if nets.contains(n) {
                    Err(
                        DocumentErrorV::Duplicate {
                            list: "clients"@,
                            index: i as usize,
                            entry: entries[i],
                            duplicate_of: nets.index_of(n) as usize,
                        },
                    )
                } else {
                    Ok(nets.push(n))
                },
            },
        }
    }
}

/// The hosts of the exclusion entries, in order; the first entry that names
/// no host, or repeats an earlier one once normalized, is the error.
pub open spec fn excluded_hosts(entries: Seq<Seq<char>>) -> Result<Seq<Seq<char>>, DocumentErrorV>
    decreases entries.len(),
{
    if entries.len() == 0 {
        Ok(Seq::empty())
    } else {
        let i = entries.len() - 1;
        match excluded_hosts(entries.drop_last()) {
            Err(e) => Err(e),
            Ok(hosts) => match entry_host(entries[i]) {
                None => Err(
                    DocumentErrorV::InvalidEntry {
                        list: "exclude_domains"@,
                        index: i as usize,
                        entry: entries[i],
                    },
                ),
                Some(h) => if hosts.contains(h) {
                    Err(
                        DocumentErrorV::Duplicate {
                            list: "exclude_domains"@,
                            index: i as usize,
                            entry: entries[i],
                            duplicate_of: hosts.index_of(h) as usize,
                        },
                    )
                } else {
                    Ok(hosts.push(h))
                },
            },
        }
    }
}

/// What compiling a document gives: both lists within their caps, then
/// every client entry, then every exclusion entry, checked in order.
pub open spec fn spec_compile(clients: Seq<Seq<char>>, domains: Seq<Seq<char>>) -> Result<
    (Seq<AllowedNet>, Seq<Seq<char>>),
    DocumentErrorV,
> {
    if clients.len() > MAX_CLIENTS {
        Err(
            DocumentErrorV::OverCap {
                list: "clients"@,
                len: clients.len() as usize,
                cap: MAX_CLIENTS,
            },
        )
    } else if domains.len() > MAX_EXCLUDE_DOMAINS {
        Err(
            DocumentErrorV::OverCap {
                list: "exclude_domains"@,
                len: domains.len() as usize,
                cap: MAX_EXCLUDE_DOMAINS,
            },
        )
    } else {
        match client_nets(clients) {
            Err(e) => Err(e),
            Ok(nets) => match excluded_hosts(domains) {
                Err(e) => Err(e),
                Ok(hosts) => Ok((nets, hosts)),
            },
        }
    }
}

/// The clients interception applies to and the hosts it leaves alone.
#[derive(Debug, Clone)]
pub struct InterceptionScope {
    clients: Vec<AllowedNet>,
    exclusions: ExclusionSet,
}

impl InterceptionScope {
    pub closed spec fn nets(&self) -> Seq<AllowedNet> {
        self.clients@
    }

    pub closed spec fn excluded(&self) -> Set<Seq<char>> {
        self.exclusions@
    }

    /// The excluded hosts in the order the document lists them.
    pub closed spec fn host_list(&self) -> Seq<Seq<char>> {
        views(self.exclusions.hosts@)
    }

    pub closed spec fn wf(&self) -> bool {
        self.exclusions.wf()
    }

    /// Whether `ip` lies in one of the client networks.
    pub fn intercepts(&self, ip: IpAddr) -> (b: bool)
        ensures
            b == exists|i: int|
                0 <= i < self.nets().len() && in_network(
                    ip,
                    #[trigger] self.nets()[i].address,
                    self.nets()[i].prefix_len,
                ),
    {
        let mut k: usize = 0;
        while k < self.clients.len()
            invariant
                k <= self.clients.len(),
                forall|j: int|
                    0 <= j < k ==> !in_network(
                        ip,
                        #[trigger] self.clients@[j].address,
                        self.clients@[j].prefix_len,
                    ),
            decreases self.clients.len() - k,
        {
            if self.clients[k].contains(ip) {
                assert(in_network(ip, self.nets()[k as int].address, self.nets()[k as int].prefix_len));
                return true;
            }
            k += 1;
        }
        false
    }

    /// Whether interception leaves `host` alone.
    pub fn excludes(&self, host: &str) -> (b: bool)
        ensures
            b == listed_or_parent(self.excluded(), query_host(host@)),
    {
        self.exclusions.contains(host)
    }

    pub fn client_count(&self) -> (n: usize)
        ensures
            n == self.nets().len(),
    {
        self.clients.len()
    }

    pub fn exclusion_count(&self) -> (n: usize)
        requires
            self.wf(),
        ensures
            n == self.excluded().len(),
    {
        self.exclusions.len()
    }
}

impl Default for InterceptionDocument {
    fn default() -> (r: Self)
        ensures
            r.clients@.len() == 0,
            r.exclude_domains@.len() == 0,
    {
        InterceptionDocument { clients: Vec::new(), exclude_domains: Vec::new() }
    }
}

impl Default for InterceptionScope {
    /// The scope that intercepts no client and excludes no host.
    fn default() -> (r: Self)
        ensures
            r.wf(),
            r.nets().len() == 0,
            r.excluded() == Set::<Seq<char>>::empty(),
    {
        InterceptionScope { clients: Vec::new(), exclusions: ExclusionSet::default() }
    }
}

/// A document together with the scope compiled from it.
#[derive(Debug, Clone)]
pub struct Active {
    pub document: InterceptionDocument,
    pub scope: InterceptionScope,
}

impl Default for Active {
    fn default() -> (r: Self)
        ensures
            r.document.clients@.len() == 0,
            r.document.exclude_domains@.len() == 0,
            r.scope.wf(),
            r.scope.nets().len() == 0,
            r.scope.excluded() == Set::<Seq<char>>::empty(),
    {
        Active { document: InterceptionDocument::default(), scope: InterceptionScope::default() }
    }
}

impl Active {
    /// Validates a document and compiles its scope; the document itself is
    /// kept as written.
    pub fn compile(document: InterceptionDocument) -> (r: Result<Active, DocumentError>)
        ensures
            match r {
                Ok(active) => active.document == document && active.scope.wf() && spec_compile(
                    strings_view(document.clients@),
                    strings_view(document.exclude_domains@),
                ) == Ok::<(Seq<AllowedNet>, Seq<Seq<char>>), DocumentErrorV>(
                    (active.scope.nets(), active.scope.host_list()),
                ) && active.scope.excluded() == active.scope.host_list().to_set(),
                Err(e) => spec_compile(
                    strings_view(document.clients@),
                    strings_view(document.exclude_domains@),
                ) == Err::<(Seq<AllowedNet>, Seq<Seq<char>>), DocumentErrorV>(e@),
            },
    {
        if document.clients.len() > MAX_CLIENTS {
            return Err(
                DocumentError::OverCap {
                    list: "clients",
                    len: document.clients.len(),
                    cap: MAX_CLIENTS,
                },
            );
        }
        if document.exclude_domains.len() > MAX_EXCLUDE_DOMAINS {
            return Err(
                DocumentError::OverCap {
                    list: "exclude_domains",
                    len: document.exclude_domains.len(),
                    cap: MAX_EXCLUDE_DOMAINS,
                },
            );
        }
        let clients = match compile_clients(&document.clients) {
            Ok(nets) => nets,
            Err(e) => {
                return Err(e);
            },
        };
        let hosts = match compile_exclusions(&document.exclude_domains) {
            Ok(hosts) => hosts,
            Err(e) => {
                return Err(e);
            },
        };
        Ok(Active { document, scope: InterceptionScope { clients, exclusions: ExclusionSet { hosts } } })
    }
}

fn compile_clients(entries: &Vec<String>) -> (r: Result<Vec<AllowedNet>, DocumentError>)
    ensures
        match r {
            Ok(nets) => client_nets(strings_view(entries@)) == Ok::<
                Seq<AllowedNet>,
                DocumentErrorV,
            >(nets@),
            Err(e) => client_nets(strings_view(entries@)) == Err::<
                Seq<AllowedNet>,
                DocumentErrorV,
            >(e@),
        },
{
    let ghost all = strings_view(entries@);
    let mut nets: Vec<AllowedNet> = Vec::new();
    let mut i: usize = 0;
    while i < entries.len()
        invariant
            i <= entries.len(),
            all == strings_view(entries@),
            client_nets(all.take(i as int)) == Ok::<Seq<AllowedNet>, DocumentErrorV>(nets@),
            nets@.no_duplicates(),
        decreases entries.len() - i,
    {
        let entry = &entries[i];
        proof {
            assert(all.take(i + 1).drop_last() =~= all.take(i as int));
            assert(all.take(i + 1)[i as int] == entry@);
        }
        match AllowedNet::parse(entry.as_str()) {
            None => {
                proof {
                    lemma_client_error_stands(all, i + 1, all.len() as int);
                    assert(all.take(all.len() as int) =~= all);
                }
                return Err(
                    DocumentError::InvalidEntry { list: "clients", index: i, entry: entry.clone() },
                );
            },
            Some(net) => {
                let found = net_position(&nets, net);
                if let Some(k) = found {
                    proof {
                        assert(nets@.index_of(net) == k);
                        lemma_client_error_stands(all, i + 1, all.len() as int);
                        assert(all.take(all.len() as int) =~= all);
                    }
                    return Err(
                        DocumentError::Duplicate {
                            list: "clients",
                            index: i,
                            entry: entry.clone(),
                            duplicate_of: k,
                        },
                    );
                }
                nets.push(net);
            },
        }
        i += 1;
    }
    proof {
        assert(all.take(i as int) =~= all);
    }
    Ok(nets)
}

/// Index of the first network equal to `net`.
fn net_position(nets: &Vec<AllowedNet>, net: AllowedNet) -> (r: Option<usize>)
    ensures
        match r {
            Some(k) => k < nets.len() && nets@[k as int] == net,
            None => !nets@.contains(net),
        },
{
    let mut k: usize = 0;
    while k < nets.len()
        invariant
            k <= nets.len(),
            forall|j: int| 0 <= j < k ==> nets@[j] != net,
        decreases nets.len() - k,
    {
        if nets[k] == net {
            return Some(k);
        }
        k += 1;
    }
    None
}

fn compile_exclusions(entries: &Vec<String>) -> (r: Result<Vec<Vec<char>>, DocumentError>)
    ensures
        match r {
            Ok(hosts) => views(hosts@).no_duplicates() && excluded_hosts(strings_view(entries@))
                == Ok::<Seq<Seq<char>>, DocumentErrorV>(views(hosts@)),
            Err(e) => excluded_hosts(strings_view(entries@)) == Err::<
                Seq<Seq<char>>,
                DocumentErrorV,
            >(e@),
        },
{
    let ghost all = strings_view(entries@);
    let mut hosts: Vec<Vec<char>> = Vec::new();
    let mut i: usize = 0;
    proof {
        assert(views(hosts@) =~= Seq::<Seq<char>>::empty());
    }
    while i < entries.len()
        invariant
            i <= entries.len(),
            all == strings_view(entries@),
            excluded_hosts(all.take(i as int)) == Ok::<Seq<Seq<char>>, DocumentErrorV>(
                views(hosts@),
            ),
            views(hosts@).no_duplicates(),
        decreases entries.len() - i,
    {
        let entry = &entries[i];
        proof {
            assert(all.take(i + 1).drop_last() =~= all.take(i as int));
            assert(all.take(i + 1)[i as int] == entry@);
        }
        let chars = chars_of(entry.as_str());
        match host_of_entry(chars.as_slice()) {
            None => {
                proof {
                    lemma_host_error_stands(all, i + 1, all.len() as int);
                    assert(all.take(all.len() as int) =~= all);
                }
                return Err(
                    DocumentError::InvalidEntry {
                        list: "exclude_domains",
                        index: i,
                        entry: entry.clone(),
                    },
                );
            },
            Some(host) => {
                match position_of(&hosts, host.as_slice()) {
                    Some(k) => {
                        proof {
                            assert(views(hosts@).index_of(host@) == k);
                            lemma_host_error_stands(all, i + 1, all.len() as int);
                            assert(all.take(all.len() as int) =~= all);
                        }
                        return Err(
                            DocumentError::Duplicate {
                                list: "exclude_domains",
                                index: i,
                                entry: entry.clone(),
                                duplicate_of: k,
                            },
                        );
                    },
                    None => {
                        let ghost before = views(hosts@);
                        let ghost h = host@;
                        hosts.push(host);
                        proof {
                            assert(views(hosts@) =~= before.push(h));
                        }
                    },
                }
            },
        }
        i += 1;
    }
    proof {
        assert(all.take(i as int) =~= all);
    }
    Ok(hosts)
}

proof fn lemma_client_error_stands(entries: Seq<Seq<char>>, n: int, m: int)
    requires
        0 <= n <= m <= entries.len(),
        client_nets(entries.take(n)) is Err,
    ensures
        client_nets(entries.take(m)) == client_nets(entries.take(n)),
    decreases m - n,
{
    if m > n {
        lemma_client_error_stands(entries, n, m - 1);
        assert(entries.take(m).drop_last() =~= entries.take(m - 1));
    }
}

proof fn lemma_host_error_stands(entries: Seq<Seq<char>>, n: int, m: int)
    requires
        0 <= n <= m <= entries.len(),
        excluded_hosts(entries.take(n)) is Err,
    ensures
        excluded_hosts(entries.take(m)) == excluded_hosts(entries.take(n)),
    decreases m - n,
{
    if m > n {
        lemma_host_error_stands(entries, n, m - 1);
        assert(entries.take(m).drop_last() =~= entries.take(m - 1));
    }
}

// ─── Messages ─────────────────────────────────────────────────────────────

/// The text of an exclusion error.
pub open spec fn invalid_exclusion_text(entry: Seq<char>) -> Seq<char> {
    "not a hostname: "@ + str_debug(entry)
}

impl InvalidExclusion {
    /// The error as a sentence.
    pub fn message(&self) -> (m: String)
        ensures
            m@ == invalid_exclusion_text(self.0@),
    {
        let mut out: Vec<char> = Vec::new();
        push_str(&mut out, "not a hostname: ");
        let quoted = debug_quoted(self.0.as_str());
        push_str(&mut out, quoted.as_str());
        string_of(out.as_slice())
    }
}

/// What an invalid entry of `list` should have been.
pub open spec fn expected_text(list: Seq<char>) -> Seq<char> {
    if list == "clients"@ {
        "an IP address or CIDR block"@
    } else {
        "a hostname"@
    }
}

/// The text of a document error.
pub open spec fn document_error_text(e: DocumentErrorV) -> Seq<char> {
    match e {
        DocumentErrorV::OverCap { list, len, cap } => list + ": "@ + decimal_text(len as nat)
            + " entries exceed the cap of "@ + decimal_text(cap as nat) + " by "@ + decimal_text(
            (if len > cap {
                len - cap
            } else {
                0
            }) as nat,
        ),
        DocumentErrorV::InvalidEntry { list, index, entry } => list + "["@ + decimal_text(
            index as nat,
        ) + "]: "@ + str_debug(entry) + " is not "@ + expected_text(list),
        DocumentErrorV::Duplicate { list, index, entry, duplicate_of } => list + "["@
            + decimal_text(index as nat) + "]: "@ + str_debug(entry) + " duplicates entry "@
            + decimal_text(duplicate_of as nat) + " after normalization"@,
    }
}

impl DocumentError {
    /// The error as a sentence.
    pub fn message(&self) -> (m: String)
        ensures
            m@ == document_error_text(self@),
    {
        let mut out: Vec<char> = Vec::new();
        match self {
            DocumentError::OverCap { list, len, cap } => {
                push_str(&mut out, list);
                push_str(&mut out, ": ");
                push_decimal(&mut out, *len);
                push_str(&mut out, " entries exceed the cap of ");
                push_decimal(&mut out, *cap);
                push_str(&mut out, " by ");
                push_decimal(&mut out, len.saturating_sub(*cap));
            },
            DocumentError::InvalidEntry { list, index, entry } => {
                push_str(&mut out, list);
                push_str(&mut out, "[");
                push_decimal(&mut out, *index);
                push_str(&mut out, "]: ");
                let quoted = debug_quoted(entry.as_str());
                push_str(&mut out, quoted.as_str());
                push_str(&mut out, " is not ");
                if str_is(list, "clients") {
                    push_str(&mut out, "an IP address or CIDR block");
                } else {
                    push_str(&mut out, "a hostname");
                }
            },
            DocumentError::Duplicate { list, index, entry, duplicate_of } => {
                push_str(&mut out, list);
                push_str(&mut out, "[");
                push_decimal(&mut out, *index);
                push_str(&mut out, "]: ");
                let quoted = debug_quoted(entry.as_str());
                push_str(&mut out, quoted.as_str());
                push_str(&mut out, " duplicates entry ");
                push_decimal(&mut out, *duplicate_of);
                push_str(&mut out, " after normalization");
            },
        }
        string_of(out.as_slice())
    }
}

/// Whether two strings hold the same characters.
fn str_is(a: &str, b: &str) -> (r: bool)
    ensures
        r == (a@ == b@),
{
    let x = chars_of(a);
    let y = chars_of(b);
    eq_chars(x.as_slice(), y.as_slice())
}

/// Once a prefix of the entries fails, every longer prefix fails the same
/// way.
proof fn lemma_error_stands(entries: Seq<Seq<char>>, n: int, m: int)
    requires
        0 <= n <= m <= entries.len(),
        exclusion_hosts(entries.take(n)) is Err,
    ensures
        exclusion_hosts(entries.take(m)) == exclusion_hosts(entries.take(n)),
    decreases m - n,
{
    if m > n {
        lemma_error_stands(entries, n, m - 1);
        assert(entries.take(m).drop_last() =~= entries.take(m - 1));
    }
}

/// Index of the first host equal to `h`.
fn position_of(hosts: &Vec<Vec<char>>, h: &[char]) -> (r: Option<usize>)
    ensures
        match r {
            Some(k) => k < hosts.len() && views(hosts@)[k as int] == h@ && forall|j: int|
                0 <= j < k ==> views(hosts@)[j] != h@,
            None => !views(hosts@).contains(h@),
        },
{
    let mut k: usize = 0;
    while k < hosts.len()
        invariant
            k <= hosts.len(),
            forall|j: int| 0 <= j < k ==> views(hosts@)[j] != h@,
        decreases hosts.len() - k,
    {
        if eq_chars(hosts[k].as_slice(), h) {
            return Some(k);
        }
        k += 1;
    }
    None
}

} // verus!
