//! Resolving host names, with a cache of two, as a state machine: the caller
//! sends the queries and reports the answers.

use vstd::prelude::*;
use vstd::string::StrSliceExecFns;

use crate::bounded;
use crate::bounded::Text;
use crate::text;

verus! {

/// How many queries are sent for a name.
pub const ATTEMPTS: u8 = 3;

/// The pause after a query without an answer, in milliseconds.
pub const RETRY_MS: u64 = 200;

/// An IPv4 address.
#[derive(Clone, Copy, PartialEq, Eq, Structural, Debug)]
pub struct Ipv4(pub u8, pub u8, pub u8, pub u8);

/// The byte that `s` writes: up to three decimal digits, without leading zeros.
pub open spec fn octet_value(s: Seq<char>) -> Option<u8> {
    match text::digits_value(s, 10) {
        Some(v) => if 1 <= s.len() <= 3 && (s.len() > 1 ==> s[0] != '0') && v <= 255 {
            Some(v as u8)
        } else {
            None
        },
        None => None,
    }
}

/// The address that `s` writes in dotted decimal notation.
pub open spec fn ipv4_value(s: Seq<char>) -> Option<Ipv4> {
    let a = text::find_from(s, '.', 0);
    let b = text::find_from(s, '.', a + 1);
    let c = text::find_from(s, '.', b + 1);
    if c < s.len() {
        match (
            octet_value(s.subrange(0, a)),
            octet_value(s.subrange(a + 1, b)),
            octet_value(s.subrange(b + 1, c)),
            octet_value(s.subrange(c + 1, s.len() as int)),
        ) {
            (Some(p), Some(q), Some(r), Some(t)) => Some(Ipv4(p, q, r, t)),
            _ => None,
        }
    } else {
        None
    }
}

/// A name and the address that it was resolved to.
pub struct Entry {
    host: heapless::String<64>,
    ip: Ipv4,
}

/// An entry as a mathematical value.
pub struct EntryView {
    pub host: Seq<char>,
    pub ip: Ipv4,
}

impl View for Entry {
    type V = EntryView;

    closed spec fn view(&self) -> EntryView {
        EntryView { host: self.host.text(), ip: self.ip }
    }
}

/// The names that were resolved.
pub struct Resolver {
    first: Option<Entry>,
    second: Option<Entry>,
}

/// The cache as a mathematical value.
pub struct CacheView {
    pub first: Option<EntryView>,
    pub second: Option<EntryView>,
}

/// An entry that may be missing.
pub closed spec fn entry_view(e: Option<Entry>) -> Option<EntryView> {
    match e {
        Some(e) => Some(e@),
        None => None,
    }
}

impl View for Resolver {
    type V = CacheView;

    closed spec fn view(&self) -> CacheView {
        CacheView { first: entry_view(self.first), second: entry_view(self.second) }
    }
}

/// What the caller does next.
#[derive(Clone, Copy, PartialEq, Eq, Structural, Debug)]
pub enum Lookup {
    /// Send a query; this many were sent before.
    Query(u8),
    /// Pause; this many queries were sent.
    Pause(u8),
    /// Nothing: this is the address.
    Found(Ipv4),
    /// Nothing: the name cannot be resolved.
    NotFound,
}

/// The entry is that of `host`.
pub open spec fn is_entry_of(e: Option<EntryView>, host: Seq<char>) -> bool {
    e matches Some(e) && e.host == host
}

/// The address that the cache has for `host`.
pub open spec fn cached(c: CacheView, host: Seq<char>) -> Option<Ipv4> {
    if is_entry_of(c.first, host) {
        Some(c.first->0.ip)
    } else if is_entry_of(c.second, host) {
        Some(c.second->0.ip)
    } else {
        None
    }
}

/// What a lookup of `host` begins with: an address needs no query, nor does a
/// name in the cache.
pub open spec fn lookup_start(c: CacheView, host: Seq<char>) -> Lookup {
    if let Some(ip) = ipv4_value(host) {
        Lookup::Found(ip)
    } else if let Some(ip) = cached(c, host) {
        Lookup::Found(ip)
    } else {
        Lookup::Query(0)
    }
}

/// The cache with a new entry: in the first free place, else in the first one.
/// A name that does not fit is left out of its entry.
pub open spec fn stored(c: CacheView, host: Seq<char>, ip: Ipv4) -> CacheView {
    let entry = Some(EntryView { host: bounded::appended(seq![], host, 64), ip });
    if c.first is None {
        CacheView { first: entry, ..c }
    } else if c.second is None {
        CacheView { second: entry, ..c }
    } else {
        CacheView { first: entry, ..c }
    }
}

/// What follows the pause after `sent` queries: the next query, or any address
/// in the cache where the queries are used up.
pub open spec fn lookup_after_pause(c: CacheView, sent: u8) -> Lookup {
    if sent < ATTEMPTS {
        Lookup::Query(sent)
    } else if c.first is Some {
        Lookup::Found(c.first->0.ip)
    } else if c.second is Some {
        Lookup::Found(c.second->0.ip)
    } else {
        Lookup::NotFound
    }
}

/// The byte that `s` writes.
fn parse_octet(s: &str) -> (r: Option<u8>)
    ensures
        r == octet_value(s@),
{
    let cs = text::chars_of(s);
    let n: usize = cs.len();
    if n < 1 || n > 3 || cs[0] == '+' || (n > 1 && cs[0] == '0') {
        proof {
            if n >= 1 && s@[0] == '+' {
                lemma_plus_is_no_digit(s@);
            }
        }
        return None;
    }
    match text::parse_unsigned(s, 10) {
        Some(v) => if v <= 255 {
            Some(v as u8)
        } else {
            None
        },
        None => None,
    }
}

/// Digits do not begin with a plus sign.
proof fn lemma_plus_is_no_digit(s: Seq<char>)
    requires
        s.len() > 0,
        s[0] == '+',
    ensures
        text::digits_value(s, 10) is None,
    decreases s.len(),
{
    if s.len() > 1 {
        lemma_plus_is_no_digit(s.drop_last());
    }
}

/// The address that `s` writes in dotted decimal notation.
pub fn parse_ipv4(s: &str) -> (r: Option<Ipv4>)
    ensures
        r == ipv4_value(s@),
{
    let cs = text::chars_of(s);
    let n: usize = cs.len();
    let a: usize = text::find_from_index(&cs, '.', 0);
    if a >= n {
        proof {
            text::lemma_find_from(s@, '.', 0);
        }
        return None;
    }
    let b: usize = text::find_from_index(&cs, '.', a + 1);
    if b >= n {
        return None;
    }
    let c: usize = text::find_from_index(&cs, '.', b + 1);
    if c >= n {
        return None;
    }
    match (
        parse_octet(s.substring_char(0, a)),
        parse_octet(s.substring_char(a + 1, b)),
        parse_octet(s.substring_char(b + 1, c)),
        parse_octet(s.substring_char(c + 1, n)),
    ) {
        (Some(p), Some(q), Some(r), Some(t)) => Some(Ipv4(p, q, r, t)),
        _ => None,
    }
}

impl Resolver {
    /// A cache without entries.
    pub fn new() -> (r: Self)
        ensures
            r@ == (CacheView { first: None, second: None }),
    {
        Resolver { first: None, second: None }
    }

    /// Begins a lookup of `host`.
    pub fn start(&self, host: &str) -> (r: Lookup)
        ensures
            r == lookup_start(self@, host@),
    {
        if let Some(ip) = parse_ipv4(host) {
            return Lookup::Found(ip);
        }
        if let Some(e) = &self.first {
            if text::same_text(bounded::host_str(&e.host), host) {
                return Lookup::Found(e.ip);
            }
        }
        if let Some(e) = &self.second {
            if text::same_text(bounded::host_str(&e.host), host) {
                return Lookup::Found(e.ip);
            }
        }
        Lookup::Query(0)
    }

    /// Takes the first address of the answer to a query for `host`, before
    /// which `sent` queries were sent; there is none where the query failed.
    pub fn answer(&mut self, host: &str, sent: u8, answer: Option<Ipv4>) -> (r: Lookup)
        requires
            sent < ATTEMPTS,
        ensures
            match answer {
                Some(ip) => r == Lookup::Found(ip) && final(self)@ == stored(old(self)@, host@, ip),
                None => r == Lookup::Pause((sent + 1) as u8) && final(self)@ == old(self)@,
            },
    {
        match answer {
            Some(ip) => {
                let mut name: heapless::String<64> = bounded::new_text();
                let _ = bounded::push_text(&mut name, host);
                let entry = Some(Entry { host: name, ip });
                if self.first.is_none() {
                    self.first = entry;
                } else if self.second.is_none() {
                    self.second = entry;
                } else {
                    self.first = entry;
                }
                Lookup::Found(ip)
            },
            None => Lookup::Pause(sent + 1),
        }
    }

    /// Goes on after the pause, `sent` queries having been sent.
    pub fn resume(&self, sent: u8) -> (r: Lookup)
        ensures
            r == lookup_after_pause(self@, sent),
    {
        if sent < ATTEMPTS {
            return Lookup::Query(sent);
        }
        if let Some(e) = &self.first {
            return Lookup::Found(e.ip);
        }
        if let Some(e) = &self.second {
            return Lookup::Found(e.ip);
        }
        Lookup::NotFound
    }
}

/// A name that was resolved needs no query the next time, unless it is longer than the cache
/// holds.
pub proof fn lemma_resolved_name_is_found(c: CacheView, host: Seq<char>, ip: Ipv4)
    requires
        lookup_start(c, host) is Query,
        bounded::utf8_len(host) <= 64,
    ensures
        lookup_start(stored(c, host, ip), host) == Lookup::Found(ip),
{
    let none = Seq::<char>::empty();
    bounded::lemma_utf8_len_adds(none, host);
    assert(none + host =~= host);
}

/// Two names fit the cache: resolving a second one does not displace the first.
pub proof fn lemma_two_names_fit(a: Seq<char>, p: Ipv4, b: Seq<char>, q: Ipv4)
    requires
        a != b,
        bounded::utf8_len(a) <= 64,
        bounded::utf8_len(b) <= 64,
    ensures
        ({
            let c = stored(stored(CacheView { first: None, second: None }, a, p), b, q);
            cached(c, a) == Some(p) && cached(c, b) == Some(q)
        }),
{
    let none = Seq::<char>::empty();
    bounded::lemma_utf8_len_adds(none, a);
    bounded::lemma_utf8_len_adds(none, b);
    assert(none + a =~= a);
    assert(none + b =~= b);
}

/// A lookup comes to an end: each pause has one more query behind it, and the last pause leads to
/// no other query.
pub proof fn lemma_lookup_ends(c: CacheView, sent: u8)
    ensures
        lookup_after_pause(c, sent) matches Lookup::Query(n) ==> n == sent && n < ATTEMPTS,
        sent >= ATTEMPTS ==> !(lookup_after_pause(c, sent) is Query),
        !(lookup_after_pause(c, sent) is Pause),
{
}

/// Once any name was resolved, a lookup never fails: it falls back on an address in the cache.
pub proof fn lemma_cache_is_fallback(c: CacheView, host: Seq<char>, ip: Ipv4, sent: u8)
    ensures
        lookup_after_pause(stored(c, host, ip), sent) != Lookup::NotFound,
{
}

/// An address in dotted decimal notation.
pub open spec fn dotted(a: Ipv4) -> Seq<char> {
    text::figures(a.0 as nat) + seq!['.'] + text::figures(a.1 as nat) + seq!['.'] + text::figures(
        a.2 as nat,
    ) + seq!['.'] + text::figures(a.3 as nat)
}

/// The figures of a byte write that byte.
proof fn lemma_octet(n: u8)
    ensures
        octet_value(text::figures(n as nat)) == Some(n),
        forall|i: int|
            0 <= i < text::figures(n as nat).len() ==> text::figures(n as nat)[i] != '.',
{
    text::lemma_figures_read_back(n as nat);
    assert(text::figures(n as nat).len() <= 3) by {
        reveal_with_fuel(text::figures, 4);
    }
}

/// A host that is an address in dotted decimal notation needs no query: it is that address.
pub proof fn lemma_address_needs_no_query(c: CacheView, a: Ipv4)
    ensures
        ipv4_value(dotted(a)) == Some(a),
        lookup_start(c, dotted(a)) == Lookup::Found(a),
{
    let p = text::figures(a.0 as nat);
    let q = text::figures(a.1 as nat);
    let r = text::figures(a.2 as nat);
    let t = text::figures(a.3 as nat);
    let s = dotted(a);
    lemma_octet(a.0);
    lemma_octet(a.1);
    lemma_octet(a.2);
    lemma_octet(a.3);
    let i = p.len() as int;
    let j = i + 1 + q.len();
    let k = j + 1 + r.len();
    assert(s.len() == k + 1 + t.len());
    assert(forall|x: int| 0 <= x < i ==> s[x] == p[x]);
    assert(s[i] == '.');
    assert forall|x: int| i + 1 <= x < j implies s[x] == q[x - i - 1] by {}
    assert(s[j] == '.');
    assert forall|x: int| j + 1 <= x < k implies s[x] == r[x - j - 1] by {}
    assert(s[k] == '.');
    assert forall|x: int| k + 1 <= x < s.len() implies s[x] == t[x - k - 1] by {}
    text::lemma_find_from(s, '.', 0);
    assert(text::find_from(s, '.', 0) == i);
    text::lemma_find_from(s, '.', i + 1);
    assert(text::find_from(s, '.', i + 1) == j);
    text::lemma_find_from(s, '.', j + 1);
    assert(text::find_from(s, '.', j + 1) == k);
    assert(s.subrange(0, i) =~= p);
    assert(s.subrange(i + 1, j) =~= q);
    assert(s.subrange(j + 1, k) =~= r);
    assert(s.subrange(k + 1, s.len() as int) =~= t);
}

/// Only an address in dotted decimal notation is taken for one: four numbers up to 255, without
/// leading zeros, and three dots.
pub proof fn lemma_address_is_dotted(s: Seq<char>, a: Ipv4)
    requires
        ipv4_value(s) == Some(a),
    ensures
        s == dotted(a),
{
    let i = text::find_from(s, '.', 0);
    text::lemma_find_from(s, '.', 0);
    let j = text::find_from(s, '.', i + 1);
    text::lemma_find_from(s, '.', i + 1);
    let k = text::find_from(s, '.', j + 1);
    text::lemma_find_from(s, '.', j + 1);
    let p = s.subrange(0, i);
    let q = s.subrange(i + 1, j);
    let r = s.subrange(j + 1, k);
    let t = s.subrange(k + 1, s.len() as int);
    text::lemma_digits_are_figures(p, a.0 as nat);
    text::lemma_digits_are_figures(q, a.1 as nat);
    text::lemma_digits_are_figures(r, a.2 as nat);
    text::lemma_digits_are_figures(t, a.3 as nat);
    assert(s =~= p + seq!['.'] + q + seq!['.'] + r + seq!['.'] + t);
}

/// Whether the cache has this entry.
pub open spec fn has_entry(c: CacheView, host: Seq<char>, ip: Ipv4) -> bool {
    c.first == Some(EntryView { host, ip }) || c.second == Some(EntryView { host, ip })
}

/// A lookup begins with an answer where the host is an address, which is then the answer, or where
/// the cache has an entry of just that name, the first place before the second. Otherwise a first
/// query is sent.
pub proof fn lemma_lookup_begins(c: CacheView, host: Seq<char>)
    ensures
        ({
            let first = c.first matches Some(e) && e.host == host;
            let second = c.second matches Some(e) && e.host == host;
            match ipv4_value(host) {
                Some(ip) => lookup_start(c, host) == Lookup::Found(ip),
                None => {
                    &&& first ==> lookup_start(c, host) == Lookup::Found(c.first->0.ip)
                    &&& !first && second ==> lookup_start(c, host) == Lookup::Found(
                        c.second->0.ip,
                    )
                    &&& !first && !second ==> lookup_start(c, host) == Lookup::Query(0)
                },
            }
        }),
{
}

/// A new entry takes a free place, and where there is none the first one: an entry is lost only
/// where the cache is full, and then it is the first.
pub proof fn lemma_entry_stored(c: CacheView, host: Seq<char>, ip: Ipv4, name: Seq<char>, was: Ipv4)
    requires
        bounded::utf8_len(host) <= 64,
    ensures
        has_entry(stored(c, host, ip), host, ip),
        has_entry(c, name, was) && (c.first is None || c.second is None) ==> has_entry(
            stored(c, host, ip),
            name,
            was,
        ),
        c.first is Some && c.second is Some ==> stored(c, host, ip).second == c.second,
        has_entry(stored(c, host, ip), name, was) ==> has_entry(c, name, was) || (name == host
            && was == ip),
{
    let none = Seq::<char>::empty();
    bounded::lemma_utf8_len_adds(none, host);
    assert(none + host =~= host);
}

/// Three queries are sent for a name. After the last one the lookup falls back on an address that
/// the cache has, the first place before the second, and fails only where it has none.
pub proof fn lemma_lookup_falls_back(c: CacheView, sent: u8)
    ensures
        sent < 3 ==> lookup_after_pause(c, sent) == Lookup::Query(sent),
        sent >= 3 && c.first is Some ==> lookup_after_pause(c, sent) == Lookup::Found(
            c.first->0.ip,
        ),
        sent >= 3 && c.first is None && c.second is Some ==> lookup_after_pause(c, sent)
            == Lookup::Found(c.second->0.ip),
        sent >= 3 && c.first is None && c.second is None ==> lookup_after_pause(c, sent)
            == Lookup::NotFound,
{
}

/// The address of a name that is longer than the cache holds is kept without the name: it is fallen
/// back on, but found under no name.
pub proof fn lemma_long_name_left_out(c: CacheView, host: Seq<char>, ip: Ipv4)
    requires
        bounded::utf8_len(host) > 64,
    ensures
        has_entry(stored(c, host, ip), Seq::empty(), ip),
{
    let none = Seq::<char>::empty();
    assert(bounded::utf8_len(none) == 0);
}

} // verus!
