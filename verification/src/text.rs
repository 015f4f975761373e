//! Text scanning on character sequences: white space, searching, line
//! splitting and numbers.
//!
//! A `&str` is read through its view, a `Seq<char>`. The functions here hand
//! out sub-slices of the text they are given.

use vstd::prelude::*;
use vstd::string::StrSliceExecFns;

verus! {

/// The characters with the Unicode `White_Space` property.
pub open spec fn is_white_space(c: char) -> bool {
    let u = c as u32;
    ||| 0x9 <= u <= 0xd
    ||| u == 0x20
    ||| u == 0x85
    ||| u == 0xa0
    ||| u == 0x1680
    ||| 0x2000 <= u <= 0x200a
    ||| u == 0x2028
    ||| u == 0x2029
    ||| u == 0x202f
    ||| u == 0x205f
    ||| u == 0x3000
}

/// `c` with an ASCII capital letter replaced by its small letter.
pub open spec fn ascii_lower(c: char) -> char {
    if 'A' <= c && c <= 'Z' {
        ((c as u32) + 32) as char
    } else {
        c
    }
}

/// `a` and `b` are the same text but for the case of ASCII letters.
pub open spec fn same_ignoring_ascii_case(a: Seq<char>, b: Seq<char>) -> bool {
    &&& a.len() == b.len()
    &&& forall|i: int| 0 <= i < a.len() ==> #[trigger] ascii_lower(a[i]) == ascii_lower(b[i])
}

/// The first index from `i` on at which `s` holds `x`, or the length of `s`.
pub open spec fn find_from<A>(s: Seq<A>, x: A, i: int) -> int
    decreases s.len() - i,
{
    if i >= s.len() {
        s.len() as int
    } else if s[i] == x {
        i
    } else {
        find_from(s, x, i + 1)
    }
}

/// The index behind the last `x` among the first `n` items of `s`, or zero.
pub open spec fn behind_last<A>(s: Seq<A>, x: A, n: int) -> int
    decreases n,
{
    if n <= 0 {
        0
    } else if s[n - 1] == x {
        n
    } else {
        behind_last(s, x, n - 1)
    }
}

/// The first index from `i` on whose character is not white space.
pub open spec fn skip_white(s: Seq<char>, i: int) -> int
    decreases s.len() - i,
{
    if i < s.len() && is_white_space(s[i]) {
        skip_white(s, i + 1)
    } else {
        i
    }
}

/// The end of `s[lo..n]` without its trailing white space.
pub open spec fn drop_white(s: Seq<char>, lo: int, n: int) -> int
    decreases n - lo,
{
    if n > lo && is_white_space(s[n - 1]) {
        drop_white(s, lo, n - 1)
    } else {
        n
    }
}

/// `s` without leading and trailing white space.
pub open spec fn trimmed(s: Seq<char>) -> Seq<char> {
    let lo = skip_white(s, 0);
    s.subrange(lo, drop_white(s, lo, s.len() as int))
}

/// The first index from `i` on whose character is not `c`.
pub open spec fn skip_char(s: Seq<char>, c: char, i: int) -> int
    decreases s.len() - i,
{
    if i < s.len() && s[i] == c {
        skip_char(s, c, i + 1)
    } else {
        i
    }
}

/// The end of `s[lo..n]` without the `c` that it ends with.
pub open spec fn drop_char(s: Seq<char>, c: char, lo: int, n: int) -> int
    decreases n - lo,
{
    if n > lo && s[n - 1] == c {
        drop_char(s, c, lo, n - 1)
    } else {
        n
    }
}

/// `s` without the `c` that it begins and ends with.
pub open spec fn stripped(s: Seq<char>, c: char) -> Seq<char> {
    let lo = skip_char(s, c, 0);
    s.subrange(lo, drop_char(s, c, lo, s.len() as int))
}

/// The first index from `i` on whose character is white space, or the length.
pub open spec fn word_end(s: Seq<char>, i: int) -> int
    decreases s.len() - i,
{
    if i < s.len() && !is_white_space(s[i]) {
        word_end(s, i + 1)
    } else {
        i
    }
}

/// `needle` stands in `hay` at index `i`.
pub open spec fn occurs_at<A>(hay: Seq<A>, needle: Seq<A>, i: int) -> bool {
    0 <= i && i + needle.len() <= hay.len() && hay.subrange(i, i + needle.len()) == needle
}

/// `needle` stands somewhere in `hay`.
pub open spec fn occurs_in<A>(hay: Seq<A>, needle: Seq<A>) -> bool {
    exists|i: int| occurs_at(hay, needle, i)
}

/// What follows `prefix` in `s`, where `s` begins with it.
pub open spec fn after_prefix(s: Seq<char>, prefix: Seq<char>) -> Option<Seq<char>> {
    if prefix.is_prefix_of(s) {
        Some(s.skip(prefix.len() as int))
    } else {
        None
    }
}

/// `s` without a carriage return at its end.
pub open spec fn without_last_cr(s: Seq<char>) -> Seq<char> {
    if s.len() > 0 && s.last() == '\r' {
        s.drop_last()
    } else {
        s
    }
}

/// The line of `s` that begins at `i`, without its line ending.
pub open spec fn line_at(s: Seq<char>, i: int) -> Seq<char> {
    let end = find_from(s, '\n', i);
    if end >= s.len() {
        s.subrange(i, s.len() as int)
    } else {
        without_last_cr(s.subrange(i, end))
    }
}

/// Where the line after the one that begins at `i` begins.
pub open spec fn next_line_start(s: Seq<char>, i: int) -> int {
    let end = find_from(s, '\n', i);
    if end >= s.len() {
        s.len() as int
    } else {
        end + 1
    }
}

/// The lines of `s` from index `i` on. A line ends with a line feed, or a
/// carriage return and a line feed; the last one needs no ending.
pub open spec fn lines_from(s: Seq<char>, i: int) -> Seq<Seq<char>>
    decreases s.len() - i,
    when 0 <= i
    via lines_from_decreases
{
    if i >= s.len() {
        seq![]
    } else {
        seq![line_at(s, i)] + lines_from(s, next_line_start(s, i))
    }
}

#[via_fn]
proof fn lines_from_decreases(s: Seq<char>, i: int) {
    if i < s.len() {
        lemma_find_from(s, '\n', i);
    }
}

/// The value of the digit `c` in the given radix.
pub open spec fn digit_value(c: char, radix: nat) -> Option<nat> {
    let v = if '0' <= c && c <= '9' {
        (c as u32 - '0' as u32) as nat
    } else if 'a' <= c && c <= 'z' {
        (c as u32 - 'a' as u32 + 10) as nat
    } else if 'A' <= c && c <= 'Z' {
        (c as u32 - 'A' as u32 + 10) as nat
    } else {
        radix
    };
    if v < radix {
        Some(v)
    } else {
        None
    }
}

/// The number that the digits `s` write in the given radix.
pub open spec fn digits_value(s: Seq<char>, radix: nat) -> Option<nat>
    decreases s.len(),
{
    if s.len() == 0 {
        Some(0)
    } else {
        match (digits_value(s.drop_last(), radix), digit_value(s.last(), radix)) {
            (Some(high), Some(low)) => Some(high * radix + low),
            _ => None,
        }
    }
}

/// The decimal figures of a number.
pub open spec fn figures(n: nat) -> Seq<char>
    decreases n,
{
    let last = (n % 10 + 0x30) as char;
    if n < 10 {
        seq![last]
    } else {
        figures(n / 10).push(last)
    }
}

/// The figures of a number are digits without leading zeros, and write that number.
pub proof fn lemma_figures_read_back(n: nat)
    ensures
        digits_value(figures(n), 10) == Some(n),
        figures(n).len() > 0,
        figures(n)[0] == '0' ==> n == 0 && figures(n).len() == 1,
        forall|i: int| 0 <= i < figures(n).len() ==> '0' <= #[trigger] figures(n)[i] && figures(
            n,
        )[i] <= '9',
        vstd::utf8::is_ascii_chars(figures(n)),
    decreases n,
{
    let last = (n % 10 + 0x30) as char;
    assert(digit_value(last, 10) == Some(n % 10));
    if n < 10 {
        assert(seq![last].drop_last() =~= seq![]);
        assert(digits_value(seq![last].drop_last(), 10) == Some(0nat));
    } else {
        lemma_figures_read_back(n / 10);
        assert(figures(n / 10).push(last).drop_last() =~= figures(n / 10));
    }
}

/// The digits of an unsigned number, without the plus sign it may begin with.
pub open spec fn unsigned_digits(s: Seq<char>) -> Seq<char> {
    if s.len() > 0 && s[0] == '+' {
        s.skip(1)
    } else {
        s
    }
}

/// The `usize` that `s` writes in the given radix: one or more digits, with a
/// plus sign before them or not.
pub open spec fn unsigned_value(s: Seq<char>, radix: nat) -> Option<usize> {
    let digits = unsigned_digits(s);
    if digits.len() == 0 {
        None
    } else {
        match digits_value(digits, radix) {
            Some(v) => if v <= usize::MAX { Some(v as usize) } else { None },
            None => None,
        }
    }
}

/// What `find_from` says of the items it passes.
pub proof fn lemma_find_from<A>(s: Seq<A>, x: A, i: int)
    requires
        0 <= i <= s.len(),
    ensures
        i <= find_from(s, x, i) <= s.len(),
        find_from(s, x, i) < s.len() ==> s[find_from(s, x, i)] == x,
        forall|j: int| i <= j < find_from(s, x, i) ==> s[j] != x,
    decreases s.len() - i,
{
    if i < s.len() && s[i] != x {
        lemma_find_from(s, x, i + 1);
    }
}

/// An item that is nowhere before `k` is found there, or not at all where `k` is the length.
pub proof fn lemma_find_at<A>(s: Seq<A>, x: A, k: int)
    requires
        0 <= k <= s.len(),
        k < s.len() ==> s[k] == x,
        forall|j: int| 0 <= j < k ==> s[j] != x,
    ensures
        find_from(s, x, 0) == k,
{
    lemma_find_from(s, x, 0);
}

/// The first word of a text that may begin with a space, and may go on behind another one.
pub proof fn lemma_first_word(before: Seq<char>, word: Seq<char>, tail: Seq<char>)
    requires
        before.len() == 0 || before == seq![' '],
        word.len() > 0,
        forall|i: int| 0 <= i < word.len() ==> !is_white_space(#[trigger] word[i]),
        tail.len() > 0 ==> tail[0] == ' ',
    ensures
        ({
            let t = trimmed(before + word + tail);
            t.len() > 0 && t.take(word_end(t, 0)) == word
        }),
{
    let s = before + word + tail;
    let lo = before.len() as int;
    let n = s.len() as int;
    assert(is_white_space(' '));
    assert(s[lo] == word[0]);
    if lo == 1 {
        assert(s[0] == ' ');
        assert(skip_white(s, 1) == 1);
    }
    assert(skip_white(s, 0) == lo);
    let last = lo + word.len() - 1;
    assert(s[last] == word[word.len() - 1]);
    lemma_drop_white_stops(s, lo, n, last);
    let t = trimmed(s);
    let m = word.len() as int;
    assert(forall|i: int| 0 <= i < m ==> t[i] == word[i]);
    if t.len() > m {
        assert(t[m] == tail[0]);
    }
    lemma_word_end_at(t, 0, m);
    assert(t.take(m) =~= word);
}

/// Trailing white space ends behind the last character that is none.
proof fn lemma_drop_white_stops(s: Seq<char>, lo: int, n: int, last: int)
    requires
        0 <= lo <= last < n <= s.len(),
        !is_white_space(s[last]),
    ensures
        last < drop_white(s, lo, n) <= n,
    decreases n - lo,
{
    if is_white_space(s[n - 1]) {
        lemma_drop_white_stops(s, lo, n - 1, last);
    }
}

/// A word ends at the first white space.
proof fn lemma_word_end_at(s: Seq<char>, i: int, k: int)
    requires
        0 <= i <= k <= s.len(),
        forall|j: int| i <= j < k ==> !is_white_space(#[trigger] s[j]),
        k < s.len() ==> is_white_space(s[k]),
    ensures
        word_end(s, i) == k,
    decreases k - i,
{
    if i < k {
        lemma_word_end_at(s, i + 1, k);
    }
}

/// `core::str::from_utf8`: the text that `bytes` encode, where they are valid
/// UTF-8, and nothing where they are not.
#[verifier::external_body]
pub(crate) fn utf8_text(bytes: &[u8]) -> (r: Option<&str>)
    ensures
        r is Some <==> vstd::utf8::valid_utf8(bytes@),
        r matches Some(s) ==> s@ == vstd::utf8::decode_utf8(bytes@),
{
    core::str::from_utf8(bytes).ok()
}

/// The characters of `s`.
pub fn chars_of(s: &str) -> (r: Vec<char>)
    ensures
        r@ == s@,
{
    let mut r: Vec<char> = Vec::new();
    for c in it: s.chars()
        invariant
            r@ == it.seq().take(it.index() as int),
            it.seq() == s@,
    {
        r.push(c);
    }
    r
}

/// White space, as `is_white_space` says.
pub fn white_space(c: char) -> (r: bool)
    ensures
        r == is_white_space(c),
{
    let u: u32 = c as u32;
    (0x9 <= u && u <= 0xd) || u == 0x20 || u == 0x85 || u == 0xa0 || u == 0x1680 || (0x2000 <= u
        && u <= 0x200a) || u == 0x2028 || u == 0x2029 || u == 0x202f || u == 0x205f || u == 0x3000
}

/// `s` without leading and trailing white space.
pub fn trim(s: &str) -> (r: &str)
    ensures
        r@ == trimmed(s@),
{
    let cs = chars_of(s);
    let n: usize = cs.len();
    let mut lo: usize = 0;
    while lo < n && white_space(cs[lo])
        invariant
            lo <= n,
            n == cs.len(),
            cs@ == s@,
            skip_white(s@, 0) == skip_white(s@, lo as int),
        decreases n - lo,
    {
        lo += 1;
    }
    let mut hi: usize = n;
    while hi > lo && white_space(cs[hi - 1])
        invariant
            lo <= hi <= n,
            n == cs.len(),
            cs@ == s@,
            drop_white(s@, lo as int, n as int) == drop_white(s@, lo as int, hi as int),
        decreases hi - lo,
    {
        hi -= 1;
    }
    s.substring_char(lo, hi)
}

/// `s` without the `c` that it begins and ends with.
pub fn strip_char(s: &str, c: char) -> (r: &str)
    ensures
        r@ == stripped(s@, c),
{
    let cs = chars_of(s);
    let n: usize = cs.len();
    let mut lo: usize = 0;
    while lo < n && cs[lo] == c
        invariant
            lo <= n,
            n == cs.len(),
            cs@ == s@,
            skip_char(s@, c, 0) == skip_char(s@, c, lo as int),
        decreases n - lo,
    {
        lo += 1;
    }
    let mut hi: usize = n;
    while hi > lo && cs[hi - 1] == c
        invariant
            lo <= hi <= n,
            n == cs.len(),
            cs@ == s@,
            drop_char(s@, c, lo as int, n as int) == drop_char(s@, c, lo as int, hi as int),
        decreases hi - lo,
    {
        hi -= 1;
    }
    s.substring_char(lo, hi)
}

/// The first word of `s`: what stands before its first white space.
pub fn first_word(s: &str) -> (r: &str)
    ensures
        r@ == s@.take(word_end(s@, 0)),
{
    let cs = chars_of(s);
    let n: usize = cs.len();
    let mut i: usize = 0;
    while i < n && !white_space(cs[i])
        invariant
            i <= n,
            n == cs.len(),
            cs@ == s@,
            word_end(s@, 0) == word_end(s@, i as int),
        decreases n - i,
    {
        i += 1;
    }
    s.substring_char(0, i)
}

/// The index of the first `c` in `s`, or the number of characters of `s`.
pub fn find_char(s: &str, c: char) -> (r: usize)
    ensures
        r == find_from(s@, c, 0),
        r <= s@.len(),
{
    find_from_index(&chars_of(s), c, 0)
}

/// The first index from `i` on at which `cs` holds `c`, or the length.
pub fn find_from_index(cs: &Vec<char>, c: char, i: usize) -> (r: usize)
    requires
        i <= cs@.len(),
    ensures
        r == find_from(cs@, c, i as int),
        i <= r <= cs@.len(),
{
    let n: usize = cs.len();
    let mut k: usize = i;
    while k < n && cs[k] != c
        invariant
            i <= k <= n,
            n == cs@.len(),
            find_from(cs@, c, i as int) == find_from(cs@, c, k as int),
        decreases n - k,
    {
        k += 1;
    }
    k
}

/// The part of `s` before the first `c`, or all of it.
pub fn before_char(s: &str, c: char) -> (r: &str)
    ensures
        r@ == s@.take(find_from(s@, c, 0)),
{
    let i: usize = find_char(s, c);
    s.substring_char(0, i)
}

/// The part of `s` behind the last `c`, or all of it.
pub fn after_last_char(s: &str, c: char) -> (r: &str)
    ensures
        r@ == s@.skip(behind_last(s@, c, s@.len() as int)),
{
    let cs = chars_of(s);
    let n: usize = cs.len();
    let mut i: usize = n;
    while i > 0 && cs[i - 1] != c
        invariant
            i <= n,
            n == cs.len(),
            cs@ == s@,
            behind_last(s@, c, n as int) == behind_last(s@, c, i as int),
        decreases i,
    {
        i -= 1;
    }
    s.substring_char(i, n)
}

/// What follows `prefix` in `s`, where `s` begins with it.
pub fn strip_prefix<'a>(s: &'a str, prefix: &str) -> (r: Option<&'a str>)
    ensures
        match r {
            Some(rest) => after_prefix(s@, prefix@) == Some(rest@),
            None => after_prefix(s@, prefix@) is None,
        },
{
    let cs = chars_of(s);
    let ps = chars_of(prefix);
    let n: usize = cs.len();
    let m: usize = ps.len();
    if m > n {
        return None;
    }
    let mut i: usize = 0;
    while i < m
        invariant
            i <= m <= n,
            n == cs.len(),
            m == ps.len(),
            cs@ == s@,
            ps@ == prefix@,
            forall|j: int| 0 <= j < i ==> s@[j] == prefix@[j],
        decreases m - i,
    {
        if cs[i] != ps[i] {
            assert(s@.subrange(0, m as int)[i as int] != prefix@[i as int]);
            return None;
        }
        i += 1;
    }
    assert(prefix@ =~= s@.subrange(0, m as int));
    Some(s.substring_char(m, n))
}

/// `needle` stands somewhere in `hay`.
pub fn contains(hay: &str, needle: &str) -> (r: bool)
    ensures
        r == occurs_in(hay@, needle@),
{
    let hs = chars_of(hay);
    let ns = chars_of(needle);
    let n: usize = hs.len();
    let m: usize = ns.len();
    if m > n {
        return false;
    }
    let mut i: usize = 0;
    while i <= n - m
        invariant
            i <= n - m + 1,
            m <= n,
            n == hs.len(),
            m == ns.len(),
            hs@ == hay@,
            ns@ == needle@,
            forall|k: int| 0 <= k < i ==> !occurs_at(hay@, needle@, k),
        decreases n - m + 1 - i,
    {
        let mut j: usize = 0;
        while j < m && hs[i + j] == ns[j]
            invariant
                j <= m,
                i + m <= n,
                n == hs.len(),
                m == ns.len(),
                hs@ == hay@,
                ns@ == needle@,
                forall|k: int| 0 <= k < j ==> hay@[i + k] == needle@[k],
            decreases m - j,
        {
            j += 1;
        }
        if j == m {
            assert(hay@.subrange(i as int, i + m) =~= needle@);
            assert(occurs_at(hay@, needle@, i as int));
            return true;
        }
        assert(hay@.subrange(i as int, i + m)[j as int] != needle@[j as int]);
        i += 1;
    }
    false
}

/// `c` with an ASCII capital letter replaced by its small letter.
pub fn lower(c: char) -> (r: char)
    ensures
        r == ascii_lower(c),
{
    if 'A' <= c && c <= 'Z' {
        ((c as u8) + 32) as char
    } else {
        c
    }
}

/// Equality but for the case of ASCII letters.
pub fn eq_ignoring_ascii_case(a: &str, b: &str) -> (r: bool)
    ensures
        r == same_ignoring_ascii_case(a@, b@),
{
    let xs = chars_of(a);
    let ys = chars_of(b);
    if xs.len() != ys.len() {
        return false;
    }
    let n: usize = xs.len();
    let mut i: usize = 0;
    while i < n
        invariant
            i <= n,
            n == xs.len(),
            n == ys.len(),
            xs@ == a@,
            ys@ == b@,
            forall|j: int| 0 <= j < i ==> #[trigger] ascii_lower(a@[j]) == ascii_lower(b@[j]),
        decreases n - i,
    {
        if lower(xs[i]) != lower(ys[i]) {
            return false;
        }
        i += 1;
    }
    true
}

/// The lines of `s`, without their endings.
pub fn lines(s: &str) -> (r: Vec<&str>)
    ensures
        r@.map_values(|l: &str| l@) == lines_from(s@, 0),
{
    let cs = chars_of(s);
    let n: usize = cs.len();
    let mut r: Vec<&str> = Vec::new();
    let mut start: usize = 0;
    assert(r@.map_values(|l: &str| l@) =~= seq![]);
    while start < n
        invariant
            start <= n,
            n == cs.len(),
            cs@ == s@,
            r@.map_values(|l: &str| l@) + lines_from(s@, start as int) == lines_from(s@, 0),
        decreases n - start,
    {
        let mut end: usize = start;
        while end < n && cs[end] != '\n'
            invariant
                start <= end <= n,
                n == cs.len(),
                cs@ == s@,
                find_from(s@, '\n', start as int) == find_from(s@, '\n', end as int),
            decreases n - end,
        {
            end += 1;
        }
        assert(find_from(s@, '\n', start as int) == end);
        let mut stop: usize = end;
        if end < n && end > start && cs[end - 1] == '\r' {
            stop = end - 1;
        }
        let line = s.substring_char(start, stop);
        assert(line@ =~= line_at(s@, start as int));
        let ghost before = r@.map_values(|l: &str| l@);
        let ghost rest = lines_from(s@, next_line_start(s@, start as int));
        r.push(line);
        assert(r@.map_values(|l: &str| l@) =~= before.push(line@));
        assert(before.push(line@) + rest =~= before + (seq![line@] + rest));
        if end < n {
            start = end + 1;
        } else {
            start = n;
        }
    }
    assert(r@.map_values(|l: &str| l@) + lines_from(s@, n as int) =~= r@.map_values(|l: &str| l@));
    r
}

/// Equality of two texts.
pub fn same_text(a: &str, b: &str) -> (r: bool)
    ensures
        r == (a@ == b@),
{
    let xs = chars_of(a);
    let ys = chars_of(b);
    if xs.len() != ys.len() {
        return false;
    }
    let n: usize = xs.len();
    let mut i: usize = 0;
    while i < n
        invariant
            i <= n,
            n == xs.len(),
            n == ys.len(),
            xs@ == a@,
            ys@ == b@,
            forall|j: int| 0 <= j < i ==> a@[j] == b@[j],
        decreases n - i,
    {
        if xs[i] != ys[i] {
            return false;
        }
        i += 1;
    }
    assert(a@ =~= b@);
    true
}

/// The value of the digit `c` in the given radix.
fn digit(c: char, radix: usize) -> (r: Option<usize>)
    requires
        radix <= 36,
    ensures
        match r {
            Some(v) => digit_value(c, radix as nat) == Some(v as nat),
            None => digit_value(c, radix as nat) is None,
        },
{
    let v: usize = if '0' <= c && c <= '9' {
        (c as u32 - '0' as u32) as usize
    } else if 'a' <= c && c <= 'z' {
        (c as u32 - 'a' as u32 + 10) as usize
    } else if 'A' <= c && c <= 'Z' {
        (c as u32 - 'A' as u32 + 10) as usize
    } else {
        radix
    };
    if v < radix {
        Some(v)
    } else {
        None
    }
}

/// A number that is too large stays too large with more digits.
proof fn lemma_digits_value_grows(s: Seq<char>, radix: nat, i: int)
    requires
        0 <= i <= s.len(),
        radix >= 1,
    ensures
        digits_value(s.take(i), radix) is None ==> digits_value(s, radix) is None,
        digits_value(s, radix) matches Some(v) ==> v >= digits_value(s.take(i), radix)->0,
    decreases s.len(),
{
    if i == s.len() {
        assert(s.take(i) =~= s);
    } else {
        assert(s.drop_last().take(i) =~= s.take(i));
        lemma_digits_value_grows(s.drop_last(), radix, i);
        if let Some(high) = digits_value(s.drop_last(), radix) {
            assert(high * radix >= high) by (nonlinear_arith)
                requires
                    radix >= 1,
            ;
        }
    }
}

/// The `usize` that `s` writes in the given radix.
pub fn parse_unsigned(s: &str, radix: usize) -> (r: Option<usize>)
    requires
        2 <= radix <= 36,
    ensures
        r == unsigned_value(s@, radix as nat),
{
    let cs = chars_of(s);
    let n: usize = cs.len();
    let start: usize = if n > 0 && cs[0] == '+' { 1 } else { 0 };
    let ghost digits = unsigned_digits(s@);
    assert(digits =~= s@.skip(start as int));
    if start == n {
        return None;
    }
    let mut v: usize = 0;
    let mut i: usize = start;
    assert(digits.take(0) =~= seq![]);
    while i < n
        invariant
            start <= i <= n,
            n == cs.len(),
            cs@ == s@,
            2 <= radix <= 36,
            digits == s@.skip(start as int),
            digits == unsigned_digits(s@),
            digits.len() > 0,
            digits_value(digits.take(i - start), radix as nat) == Some(v as nat),
        decreases n - i,
    {
        let ghost upto = digits.take(i - start + 1);
        assert(upto.drop_last() =~= digits.take(i - start));
        assert(upto.last() == cs[i as int]);
        proof {
            lemma_digits_value_grows(digits, radix as nat, i - start + 1);
        }
        match digit(cs[i], radix) {
            None => {
                return None;
            },
            Some(d) => {
                match v.checked_mul(radix) {
                    None => {
                        return None;
                    },
                    Some(high) => {
                        match high.checked_add(d) {
                            None => {
                                return None;
                            },
                            Some(sum) => {
                                v = sum;
                            },
                        }
                    },
                }
            },
        }
        i += 1;
    }
    assert(digits.take(n - start) =~= digits);
    Some(v)
}

/// The white space characters: six of ASCII, and those beyond it.
pub open spec fn white_spaces() -> Seq<char> {
    seq![
        '\t', '\n', '\u{b}', '\u{c}', '\r', ' ', '\u{85}', '\u{a0}', '\u{1680}', '\u{2000}',
        '\u{2001}', '\u{2002}', '\u{2003}', '\u{2004}', '\u{2005}', '\u{2006}', '\u{2007}',
        '\u{2008}', '\u{2009}', '\u{200a}', '\u{2028}', '\u{2029}', '\u{202f}', '\u{205f}',
        '\u{3000}',
    ]
}

/// A character is white space where it is one of these, and only there.
#[verifier::spinoff_prover]
pub proof fn lemma_white_spaces(c: char, white: bool)
    requires
        call_ensures(white_space, (c,), white),
    ensures
        white == white_spaces().contains(c),
        white == is_white_space(c),
{
    let all = white_spaces();
    if is_white_space(c) {
        let u = c as u32;
        let k = if u <= 0xd {
            u - 0x9
        } else if u == 0x20 {
            5
        } else if u == 0x85 {
            6
        } else if u == 0xa0 {
            7
        } else if u == 0x1680 {
            8
        } else if u <= 0x200a {
            9 + (u - 0x2000)
        } else if u == 0x2028 {
            20
        } else if u == 0x2029 {
            21
        } else if u == 0x202f {
            22
        } else if u == 0x205f {
            23
        } else {
            24
        };
        assert(all[k] == c);
    }
}

/// Whether a text is white space throughout.
pub open spec fn is_blank(s: Seq<char>) -> bool {
    forall|i: int| 0 <= i < s.len() ==> is_white_space(#[trigger] s[i])
}

/// Whether a text neither begins nor ends with white space.
pub open spec fn is_tight(s: Seq<char>) -> bool {
    s.len() > 0 ==> !is_white_space(s[0]) && !is_white_space(s.last())
}

/// White space around a text is trimmed away, and nothing else: what is left is the text.
pub proof fn lemma_trimmed(before: Seq<char>, s: Seq<char>, behind: Seq<char>)
    requires
        is_blank(before),
        is_blank(behind),
        is_tight(s),
    ensures
        trimmed(before + s + behind) == s,
{
    let t = before + s + behind;
    let lo = before.len() as int;
    let hi = lo + s.len();
    if s.len() == 0 {
        assert forall|i: int| 0 <= i < t.len() implies is_white_space(#[trigger] t[i]) by {
            assert(t[i] == if i < lo { before[i] } else { behind[i - lo] });
        }
        lemma_skip_white_to(t, 0, t.len() as int);
        assert(trimmed(t) =~= s);
    } else {
        assert forall|i: int| 0 <= i < lo implies is_white_space(#[trigger] t[i]) by {
            assert(t[i] == before[i]);
        }
        assert forall|i: int| hi <= i < t.len() implies is_white_space(#[trigger] t[i]) by {
            assert(t[i] == behind[i - hi]);
        }
        assert(t[lo] == s[0] && t[hi - 1] == s.last());
        lemma_skip_white_to(t, 0, lo);
        lemma_drop_white_to(t, lo, t.len() as int, hi);
        assert(t.subrange(lo, hi) =~= s);
    }
}

/// White space at the beginning ends where something else stands.
proof fn lemma_skip_white_to(s: Seq<char>, i: int, k: int)
    requires
        0 <= i <= k <= s.len(),
        forall|j: int| i <= j < k ==> is_white_space(#[trigger] s[j]),
        k < s.len() ==> !is_white_space(s[k]),
    ensures
        skip_white(s, i) == k,
    decreases k - i,
{
    if i < k {
        lemma_skip_white_to(s, i + 1, k);
    }
}

/// White space at the end begins behind something else.
proof fn lemma_drop_white_to(s: Seq<char>, lo: int, n: int, k: int)
    requires
        0 <= lo < k <= n <= s.len(),
        forall|j: int| k <= j < n ==> is_white_space(#[trigger] s[j]),
        !is_white_space(s[k - 1]),
    ensures
        drop_white(s, lo, n) == k,
    decreases n - k,
{
    if k < n {
        lemma_drop_white_to(s, lo, n - 1, k);
    }
}

/// Whether a text is made of one character only.
pub open spec fn is_run(s: Seq<char>, c: char) -> bool {
    forall|i: int| 0 <= i < s.len() ==> #[trigger] s[i] == c
}

/// A character is stripped from both ends as often as it stands there, and from nowhere else.
pub proof fn lemma_stripped(before: Seq<char>, s: Seq<char>, behind: Seq<char>, c: char)
    requires
        is_run(before, c),
        is_run(behind, c),
        s.len() > 0 ==> s[0] != c && s.last() != c,
    ensures
        stripped(before + s + behind, c) == s,
{
    let t = before + s + behind;
    let lo = before.len() as int;
    let hi = lo + s.len();
    if s.len() == 0 {
        assert forall|i: int| 0 <= i < t.len() implies #[trigger] t[i] == c by {
            assert(t[i] == if i < lo { before[i] } else { behind[i - lo] });
        }
        lemma_skip_char_to(t, c, 0, t.len() as int);
        assert(stripped(t, c) =~= s);
    } else {
        assert forall|i: int| 0 <= i < lo implies #[trigger] t[i] == c by {
            assert(t[i] == before[i]);
        }
        assert forall|i: int| hi <= i < t.len() implies #[trigger] t[i] == c by {
            assert(t[i] == behind[i - hi]);
        }
        assert(t[lo] == s[0] && t[hi - 1] == s.last());
        lemma_skip_char_to(t, c, 0, lo);
        lemma_drop_char_to(t, c, lo, t.len() as int, hi);
        assert(t.subrange(lo, hi) =~= s);
    }
}

/// A run at the beginning ends where another character stands.
proof fn lemma_skip_char_to(s: Seq<char>, c: char, i: int, k: int)
    requires
        0 <= i <= k <= s.len(),
        forall|j: int| i <= j < k ==> #[trigger] s[j] == c,
        k < s.len() ==> s[k] != c,
    ensures
        skip_char(s, c, i) == k,
    decreases k - i,
{
    if i < k {
        lemma_skip_char_to(s, c, i + 1, k);
    }
}

/// A run at the end begins behind another character.
proof fn lemma_drop_char_to(s: Seq<char>, c: char, lo: int, n: int, k: int)
    requires
        0 <= lo < k <= n <= s.len(),
        forall|j: int| k <= j < n ==> #[trigger] s[j] == c,
        s[k - 1] != c,
    ensures
        drop_char(s, c, lo, n) == k,
    decreases n - k,
{
    if k < n {
        lemma_drop_char_to(s, c, lo, n - 1, k);
    }
}

/// A word is what stands before the first white space, or the whole text.
pub proof fn lemma_word(word: Seq<char>, tail: Seq<char>)
    requires
        forall|i: int| 0 <= i < word.len() ==> !is_white_space(#[trigger] word[i]),
        tail.len() > 0 ==> is_white_space(tail[0]),
    ensures
        (word + tail).take(word_end(word + tail, 0)) == word,
{
    let s = word + tail;
    let k = word.len() as int;
    assert forall|j: int| 0 <= j < k implies !is_white_space(#[trigger] s[j]) by {
        assert(s[j] == word[j]);
    }
    if tail.len() > 0 {
        assert(s[k] == tail[0]);
    }
    lemma_word_end_at(s, 0, k);
    assert(s.take(k) =~= word);
}

/// What stands behind the last `x` is found: nothing of it is `x`, and an `x` stands right before
/// it unless there is none.
pub proof fn lemma_behind_last<A>(before: Seq<A>, x: A, tail: Seq<A>)
    requires
        before.len() > 0 ==> before.last() == x,
        forall|i: int| 0 <= i < tail.len() ==> tail[i] != x,
    ensures
        (before + tail).skip(behind_last(before + tail, x, (before + tail).len() as int)) == tail,
{
    let s = before + tail;
    let k = before.len() as int;
    assert forall|j: int| k <= j < s.len() implies s[j] != x by {
        assert(s[j] == tail[j - k]);
    }
    if k > 0 {
        assert(s[k - 1] == before.last());
    }
    lemma_behind_last_at(s, x, s.len() as int, k);
    assert(s.skip(k) =~= tail);
}

/// The last `x` is the one that no other follows.
proof fn lemma_behind_last_at<A>(s: Seq<A>, x: A, n: int, k: int)
    requires
        0 <= k <= n <= s.len(),
        k > 0 ==> s[k - 1] == x,
        forall|j: int| k <= j < n ==> s[j] != x,
    ensures
        behind_last(s, x, n) == k,
    decreases n - k,
{
    if k < n {
        lemma_behind_last_at(s, x, n - 1, k);
    }
}

/// A text stands in another one exactly where that one is made of something, the text, and
/// something else.
pub proof fn lemma_occurs<A>(hay: Seq<A>, needle: Seq<A>, before: Seq<A>, behind: Seq<A>)
    ensures
        hay == before + needle + behind ==> occurs_at(hay, needle, before.len() as int)
            && occurs_in(hay, needle),
        occurs_in(hay, needle) ==> exists|a: Seq<A>, b: Seq<A>| hay == #[trigger] (a + needle + b),
{
    if hay == before + needle + behind {
        let i = before.len() as int;
        assert(hay.subrange(i, i + needle.len()) =~= needle);
        assert(occurs_at(hay, needle, i));
    }
    if occurs_in(hay, needle) {
        let i = choose|i: int| occurs_at(hay, needle, i);
        let a = hay.take(i);
        let b = hay.skip(i + needle.len());
        assert(hay =~= a + hay.subrange(i, i + needle.len()) + b);
        assert(hay == a + needle + b);
    }
}

/// What follows a prefix is found where the text is that prefix and something more, and only there.
pub proof fn lemma_after_prefix(s: Seq<char>, prefix: Seq<char>, rest: Seq<char>)
    ensures
        after_prefix(s, prefix) == Some(rest) <==> s == prefix + rest,
{
    if s == prefix + rest {
        assert(s.skip(prefix.len() as int) =~= rest);
        assert(prefix =~= s.subrange(0, prefix.len() as int));
    }
    if after_prefix(s, prefix) == Some(rest) {
        assert(prefix == s.subrange(0, prefix.len() as int));
        assert(s =~= prefix + rest);
    }
}

/// Two characters are the same but for the case where they are the same, or one is a capital
/// letter of ASCII and the other its small letter, 32 places behind it.
#[verifier::spinoff_prover]
pub proof fn lemma_ascii_case(a: char, b: char, x: char, y: char)
    requires
        call_ensures(lower, (a,), x),
        call_ensures(lower, (b,), y),
    ensures
        x == y <==> a == b || (('A' <= a && a <= 'Z') && b as u32 == a as u32 + 32) || (('A' <= b
            && b <= 'Z') && a as u32 == b as u32 + 32),
        ('a' <= a && a <= 'z') ==> x == a,
        x == ascii_lower(a),
{
}

/// A line ends with a line feed, with a carriage return before it or not, and the lines behind it
/// follow. The ending is not part of the line.
pub proof fn lemma_lines(line: Seq<char>, cr: bool, rest: Seq<char>)
    requires
        forall|i: int| 0 <= i < line.len() ==> line[i] != '\n',
        !cr && line.len() > 0 ==> line.last() != '\r',
    ensures
        lines_from(
            line + if cr {
                seq!['\r', '\n']
            } else {
                seq!['\n']
            } + rest,
            0,
        ) == seq![line] + lines_from(rest, 0),
{
    let ending = if cr {
        seq!['\r', '\n']
    } else {
        seq!['\n']
    };
    let head = line + ending;
    let s = line + ending + rest;
    let feed = head.len() - 1;
    assert(s =~= head + rest);
    assert(s[feed] == '\n');
    assert forall|j: int| 0 <= j < feed implies s[j] != '\n' by {
        assert(s[j] == if j < line.len() { line[j] } else { '\r' });
    }
    lemma_find_at(s, '\n', feed);
    assert(next_line_start(s, 0) == head.len());
    let raw = s.subrange(0, feed);
    if cr {
        assert(raw.last() == '\r');
        assert(raw.drop_last() =~= line);
    } else {
        assert(raw =~= line);
    }
    assert(line_at(s, 0) == line);
    lemma_lines_behind(head, rest, 0);
}

/// The last line needs no ending, and an empty text has no line.
pub proof fn lemma_last_line(line: Seq<char>)
    requires
        forall|i: int| 0 <= i < line.len() ==> line[i] != '\n',
    ensures
        line.len() > 0 ==> lines_from(line, 0) == seq![line],
        line.len() == 0 ==> lines_from(line, 0) == Seq::<Seq<char>>::empty(),
{
    if line.len() > 0 {
        lemma_find_at(line, '\n', line.len() as int);
        assert(line.subrange(0, line.len() as int) =~= line);
        assert(lines_from(line, line.len() as int) == Seq::<Seq<char>>::empty());
        assert(seq![line] + Seq::<Seq<char>>::empty() =~= seq![line]);
    }
}

/// Lines are found the same behind something else.
proof fn lemma_lines_behind(head: Seq<char>, rest: Seq<char>, i: int)
    requires
        0 <= i,
    ensures
        lines_from(head + rest, head.len() + i) == lines_from(rest, i),
    decreases rest.len() - i,
{
    let s = head + rest;
    let n = head.len() as int;
    if i < rest.len() {
        lemma_find_behind(head, rest, '\n', i);
        lemma_find_from(rest, '\n', i);
        let end = find_from(rest, '\n', i);
        assert(s.subrange(n + i, n + end) =~= rest.subrange(i, end));
        assert(s.subrange(n + i, s.len() as int) =~= rest.subrange(i, rest.len() as int));
        assert(line_at(s, n + i) == line_at(rest, i));
        assert(next_line_start(s, n + i) == n + next_line_start(rest, i));
        lemma_lines_behind(head, rest, next_line_start(rest, i));
    }
}

/// A character is found the same behind something else.
proof fn lemma_find_behind(head: Seq<char>, rest: Seq<char>, c: char, i: int)
    requires
        0 <= i <= rest.len(),
    ensures
        find_from(head + rest, c, head.len() + i) == head.len() + find_from(rest, c, i),
    decreases rest.len() - i,
{
    if i < rest.len() {
        assert((head + rest)[head.len() + i] == rest[i]);
        if rest[i] != c {
            lemma_find_behind(head, rest, c, i + 1);
        }
    }
}

/// A digit has a value below the radix: a figure its own, the letters those from ten on, capital or
/// not. No other character is a digit.
#[verifier::spinoff_prover]
pub proof fn lemma_digit(c: char, radix: nat, v: nat)
    requires
        radix <= 36,
    ensures
        digit_value(c, radix) == Some(v) <==> v < radix && (if v < 10 {
            c as u32 == 0x30 + v
        } else {
            c as u32 == 0x61 + (v - 10) || c as u32 == 0x41 + (v - 10)
        }),
{
}

/// The value of digits is that of the digits before the last one, times the radix, and of the last
/// one; no digits are zero. Something that is no digit spoils the number wherever it stands.
pub proof fn lemma_digits(s: Seq<char>, c: char, radix: nat)
    requires
        radix > 0,
    ensures
        digits_value(Seq::<char>::empty(), radix) == Some(0nat),
        digits_value(s, radix) is Some && digit_value(c, radix) is Some ==> digits_value(
            s.push(c),
            radix,
        ) == Some(digits_value(s, radix)->0 * radix + digit_value(c, radix)->0),
        digits_value(s, radix) is Some <==> forall|i: int|
            0 <= i < s.len() ==> digit_value(#[trigger] s[i], radix) is Some,
    decreases s.len(),
{
    assert(s.push(c).drop_last() =~= s);
    if s.len() > 0 {
        let most = s.drop_last();
        lemma_digits(most, c, radix);
        if digits_value(s, radix) is Some {
            assert forall|i: int| 0 <= i < s.len() implies digit_value(
                #[trigger] s[i],
                radix,
            ) is Some by {
                if i < most.len() {
                    assert(most[i] == s[i]);
                }
            }
        }
        if forall|i: int| 0 <= i < s.len() ==> digit_value(#[trigger] s[i], radix) is Some {
            assert forall|i: int| 0 <= i < most.len() implies digit_value(
                #[trigger] most[i],
                radix,
            ) is Some by {
                assert(most[i] == s[i]);
            }
            assert(digit_value(s[s.len() - 1], radix) is Some);
        }
    }
}

/// An unsigned number is read: digits, with a plus sign before them or not, give their value where
/// it is one of a `usize`, and nothing where it is not. Without a digit there is no number.
pub proof fn lemma_unsigned(digits: Seq<char>, radix: nat, plus: bool)
    requires
        2 <= radix <= 36,
        digits_value(digits, radix) is Some,
    ensures
        ({
            let v = digits_value(digits, radix)->0;
            let s = if plus {
                seq!['+'] + digits
            } else {
                digits
            };
            &&& digits.len() > 0 && v <= usize::MAX ==> unsigned_value(s, radix) == Some(v as usize)
            &&& digits.len() == 0 || v > usize::MAX ==> unsigned_value(s, radix) is None
        }),
{
    lemma_digits(digits, '0', radix);
    if plus {
        assert((seq!['+'] + digits).skip(1) =~= digits);
    } else if digits.len() > 0 {
        assert(digit_value(digits[0], radix) is Some);
    }
}

/// The decimal figures of a number are read as that number, whatever white space is around them.
pub proof fn lemma_figures_parsed(before: Seq<char>, n: nat, behind: Seq<char>)
    requires
        is_blank(before),
        is_blank(behind),
    ensures
        unsigned_value(trimmed(before + figures(n) + behind), 10) == if n <= usize::MAX {
            Some(n as usize)
        } else {
            None
        },
{
    lemma_figures_read_back(n);
    lemma_trimmed(before, figures(n), behind);
    lemma_unsigned(figures(n), 10, false);
}

/// The hexadecimal figures of a number, in small letters.
pub open spec fn hex_figures(n: nat) -> Seq<char>
    decreases n,
{
    let low = n % 16;
    let last = (if low < 10 {
        low + 0x30
    } else {
        low + 0x57
    }) as char;
    if n < 16 {
        seq![last]
    } else {
        hex_figures(n / 16).push(last)
    }
}

/// The hexadecimal figures of a number write that number, in small letters or in capital ones.
pub proof fn lemma_hex_read_back(n: nat, s: Seq<char>)
    requires
        same_ignoring_ascii_case(s, hex_figures(n)),
    ensures
        digits_value(s, 16) == Some(n),
        s.len() > 0,
        is_tight(s),
        forall|i: int| 0 <= i < s.len() ==> ('0' <= #[trigger] s[i] && s[i] <= '9') || ('a' <= s[i]
            && s[i] <= 'f') || ('A' <= s[i] && s[i] <= 'F'),
    decreases n,
{
    let h = hex_figures(n);
    let low = n % 16;
    let last = (if low < 10 {
        low + 0x30
    } else {
        low + 0x57
    }) as char;
    assert(h.last() == last);
    let most = s.drop_last();
    assert(ascii_lower(s[s.len() - 1]) == ascii_lower(h[h.len() - 1]));
    assert(digit_value(s.last(), 16) == Some(low));
    if n < 16 {
        assert(most =~= seq![]);
        assert(digits_value(most, 16) == Some(0nat));
    } else {
        assert(h.drop_last() =~= hex_figures(n / 16));
        assert forall|i: int| 0 <= i < most.len() implies #[trigger] ascii_lower(most[i])
            == ascii_lower(hex_figures(n / 16)[i]) by {
            assert(ascii_lower(s[i]) == ascii_lower(h[i]));
        }
        lemma_hex_read_back(n / 16, most);
        assert forall|i: int| 0 <= i < s.len() implies ('0' <= #[trigger] s[i] && s[i] <= '9') || (
        'a' <= s[i] && s[i] <= 'f') || ('A' <= s[i] && s[i] <= 'F') by {
            if i < most.len() {
                assert(s[i] == most[i]);
            }
        }
        assert(s[0] == most[0]);
    }
}

/// Two texts one behind the other are encoded one behind the other.
pub proof fn lemma_encoded_joined(s: Seq<char>, t: Seq<char>)
    ensures
        vstd::utf8::encode_utf8(s + t) == vstd::utf8::encode_utf8(s) + vstd::utf8::encode_utf8(t),
    decreases s.len(),
{
    let (a, b) = (vstd::utf8::encode_utf8(s), vstd::utf8::encode_utf8(t));
    if s.len() == 0 {
        assert(s + t =~= t);
        assert(a + b =~= b);
    } else {
        lemma_encoded_joined(s.drop_first(), t);
        assert((s + t).drop_first() =~= s.drop_first() + t);
        assert((s + t)[0] == s[0]);
        let first = vstd::utf8::encode_scalar(s[0] as u32);
        let rest = vstd::utf8::encode_utf8(s.drop_first());
        assert(a + b =~= first + (rest + b));
    }
}

/// A character of ASCII is one byte, and any other has no byte of ASCII.
pub proof fn lemma_encoded_char(c: char)
    ensures
        c as u32 <= 0x7f ==> vstd::utf8::encode_scalar(c as u32) == seq![c as u8],
        c as u32 > 0x7f ==> vstd::utf8::encode_scalar(c as u32).len() >= 2,
        c as u32 > 0x7f ==> forall|i: int|
            0 <= i < vstd::utf8::encode_scalar(c as u32).len() ==> #[trigger]
            vstd::utf8::encode_scalar(c as u32)[i] >= 0x80,
{
    let u = c as u32;
    if u <= 0x7f {
        assert((u & 0x7f) as u8 == u as u8) by (bit_vector)
            requires
                u <= 0x7f,
        ;
    } else {
        assert(0xc0 | ((u >> 6) & 0x1f) as u8 >= 0x80) by (bit_vector);
        assert(0xe0 | ((u >> 12) & 0x0f) as u8 >= 0x80) by (bit_vector);
        assert(0xf0 | ((u >> 18) & 0x7) as u8 >= 0x80) by (bit_vector);
        assert(0x80 | (u & 0x3f) as u8 >= 0x80) by (bit_vector);
        assert(0x80 | ((u >> 6) & 0x3f) as u8 >= 0x80) by (bit_vector);
        assert(0x80 | ((u >> 12) & 0x3f) as u8 >= 0x80) by (bit_vector);
    }
}

/// Other characters of ASCII are other bytes.
proof fn lemma_ascii_byte(c: char, b: u8)
    requires
        c as u32 <= 0x7f,
        c != b as char,
    ensures
        c as u8 != b,
{
}

/// A byte of ASCII stands in an encoded text only for its character.
pub proof fn lemma_encoded_without(s: Seq<char>, b: u8)
    requires
        b <= 0x7f,
        forall|i: int| 0 <= i < s.len() ==> s[i] != b as char,
    ensures
        forall|i: int|
            0 <= i < vstd::utf8::encode_utf8(s).len() ==> vstd::utf8::encode_utf8(s)[i] != b,
    decreases s.len(),
{
    if s.len() > 0 {
        lemma_encoded_char(s[0]);
        lemma_encoded_without(s.drop_first(), b);
        let first = vstd::utf8::encode_scalar(s[0] as u32);
        let rest = vstd::utf8::encode_utf8(s.drop_first());
        assert forall|i: int| 0 <= i < (first + rest).len() implies (first + rest)[i] != b by {
            if i < first.len() {
                assert((first + rest)[i] == first[i]);
                if s[0] as u32 <= 0x7f {
                    lemma_ascii_byte(s[0], b);
                }
            } else {
                assert((first + rest)[i] == rest[i - first.len()]);
            }
        }
    }
}

/// A word stands in a text at index `i`, but for the case of ASCII letters.
pub open spec fn word_at(s: Seq<char>, word: Seq<char>, i: int) -> bool {
    &&& 0 <= i
    &&& i + word.len() <= s.len()
    &&& same_ignoring_ascii_case(s.subrange(i, i + word.len()), word)
}

/// A word stands somewhere in a text, but for the case of ASCII letters.
pub open spec fn has_word(s: Seq<char>, word: Seq<char>) -> bool {
    exists|i: int| word_at(s, word, i)
}

/// A text is what is left of it by trimming, with white space around it.
pub proof fn lemma_trimmed_parts(s: Seq<char>) -> (parts: (Seq<char>, Seq<char>))
    ensures
        is_blank(parts.0),
        is_blank(parts.1),
        is_tight(trimmed(s)),
        s == parts.0 + trimmed(s) + parts.1,
{
    let n = s.len() as int;
    let lo = skip_white(s, 0);
    lemma_skip_white_stops(s, 0);
    let hi = drop_white(s, lo, n);
    lemma_drop_white_ends(s, lo, n);
    let parts = (s.take(lo), s.skip(hi));
    assert forall|i: int| 0 <= i < parts.1.len() implies is_white_space(#[trigger] parts.1[i]) by {
        assert(parts.1[i] == s[hi + i]);
    }
    assert(s =~= parts.0 + s.subrange(lo, hi) + parts.1);
    parts
}

/// White space at the beginning is all that is passed over.
proof fn lemma_skip_white_stops(s: Seq<char>, i: int)
    requires
        0 <= i <= s.len(),
    ensures
        i <= skip_white(s, i) <= s.len(),
        forall|j: int| i <= j < skip_white(s, i) ==> is_white_space(#[trigger] s[j]),
        skip_white(s, i) < s.len() ==> !is_white_space(s[skip_white(s, i)]),
    decreases s.len() - i,
{
    if i < s.len() && is_white_space(s[i]) {
        lemma_skip_white_stops(s, i + 1);
    }
}

/// White space at the end is all that is left off.
proof fn lemma_drop_white_ends(s: Seq<char>, lo: int, n: int)
    requires
        0 <= lo <= n <= s.len(),
    ensures
        lo <= drop_white(s, lo, n) <= n,
        forall|j: int| drop_white(s, lo, n) <= j < n ==> is_white_space(#[trigger] s[j]),
        drop_white(s, lo, n) > lo ==> !is_white_space(s[drop_white(s, lo, n) - 1]),
    decreases n - lo,
{
    if n > lo && is_white_space(s[n - 1]) {
        lemma_drop_white_ends(s, lo, n - 1);
    }
}

/// More white space around a text does not change what is left of it by trimming.
pub proof fn lemma_trimmed_again(before: Seq<char>, s: Seq<char>, behind: Seq<char>)
    requires
        is_blank(before),
        is_blank(behind),
    ensures
        trimmed(before + s + behind) == trimmed(s),
        trimmed(trimmed(s)) == trimmed(s),
{
    let (a, b) = lemma_trimmed_parts(s);
    let t = trimmed(s);
    let front = before + a;
    let back = b + behind;
    assert forall|i: int| 0 <= i < front.len() implies is_white_space(#[trigger] front[i]) by {
        assert(front[i] == if i < before.len() { before[i] } else { a[i - before.len()] });
    }
    assert forall|i: int| 0 <= i < back.len() implies is_white_space(#[trigger] back[i]) by {
        assert(back[i] == if i < b.len() { b[i] } else { behind[i - b.len()] });
    }
    lemma_trimmed(front, t, back);
    assert(front + t + back =~= before + s + behind);
    let none = Seq::<char>::empty();
    lemma_trimmed(none, t, none);
    assert(none + t + none =~= t);
}

/// The first word of a text that may begin with white space, and may go on behind more of it.
pub proof fn lemma_leading_word(before: Seq<char>, word: Seq<char>, tail: Seq<char>)
    requires
        is_blank(before),
        word.len() > 0,
        forall|i: int| 0 <= i < word.len() ==> !is_white_space(#[trigger] word[i]),
        tail.len() > 0 ==> is_white_space(tail[0]),
    ensures
        ({
            let t = trimmed(before + word + tail);
            t.len() > 0 && t.take(word_end(t, 0)) == word
        }),
{
    let none = Seq::<char>::empty();
    let s = word + tail;
    lemma_trimmed_again(before, s, none);
    assert(before + s + none =~= before + word + tail);
    let (a, b) = lemma_trimmed_parts(s);
    let t = trimmed(s);
    if a.len() > 0 {
        assert(s[0] == a[0] && s[0] == word[0]);
        assert(is_white_space(a[0]));
    }
    assert(a =~= none);
    assert(s =~= t + b);
    if t.len() < word.len() {
        assert(s[t.len() as int] == b[0] && s[t.len() as int] == word[t.len() as int]);
    }
    let more = t.skip(word.len() as int);
    assert(t.take(word.len() as int) =~= word) by {
        assert forall|i: int| 0 <= i < word.len() implies t[i] == word[i] by {
            assert(s[i] == t[i] && s[i] == word[i]);
        }
    }
    assert(t =~= word + more);
    if more.len() > 0 {
        assert(more[0] == s[word.len() as int]);
        assert(s[word.len() as int] == tail[0]);
    }
    lemma_word(word, more);
}

/// Digits without leading zeros are the figures of the number that they write.
pub proof fn lemma_digits_are_figures(s: Seq<char>, v: nat)
    requires
        s.len() > 0,
        s.len() > 1 ==> s[0] != '0',
        digits_value(s, 10) == Some(v),
    ensures
        s == figures(v),
    decreases s.len(),
{
    let most = s.drop_last();
    let low = digit_value(s.last(), 10)->0;
    let high = digits_value(most, 10)->0;
    lemma_digit(s.last(), 10, low);
    assert(s.last() == (low + 0x30) as char);
    if s.len() == 1 {
        assert(most =~= seq![]);
        assert(s =~= seq![s.last()]);
    } else {
        assert(most[0] == s[0]);
        lemma_digits_are_figures(most, high);
        lemma_figures_read_back(high);
        if high == 0 {
            assert(figures(0)[0] == '0');
        }
        assert(v / 10 == high && v % 10 == low);
        assert(s =~= most.push(s.last()));
    }
}

/// What has a character that is no digit in it is no number, but for the plus sign that it may
/// begin with.
pub proof fn lemma_not_unsigned(s: Seq<char>, radix: nat, i: int)
    requires
        2 <= radix <= 36,
        0 <= i < s.len(),
        digit_value(s[i], radix) is None,
        i > 0 || s[0] != '+',
    ensures
        unsigned_value(s, radix) is None,
{
    let digits = unsigned_digits(s);
    let k = i - (s.len() - digits.len());
    assert(digits[k] == s[i]);
    lemma_digits(digits, '0', radix);
}

} // verus!
