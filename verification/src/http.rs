//! The parts of a minimal HTTP/1.1 GET that are plain text: the URL, the
//! request and the head of the response.

use vstd::prelude::*;
use vstd::string::StrSliceExecFns;

use crate::bounded;
use crate::bounded::Text;
use crate::text;

verus! {

/// How the end of a response body is found.
#[derive(Clone, Copy, PartialEq, Eq, Structural)]
pub enum BodyKind {
    /// The body has this many bytes.
    Length(usize),
    /// The body comes in chunks, each with its size before it.
    Chunked,
    /// The body ends with the connection.
    UntilEof,
}

/// `b` with an ASCII capital letter replaced by its small letter.
pub open spec fn lower_byte(b: u8) -> u8 {
    if 0x41 <= b <= 0x5a {
        (b + 32) as u8
    } else {
        b
    }
}

/// `needle` stands in `hay` at index `i`, but for the case of ASCII letters.
pub open spec fn occurs_at_ci(hay: Seq<u8>, needle: Seq<u8>, i: int) -> bool {
    &&& 0 <= i
    &&& i + needle.len() <= hay.len()
    &&& forall|j: int|
        0 <= j < needle.len() ==> lower_byte(hay[i + j]) == lower_byte(#[trigger] needle[j])
}

/// `needle` stands somewhere in `hay`, but for the case of ASCII letters.
pub open spec fn occurs_in_ci(hay: Seq<u8>, needle: Seq<u8>) -> bool {
    exists|i: int| occurs_at_ci(hay, needle, i)
}

/// The value of the header field `name`, where `line` holds that field.
pub open spec fn field_value(line: Seq<char>, name: Seq<char>) -> Option<Seq<char>> {
    let colon = text::find_from(line, ':', 0);
    if colon < line.len() && text::same_ignoring_ascii_case(line.take(colon), name) {
        Some(line.skip(colon + 1))
    } else {
        None
    }
}

/// The lines of a head; a head that is not UTF-8 has none.
pub open spec fn head_lines(head: Seq<u8>) -> Seq<Seq<char>> {
    if vstd::utf8::valid_utf8(head) {
        text::lines_from(vstd::utf8::decode_utf8(head), 0)
    } else {
        seq![]
    }
}

/// The status line of a head is that of a success.
pub open spec fn status_ok(head: Seq<u8>) -> bool {
    let lines = head_lines(head);
    lines.len() > 0 && (text::occurs_in(lines[0], "HTTP/1.1 200"@) || text::occurs_in(
        lines[0],
        "HTTP/1.0 200"@,
    ))
}

/// The first `Connection` field among the lines asks to close.
pub open spec fn asks_to_close(lines: Seq<Seq<char>>) -> bool
    decreases lines.len(),
{
    if lines.len() == 0 {
        false
    } else {
        match field_value(lines[0], "connection"@) {
            Some(v) => occurs_in_ci(
                vstd::utf8::encode_utf8(v),
                vstd::utf8::encode_utf8("close"@),
            ),
            None => asks_to_close(lines.drop_first()),
        }
    }
}

/// The length that one line declares.
pub open spec fn line_length(line: Seq<char>) -> Option<usize> {
    match field_value(line, "content-length"@) {
        Some(v) => text::unsigned_value(text::trimmed(v), 10),
        None => None,
    }
}

/// The length that the last line to declare one declares.
pub open spec fn declared_length(lines: Seq<Seq<char>>) -> Option<usize>
    decreases lines.len(),
{
    if lines.len() == 0 {
        None
    } else if line_length(lines.last()) is Some {
        line_length(lines.last())
    } else {
        declared_length(lines.drop_last())
    }
}

/// The line says that the body is chunked.
pub open spec fn line_chunked(line: Seq<char>) -> bool {
    match field_value(line, "transfer-encoding"@) {
        Some(v) => occurs_in_ci(vstd::utf8::encode_utf8(v), vstd::utf8::encode_utf8("chunked"@)),
        None => false,
    }
}

/// A chunked body is chunked whatever length is declared; a body with neither
/// ends with the connection.
pub open spec fn body_kind(head: Seq<u8>) -> BodyKind {
    let lines = head_lines(head);
    if exists|i: int| 0 <= i < lines.len() && line_chunked(#[trigger] lines[i]) {
        BodyKind::Chunked
    } else {
        match declared_length(lines) {
            Some(n) => BodyKind::Length(n),
            None => BodyKind::UntilEof,
        }
    }
}

/// An empty line ends at `i + 4`.
pub open spec fn blank_line_at(data: Seq<u8>, i: int) -> bool {
    &&& 0 <= i
    &&& i + 4 <= data.len()
    &&& data[i] == 0x0d
    &&& data[i + 1] == 0x0a
    &&& data[i + 2] == 0x0d
    &&& data[i + 3] == 0x0a
}

/// The index behind the first empty line that begins at `i` or later.
pub open spec fn header_end_from(data: Seq<u8>, i: int) -> Option<int>
    decreases data.len() - i,
{
    if i + 4 > data.len() {
        None
    } else if blank_line_at(data, i) {
        Some(i + 4)
    } else {
        header_end_from(data, i + 1)
    }
}

/// The index behind the first empty line.
pub open spec fn header_end(data: Seq<u8>) -> Option<int> {
    header_end_from(data, 0)
}

/// What `header_end_from` says of the data.
pub proof fn lemma_header_end_from(data: Seq<u8>, i: int)
    requires
        0 <= i,
    ensures
        match header_end_from(data, i) {
            Some(p) => i + 4 <= p <= data.len() && blank_line_at(data, p - 4) && forall|j: int|
                i <= j < p - 4 ==> !blank_line_at(data, j),
            None => forall|j: int| i <= j ==> !blank_line_at(data, j),
        },
    decreases data.len() - i,
{
    if i + 4 <= data.len() && !blank_line_at(data, i) {
        lemma_header_end_from(data, i + 1);
    }
}

/// Where a blank line is the first one, the head ends behind it.
pub proof fn lemma_header_end_at(data: Seq<u8>, p: int)
    requires
        blank_line_at(data, p - 4),
        forall|j: int| 0 <= j < p - 4 ==> !blank_line_at(data, j),
    ensures
        header_end(data) == Some(p),
{
    lemma_header_end_from(data, 0);
}

/// The size on a chunk's size line: what stands before a semicolon, in
/// hexadecimal digits.
pub open spec fn chunk_size(line: Seq<u8>) -> Option<usize> {
    let hex = line.take(text::find_from(line, 0x3bu8, 0));
    if vstd::utf8::valid_utf8(hex) {
        text::unsigned_value(text::trimmed(vstd::utf8::decode_utf8(hex)), 16)
    } else {
        None
    }
}

/// The parts of a URL: host, path, and whether it asks for TLS.
pub struct UrlView {
    pub host: Seq<char>,
    pub path: Seq<char>,
    pub use_tls: bool,
}

/// The host and the path in what follows the scheme. A port is dropped; a
/// missing path is `/`.
pub open spec fn authority_and_path(rest: Seq<char>, use_tls: bool) -> Option<UrlView> {
    let slash = text::find_from(rest, '/', 0);
    let authority = rest.take(slash);
    let host = authority.take(text::find_from(authority, ':', 0));
    if host.len() == 0 {
        None
    } else {
        Some(
            UrlView {
                host,
                path: if slash < rest.len() {
                    rest.skip(slash)
                } else {
                    "/"@
                },
                use_tls,
            },
        )
    }
}

/// The parts of `url`, where it is an `http` or `https` URL with a host.
pub open spec fn url_parts(url: Seq<char>) -> Option<UrlView> {
    if let Some(rest) = text::after_prefix(url, "https://"@) {
        authority_and_path(rest, true)
    } else if let Some(rest) = text::after_prefix(url, "http://"@) {
        authority_and_path(rest, false)
    } else {
        None
    }
}

/// The size of the request buffer.
pub open spec fn request_limit() -> int {
    288
}

/// The request as it is written: each part in turn, a part that does not fit
/// left out.
pub open spec fn request_of(path: Seq<char>, host: Seq<char>) -> Seq<char> {
    let n = request_limit();
    let a = bounded::appended(seq![], "GET "@, n);
    let b = bounded::appended(a, path, n);
    let c = bounded::appended(b, " HTTP/1.1\r\nHost: "@, n);
    let d = bounded::appended(c, host, n);
    bounded::appended(d, request_fields(), n)
}

/// The request's fields behind the host, and its empty line.
pub open spec fn request_fields() -> Seq<char> {
    "\r\nUser-Agent: metric-gauge\r\nAccept: text/plain\r\nConnection: keep-alive\r\n\r\n"@
}

/// The size on a chunk's size line.
pub fn parse_hex_size(line: &[u8]) -> (r: Option<usize>)
    ensures
        r == chunk_size(line@),
{
    let n: usize = line.len();
    let mut end: usize = 0;
    while end < n && line[end] != 0x3b
        invariant
            end <= n,
            n == line@.len(),
            text::find_from(line@, 0x3bu8, 0) == text::find_from(line@, 0x3bu8, end as int),
        decreases n - end,
    {
        end += 1;
    }
    let hex = vstd::slice::slice_subrange(line, 0, end);
    match text::utf8_text(hex) {
        Some(s) => text::parse_unsigned(text::trim(s), 16),
        None => None,
    }
}

/// The index behind the first empty line.
pub fn find_header_end(data: &[u8]) -> (r: Option<usize>)
    ensures
        match r {
            Some(p) => header_end(data@) == Some(p as int) && 4 <= p <= data@.len(),
            None => header_end(data@) is None,
        },
{
    let n: usize = data.len();
    let mut i: usize = 0;
    while n >= 4 && i <= n - 4
        invariant
            i <= n,
            n == data@.len(),
            header_end(data@) == header_end_from(data@, i as int),
        decreases n - i,
    {
        if data[i] == 0x0d && data[i + 1] == 0x0a && data[i + 2] == 0x0d && data[i + 3] == 0x0a {
            return Some(i + 4);
        }
        i += 1;
    }
    None
}

/// The status line of a head is that of a success.
pub fn parse_status_ok(headers: &[u8]) -> (r: bool)
    ensures
        r == status_ok(headers@),
{
    match text::utf8_text(headers) {
        None => false,
        Some(s) => {
            let lines = text::lines(s);
            let ghost all = lines@.map_values(|l: &str| l@);
            assert(lines.len() == all.len());
            if lines.len() == 0 {
                return false;
            }
            assert(all[0] == lines[0]@);
            text::contains(lines[0], "HTTP/1.1 200") || text::contains(lines[0], "HTTP/1.0 200")
        },
    }
}

/// `b` with an ASCII capital letter replaced by its small letter.
fn to_lower(b: u8) -> (r: u8)
    ensures
        r == lower_byte(b),
{
    if 0x41 <= b && b <= 0x5a {
        b + 32
    } else {
        b
    }
}

/// `needle` stands somewhere in `hay`, but for the case of ASCII letters.
pub fn ascii_contains_ci(hay: &str, needle: &[u8]) -> (r: bool)
    requires
        needle@.len() > 0,
    ensures
        r == occurs_in_ci(vstd::utf8::encode_utf8(hay@), needle@),
{
    let hs = hay.as_bytes();
    let n: usize = hs.len();
    let m: usize = needle.len();
    if m > n {
        return false;
    }
    let mut i: usize = 0;
    while i <= n - m
        invariant
            i <= n - m + 1,
            m <= n,
            n == hs@.len(),
            m == needle@.len(),
            hs@ == vstd::utf8::encode_utf8(hay@),
            forall|k: int| 0 <= k < i ==> !occurs_at_ci(hs@, needle@, k),
        decreases n - m + 1 - i,
    {
        let mut j: usize = 0;
        while j < m && to_lower(hs[i + j]) == to_lower(needle[j])
            invariant
                j <= m,
                i + m <= n,
                n == hs@.len(),
                m == needle@.len(),
                forall|k: int|
                    0 <= k < j ==> lower_byte(hs@[i + k]) == lower_byte(#[trigger] needle@[k]),
            decreases m - j,
        {
            j += 1;
        }
        if j == m {
            assert(occurs_at_ci(hs@, needle@, i as int));
            return true;
        }
        assert(lower_byte(hs@[i + j]) != lower_byte(needle@[j as int]));
        i += 1;
    }
    false
}

/// The value of the header field `name`, where `line` holds that field.
fn field<'a>(line: &'a str, name: &str) -> (r: Option<&'a str>)
    ensures
        match r {
            Some(v) => field_value(line@, name@) == Some(v@),
            None => field_value(line@, name@) is None,
        },
{
    let n: usize = line.unicode_len();
    let colon: usize = text::find_char(line, ':');
    if colon < n && text::eq_ignoring_ascii_case(line.substring_char(0, colon), name) {
        let v = line.substring_char(colon + 1, n);
        Some(v)
    } else {
        None
    }
}

/// The first `Connection` field of a head asks to close.
pub fn header_has_connection_close(headers: &[u8]) -> (r: bool)
    ensures
        r == asks_to_close(head_lines(headers@)),
{
    let s = match text::utf8_text(headers) {
        Some(s) => s,
        None => {
            return false;
        },
    };
    let lines = text::lines(s);
    let ghost all = lines@.map_values(|l: &str| l@);
    let n: usize = lines.len();
    let mut i: usize = 0;
    assert(all.skip(0) =~= all);
    while i < n
        invariant
            i <= n,
            n == lines@.len(),
            all == lines@.map_values(|l: &str| l@),
            all == head_lines(headers@),
            asks_to_close(all) == asks_to_close(all.skip(i as int)),
        decreases n - i,
    {
        assert(all.skip(i as int)[0] == lines@[i as int]@);
        assert(all.skip(i as int).drop_first() =~= all.skip(i + 1));
        if let Some(v) = field(lines[i], "connection") {
            let needle = "close".as_bytes();
            proof {
                lemma_word_bytes_not_empty();
            }
            return ascii_contains_ci(v, needle);
        }
        i += 1;
    }
    false
}

/// The words that are searched for are not empty.
proof fn lemma_word_bytes_not_empty()
    ensures
        vstd::utf8::encode_utf8("close"@).len() > 0,
        vstd::utf8::encode_utf8("chunked"@).len() > 0,
{
    reveal_strlit("close");
    reveal_strlit("chunked");
    vstd::utf8::is_ascii_chars_encode_utf8("close"@);
    vstd::utf8::is_ascii_chars_encode_utf8("chunked"@);
}

/// How the end of the body behind this head is found. That the peer closes the
/// connection makes no difference.
pub fn parse_body_kind(headers: &[u8], _peer_close: bool) -> (r: BodyKind)
    ensures
        r == body_kind(headers@),
{
    let s = match text::utf8_text(headers) {
        Some(s) => s,
        None => {
            return BodyKind::UntilEof;
        },
    };
    let lines = text::lines(s);
    let ghost all = lines@.map_values(|l: &str| l@);
    let n: usize = lines.len();
    let mut length: Option<usize> = None;
    let mut chunked = false;
    let mut i: usize = 0;
    while i < n
        invariant
            i <= n,
            n == lines@.len(),
            all == lines@.map_values(|l: &str| l@),
            length == declared_length(all.take(i as int)),
            chunked == exists|k: int| 0 <= k < i && line_chunked(#[trigger] all[k]),
        decreases n - i,
    {
        assert(all.take(i + 1).drop_last() =~= all.take(i as int));
        assert(all.take(i + 1).last() == all[i as int]);
        assert(all[i as int] == lines@[i as int]@);
        if let Some(v) = field(lines[i], "content-length") {
            if let Some(len) = text::parse_unsigned(text::trim(v), 10) {
                length = Some(len);
            }
        }
        if let Some(v) = field(lines[i], "transfer-encoding") {
            let needle = "chunked".as_bytes();
            proof {
                lemma_word_bytes_not_empty();
            }
            if ascii_contains_ci(v, needle) {
                assert(line_chunked(all[i as int]));
                chunked = true;
            }
        }
        i += 1;
    }
    assert(all.take(n as int) =~= all);
    if chunked {
        BodyKind::Chunked
    } else {
        match length {
            Some(len) => BodyKind::Length(len),
            None => BodyKind::UntilEof,
        }
    }
}

/// Host, path and whether to use TLS, where `url` is an `http` or `https` URL
/// with a host.
pub fn parse_url<'a>(url: &'a str) -> (r: Option<(&'a str, &'a str, bool)>)
    ensures
        match r {
            Some((host, path, use_tls)) => url_parts(url@) == Some(
                UrlView { host: host@, path: path@, use_tls },
            ),
            None => url_parts(url@) is None,
        },
{
    let (use_tls, rest) = if let Some(rest) = text::strip_prefix(url, "https://") {
        (true, rest)
    } else if let Some(rest) = text::strip_prefix(url, "http://") {
        (false, rest)
    } else {
        return None;
    };
    let n: usize = rest.unicode_len();
    let slash: usize = text::find_char(rest, '/');
    let authority = rest.substring_char(0, slash);
    let path = if slash < n {
        rest.substring_char(slash, n)
    } else {
        "/"
    };
    let host = text::before_char(authority, ':');
    if host.is_empty() {
        return None;
    }
    Some((host, path, use_tls))
}

/// The GET request for `path` at `host`.
pub fn build_request(path: &str, host: &str) -> (r: heapless::String<288>)
    ensures
        r.text() == request_of(path@, host@),
{
    let mut req: heapless::String<288> = bounded::new_text();
    let _ = bounded::push_text(&mut req, "GET ");
    let _ = bounded::push_text(&mut req, path);
    let _ = bounded::push_text(&mut req, " HTTP/1.1\r\nHost: ");
    let _ = bounded::push_text(&mut req, host);
    let _ = bounded::push_text(
        &mut req,
        "\r\nUser-Agent: metric-gauge\r\nAccept: text/plain\r\nConnection: keep-alive\r\n\r\n",
    );
    req
}

/// The bytes of the GET request for `path` at `host`.
pub fn request_bytes(path: &str, host: &str) -> (r: Vec<u8>)
    ensures
        r@ == vstd::utf8::encode_utf8(request_of(path@, host@)),
{
    let req = build_request(path, host);
    vstd::slice::slice_to_vec(bounded::request_str(&req).as_bytes())
}

/// A request that fits is written whole.
pub proof fn lemma_request_whole(path: Seq<char>, host: Seq<char>)
    requires
        bounded::utf8_len(
            "GET "@ + path + " HTTP/1.1\r\nHost: "@ + host + request_fields(),
        ) <= request_limit(),
    ensures
        request_of(path, host) == "GET "@ + path + " HTTP/1.1\r\nHost: "@ + host
            + request_fields(),
{
    let none = Seq::<char>::empty();
    let a = "GET "@;
    let b = a + path;
    let c = b + " HTTP/1.1\r\nHost: "@;
    let d = c + host;
    bounded::lemma_utf8_len_adds(none, a);
    bounded::lemma_utf8_len_adds(a, path);
    bounded::lemma_utf8_len_adds(b, " HTTP/1.1\r\nHost: "@);
    bounded::lemma_utf8_len_adds(c, host);
    bounded::lemma_utf8_len_adds(d, request_fields());
    assert(none + a =~= a);
}

/// The scheme of a URL.
pub open spec fn scheme(use_tls: bool) -> Seq<char> {
    if use_tls {
        "https://"@
    } else {
        "http://"@
    }
}

/// A URL is taken apart into what it was made of: the scheme, the host, a port or none, and a
/// path or none.
pub proof fn lemma_url_parts(use_tls: bool, host: Seq<char>, port: Seq<char>, path: Seq<char>)
    requires
        host.len() > 0,
        forall|i: int| 0 <= i < host.len() ==> host[i] != '/' && host[i] != ':',
        port.len() > 0 ==> port[0] == ':',
        forall|i: int| 0 <= i < port.len() ==> port[i] != '/',
        path.len() > 0 ==> path[0] == '/',
    ensures
        url_parts(scheme(use_tls) + host + port + path) == Some(
            UrlView {
                host,
                path: if path.len() > 0 {
                    path
                } else {
                    "/"@
                },
                use_tls,
            },
        ),
{
    let authority = host + port;
    let rest = authority + path;
    let url = scheme(use_tls) + host + port + path;
    reveal_strlit("https://");
    reveal_strlit("http://");
    assert(url =~= scheme(use_tls) + rest);
    assert(url.skip(scheme(use_tls).len() as int) =~= rest);
    assert(scheme(use_tls).is_prefix_of(url));
    if !use_tls {
        assert(url[4] == ':');
        assert("https://"@[4] == 's');
        assert(!"https://"@.is_prefix_of(url));
    }
    text::lemma_find_at(rest, '/', authority.len() as int);
    assert(rest.take(authority.len() as int) =~= authority);
    assert(rest.skip(authority.len() as int) =~= path);
    text::lemma_find_at(authority, ':', host.len() as int);
    assert(authority.take(host.len() as int) =~= host);
}

/// Two bytes are the same but for the case where they are the same, or one is a capital letter and
/// the other its small letter, 32 places behind it.
#[verifier::spinoff_prover]
pub proof fn lemma_byte_case(a: u8, b: u8)
    ensures
        lower_byte(a) == lower_byte(b) <==> a == b || (0x41 <= a <= 0x5a && b == a + 32) || (0x41
            <= b <= 0x5a && a == b + 32),
{
}

/// The bytes of a word begin an encoded text where its characters do.
#[verifier::spinoff_prover]
proof fn lemma_word_begins(s: Seq<char>, word: Seq<char>)
    requires
        vstd::utf8::is_ascii_chars(word),
    ensures
        occurs_at_ci(vstd::utf8::encode_utf8(s), vstd::utf8::encode_utf8(word), 0)
            <==> text::word_at(s, word, 0),
    decreases word.len(),
{
    let e = vstd::utf8::encode_utf8(s);
    let w = vstd::utf8::encode_utf8(word);
    vstd::utf8::is_ascii_chars_encode_utf8(word);
    if word.len() > 0 {
        let more = word.drop_first();
        let v = vstd::utf8::encode_utf8(more);
        assert(vstd::utf8::is_ascii_chars(more)) by {
            assert forall|i: int| 0 <= i < more.len() implies '\0' <= #[trigger] more[i]
                <= '\u{7f}' by {
                assert(more[i] == word[i + 1]);
            }
        }
        vstd::utf8::is_ascii_chars_encode_utf8(more);
        assert(w[0] == word[0] as u8);
        if s.len() > 0 {
            let rest = s.drop_first();
            let first = vstd::utf8::encode_scalar(s[0] as u32);
            let d = vstd::utf8::encode_utf8(rest);
            assert(e == first + d);
            text::lemma_encoded_char(s[0]);
            lemma_word_begins(rest, more);
            if s[0] as u32 > 0x7f {
                assert(e[0] == first[0]);
                assert(text::ascii_lower(s[0]) != text::ascii_lower(word[0]));
                if occurs_at_ci(e, w, 0) {
                    assert(lower_byte(e[0]) == lower_byte(w[0]));
                }
                if text::word_at(s, word, 0) {
                    assert(text::ascii_lower(s.subrange(0, word.len() as int)[0])
                        == text::ascii_lower(word[0]));
                }
            } else {
                assert(e =~= seq![s[0] as u8] + d);
                assert(lower_byte(e[0]) == lower_byte(w[0]) <==> text::ascii_lower(s[0])
                    == text::ascii_lower(word[0]));
                if occurs_at_ci(e, w, 0) {
                    assert(lower_byte(e[0]) == lower_byte(w[0]));
                    assert forall|j: int| 0 <= j < v.len() implies lower_byte(d[0 + j])
                        == lower_byte(#[trigger] v[j]) by {
                        assert(v[j] == more[j] as u8 && w[j + 1] == word[j + 1] as u8);
                        assert(lower_byte(e[0 + (j + 1)]) == lower_byte(w[j + 1]));
                    }
                    assert(occurs_at_ci(d, v, 0));
                    let t = s.subrange(0, word.len() as int);
                    let u = rest.subrange(0, more.len() as int);
                    assert forall|i: int| 0 <= i < t.len() implies #[trigger] text::ascii_lower(
                        t[i],
                    ) == text::ascii_lower(word[i]) by {
                        if i > 0 {
                            assert(text::ascii_lower(u[i - 1]) == text::ascii_lower(more[i - 1]));
                            assert(t[i] == u[i - 1] && word[i] == more[i - 1]);
                        }
                    }
                }
                if text::word_at(s, word, 0) {
                    let t = s.subrange(0, word.len() as int);
                    let u = rest.subrange(0, more.len() as int);
                    assert(text::ascii_lower(t[0]) == text::ascii_lower(word[0]));
                    assert forall|i: int| 0 <= i < u.len() implies #[trigger] text::ascii_lower(
                        u[i],
                    ) == text::ascii_lower(more[i]) by {
                        assert(text::ascii_lower(t[i + 1]) == text::ascii_lower(word[i + 1]));
                        assert(u[i] == t[i + 1]);
                    }
                    assert(text::word_at(rest, more, 0));
                    assert forall|j: int| 0 <= j < w.len() implies lower_byte(e[0 + j])
                        == lower_byte(#[trigger] w[j]) by {
                        if j > 0 {
                            assert(v[j - 1] == more[j - 1] as u8 && w[j] == word[j] as u8);
                            assert(lower_byte(d[0 + (j - 1)]) == lower_byte(v[j - 1]));
                        }
                    }
                }
            }
        }
    }
}

/// A word of ASCII is found in an encoded text where it stands in the text, but for the case.
pub proof fn lemma_word_found(s: Seq<char>, word: Seq<char>)
    requires
        vstd::utf8::is_ascii_chars(word),
        word.len() > 0,
    ensures
        occurs_in_ci(vstd::utf8::encode_utf8(s), vstd::utf8::encode_utf8(word)) <==> text::has_word(
            s,
            word,
        ),
    decreases s.len(),
{
    let e = vstd::utf8::encode_utf8(s);
    let w = vstd::utf8::encode_utf8(word);
    vstd::utf8::is_ascii_chars_encode_utf8(word);
    assert(w[0] == word[0] as u8);
    lemma_word_begins(s, word);
    if s.len() > 0 {
        let rest = s.drop_first();
        let first = vstd::utf8::encode_scalar(s[0] as u32);
        let d = vstd::utf8::encode_utf8(rest);
        let n = first.len() as int;
        lemma_word_found(rest, word);
        text::lemma_encoded_char(s[0]);
        if occurs_in_ci(e, w) {
            let i = choose|i: int| occurs_at_ci(e, w, i);
            if i >= n {
                assert forall|j: int| 0 <= j < w.len() implies lower_byte(d[i - n + j])
                    == lower_byte(#[trigger] w[j]) by {
                    assert(lower_byte(e[i + j]) == lower_byte(w[j]));
                }
                assert(occurs_at_ci(d, w, i - n));
                let k = choose|k: int| text::word_at(rest, word, k);
                assert(s.subrange(k + 1, k + 1 + word.len()) =~= rest.subrange(
                    k,
                    k + word.len(),
                ));
                assert(text::word_at(s, word, k + 1));
            } else {
                assert(lower_byte(e[i + 0]) == lower_byte(w[0]));
                assert(e[i] == first[i]);
                assert(i == 0);
                assert(text::word_at(s, word, 0));
            }
        }
        if text::has_word(s, word) {
            let k = choose|k: int| text::word_at(s, word, k);
            if k == 0 {
                assert(occurs_at_ci(e, w, 0));
            } else {
                assert(s.subrange(k, k + word.len()) =~= rest.subrange(
                    k - 1,
                    k - 1 + word.len(),
                ));
                assert(text::word_at(rest, word, k - 1));
                let i = choose|i: int| occurs_at_ci(d, w, i);
                assert forall|j: int| 0 <= j < w.len() implies lower_byte(e[i + n + j])
                    == lower_byte(#[trigger] w[j]) by {
                    assert(lower_byte(d[i + j]) == lower_byte(w[j]));
                }
                assert(occurs_at_ci(e, w, i + n));
            }
        }
    } else {
        assert(e.len() == 0);
        if occurs_in_ci(e, w) {
            let i = choose|i: int| occurs_at_ci(e, w, i);
            assert(false);
        }
    }
}

/// A field as it is written: its name, a colon, and its value.
pub open spec fn field_line(name: Seq<char>, value: Seq<char>) -> Seq<char> {
    name + seq![':'] + value
}

/// A field is found by its name, whatever the case, and has what stands behind the first colon for
/// its value. A line with another name is another field, and one without a colon is none.
pub proof fn lemma_field_found(name: Seq<char>, value: Seq<char>, sought: Seq<char>)
    requires
        forall|i: int| 0 <= i < name.len() ==> name[i] != ':',
    ensures
        text::same_ignoring_ascii_case(name, sought) ==> field_value(
            field_line(name, value),
            sought,
        ) == Some(value),
        !text::same_ignoring_ascii_case(name, sought) ==> field_value(
            field_line(name, value),
            sought,
        ) is None,
        field_value(name, sought) is None,
{
    let line = field_line(name, value);
    let k = name.len() as int;
    assert(line[k] == ':');
    assert forall|j: int| 0 <= j < k implies line[j] != ':' by {
        assert(line[j] == name[j]);
    }
    text::lemma_find_at(line, ':', k);
    assert(line.take(k) =~= name);
    assert(line.skip(k + 1) =~= value);
    text::lemma_find_at(name, ':', k);
}

/// Whether a line is a `Content-Length` field with the digits of `n`, its figures or these behind
/// zeros, with white space around them or not.
pub open spec fn declares(line: Seq<char>, n: nat) -> bool {
    exists|name: Seq<char>, before: Seq<char>, digits: Seq<char>, behind: Seq<char>|
        {
            &&& text::same_ignoring_ascii_case(name, "content-length"@)
            &&& text::is_blank(before)
            &&& text::is_blank(behind)
            &&& digits.len() > 0
            &&& text::digits_value(digits, 10) == Some(n)
            &&& line == #[trigger] field_line(name, before + digits + behind)
        }
}

/// A `Content-Length` field with the decimal figures of a number declares that number.
pub proof fn lemma_figures_declare(name: Seq<char>, before: Seq<char>, n: nat, behind: Seq<char>)
    requires
        text::same_ignoring_ascii_case(name, "content-length"@),
        text::is_blank(before),
        text::is_blank(behind),
    ensures
        declares(field_line(name, before + text::figures(n) + behind), n),
{
    text::lemma_figures_read_back(n);
}

/// A field that declares a length declares that length, where it is one of a `usize`.
proof fn lemma_declares(line: Seq<char>, n: nat)
    requires
        declares(line, n),
    ensures
        line_length(line) == if n <= usize::MAX {
            Some(n as usize)
        } else {
            None
        },
{
    let (name, before, digits, behind) = choose|
        name: Seq<char>,
        before: Seq<char>,
        digits: Seq<char>,
        behind: Seq<char>,
    |
        {
            &&& text::same_ignoring_ascii_case(name, "content-length"@)
            &&& text::is_blank(before)
            &&& text::is_blank(behind)
            &&& digits.len() > 0
            &&& text::digits_value(digits, 10) == Some(n)
            &&& line == #[trigger] field_line(name, before + digits + behind)
        };
    reveal_strlit("content-length");
    assert forall|i: int| 0 <= i < name.len() implies name[i] != ':' by {
        assert(text::ascii_lower(name[i]) == text::ascii_lower("content-length"@[i]));
    }
    lemma_field_found(name, before + digits + behind, "content-length"@);
    text::lemma_digits(digits, '0', 10);
    assert(text::digit_value(digits[0], 10) is Some);
    assert(text::digit_value(digits[digits.len() - 1], 10) is Some);
    text::lemma_trimmed(before, digits, behind);
    text::lemma_unsigned(digits, 10, false);
}

/// Whether a line is a `Transfer-Encoding` field that names `chunked` in its value.
pub open spec fn names_chunked(line: Seq<char>) -> bool {
    field_value(line, "transfer-encoding"@) matches Some(v) && text::has_word(v, "chunked"@)
}

/// Whether a line is a `Content-Length` field with a number.
pub open spec fn is_length_field(line: Seq<char>) -> bool {
    field_value(line, "content-length"@) matches Some(v) && text::unsigned_value(
        text::trimmed(v),
        10,
    ) is Some
}

/// A line says that the body is chunked where it is a field that names it.
proof fn lemma_names_chunked(line: Seq<char>)
    ensures
        line_chunked(line) == names_chunked(line),
{
    reveal_strlit("chunked");
    if let Some(v) = field_value(line, "transfer-encoding"@) {
        lemma_word_found(v, "chunked"@);
    }
}

/// The last line that declares a length decides.
proof fn lemma_declared_last(lines: Seq<Seq<char>>, k: int)
    requires
        0 <= k < lines.len(),
        line_length(lines[k]) is Some,
        forall|j: int| k < j < lines.len() ==> line_length(#[trigger] lines[j]) is None,
    ensures
        declared_length(lines) == line_length(lines[k]),
    decreases lines.len(),
{
    if k < lines.len() - 1 {
        assert(line_length(lines[lines.len() - 1]) is None);
        assert forall|j: int| k < j < lines.drop_last().len() implies line_length(
            #[trigger] lines.drop_last()[j],
        ) is None by {
            assert(line_length(lines[j]) is None);
        }
        lemma_declared_last(lines.drop_last(), k);
    }
}

/// Where no line declares a length there is none.
proof fn lemma_declared_none(lines: Seq<Seq<char>>)
    requires
        forall|j: int| 0 <= j < lines.len() ==> line_length(#[trigger] lines[j]) is None,
    ensures
        declared_length(lines) is None,
    decreases lines.len(),
{
    if lines.len() > 0 {
        assert(line_length(lines[lines.len() - 1]) is None);
        assert forall|j: int| 0 <= j < lines.drop_last().len() implies line_length(
            #[trigger] lines.drop_last()[j],
        ) is None by {
            assert(line_length(lines[j]) is None);
        }
        lemma_declared_none(lines.drop_last());
    }
}

/// How the end of a body is found. A head with a `Content-Length` field, which has the figures of a
/// number, and without a chunked `Transfer-Encoding` is followed by as many bytes as that number
/// says, whatever number it is; of several such fields the last one counts. A head with a chunked
/// `Transfer-Encoding` is followed by chunks, whatever else it says, and one with neither by a body
/// that ends with the connection.
pub proof fn lemma_body_kind(head: Seq<u8>, k: int, n: nat)
    ensures
        ({
            let lines = head_lines(head);
            let chunked = exists|j: int| 0 <= j < lines.len() && names_chunked(#[trigger] lines[j]);
            &&& chunked ==> body_kind(head) == BodyKind::Chunked
            &&& !chunked && 0 <= k < lines.len() && declares(lines[k], n) && n <= usize::MAX && (
            forall|j: int|
                k < j < lines.len() ==> !is_length_field(#[trigger] lines[j])) ==> body_kind(head)
                == BodyKind::Length(n as usize)
            &&& !chunked && (forall|j: int|
                0 <= j < lines.len() ==> !is_length_field(#[trigger] lines[j])) ==> body_kind(head)
                == BodyKind::UntilEof
        }),
{
    let lines = head_lines(head);
    let chunked = exists|j: int| 0 <= j < lines.len() && names_chunked(#[trigger] lines[j]);
    assert forall|j: int| 0 <= j < lines.len() implies line_chunked(#[trigger] lines[j])
        == names_chunked(lines[j]) by {
        lemma_names_chunked(lines[j]);
    }
    if chunked {
        let j = choose|j: int| 0 <= j < lines.len() && names_chunked(#[trigger] lines[j]);
        assert(line_chunked(lines[j]));
    } else {
        assert forall|j: int| 0 <= j < lines.len() implies !line_chunked(#[trigger] lines[j]) by {
            assert(!names_chunked(lines[j]));
        }
        if 0 <= k < lines.len() && declares(lines[k], n) && n <= usize::MAX && (forall|j: int|
            k < j < lines.len() ==> !is_length_field(#[trigger] lines[j])) {
            lemma_declares(lines[k], n);
            lemma_declared_last(lines, k);
        }
        if forall|j: int| 0 <= j < lines.len() ==> !is_length_field(#[trigger] lines[j]) {
            assert forall|j: int| 0 <= j < lines.len() implies line_length(
                #[trigger] lines[j],
            ) is None by {
                assert(!is_length_field(lines[j]));
            }
            lemma_declared_none(lines);
        }
    }
}

/// The connection is closed where the first `Connection` field names `close` in its value; a head
/// without that field leaves it open.
pub proof fn lemma_asks_to_close(lines: Seq<Seq<char>>, k: int)
    ensures
        0 <= k < lines.len() && (forall|j: int|
            0 <= j < k ==> field_value(#[trigger] lines[j], "connection"@) is None) && field_value(
            lines[k],
            "connection"@,
        ) is Some ==> asks_to_close(lines) == text::has_word(
            field_value(lines[k], "connection"@)->0,
            "close"@,
        ),
        (forall|j: int|
            0 <= j < lines.len() ==> field_value(#[trigger] lines[j], "connection"@) is None)
            ==> !asks_to_close(lines),
    decreases lines.len(),
{
    reveal_strlit("close");
    if lines.len() > 0 {
        let rest = lines.drop_first();
        lemma_asks_to_close(rest, k - 1);
        if let Some(v) = field_value(lines[0], "connection"@) {
            lemma_word_found(v, "close"@);
        }
        if 0 < k < lines.len() && (forall|j: int|
            0 <= j < k ==> field_value(#[trigger] lines[j], "connection"@) is None) {
            assert(field_value(lines[0], "connection"@) is None);
            assert forall|j: int| 0 <= j < k - 1 implies field_value(
                #[trigger] rest[j],
                "connection"@,
            ) is None by {
                assert(field_value(lines[j + 1], "connection"@) is None);
            }
            assert(rest[k - 1] == lines[k]);
        }
        if forall|j: int|
            0 <= j < lines.len() ==> field_value(#[trigger] lines[j], "connection"@) is None {
            assert(field_value(lines[0], "connection"@) is None);
            assert forall|j: int| 0 <= j < rest.len() implies field_value(
                #[trigger] rest[j],
                "connection"@,
            ) is None by {
                assert(field_value(lines[j + 1], "connection"@) is None);
            }
        }
    }
}

/// A status line: the protocol, a status code of three characters, and the rest of it.
pub open spec fn status_line(minor: char, code: Seq<char>, rest: Seq<char>) -> Seq<char> {
    "HTTP/1."@ + seq![minor, ' '] + code + rest
}

/// A response is a success where its status code is 200, in HTTP/1.0 as in HTTP/1.1, and is none
/// where it has another status code or is of another version. What stands behind the code does not
/// matter.
#[verifier::spinoff_prover]
pub proof fn lemma_status(head: Seq<u8>, minor: char, code: Seq<char>, rest: Seq<char>)
    requires
        head_lines(head).len() > 0,
        head_lines(head)[0] == status_line(minor, code, rest),
        code.len() == 3,
    ensures
        (minor == '0' || minor == '1') && code == "200"@ ==> status_ok(head),
        status_ok(head) && minor != 'H' && (forall|i: int| 0 <= i < 3 ==> code[i] != 'H') && (
        forall|i: int| 0 <= i < rest.len() ==> rest[i] != '/') ==> (minor == '0' || minor == '1')
            && code == "200"@,
{
    reveal_strlit("HTTP/1.");
    reveal_strlit("200");
    reveal_strlit("HTTP/1.1 200");
    reveal_strlit("HTTP/1.0 200");
    let line = head_lines(head)[0];
    let one = "HTTP/1.1 200"@;
    let zero = "HTTP/1.0 200"@;
    assert(line.take(12) =~= "HTTP/1."@ + seq![minor, ' '] + code);
    if status_ok(head) && minor != 'H' && (forall|i: int| 0 <= i < 3 ==> code[i] != 'H') && (
    forall|i: int| 0 <= i < rest.len() ==> rest[i] != '/') {
        assert forall|w: Seq<char>, i: int|
            (w == one || w == zero) && #[trigger] text::occurs_at(line, w, i) implies i == 0 by {
            let cut = line.subrange(i, i + 12);
            assert(cut[0] == 'H' && cut[4] == '/');
            assert(line[i] == 'H' && line[i + 4] == '/');
            if i + 4 >= 12 {
                assert(line[i + 4] == rest[i + 4 - 12]);
            }
        }
        let w = if text::occurs_in(line, one) {
            one
        } else {
            zero
        };
        let i = choose|i: int| text::occurs_at(line, w, i);
        assert(text::occurs_at(line, w, i));
        assert(line.subrange(0, 12) == w);
        assert(line.subrange(0, 12) =~= line.take(12));
        assert(line[7] == minor && w[7] == minor);
        assert(code =~= "200"@) by {
            assert(code[0] == line[9] && code[1] == line[10] && code[2] == line[11]);
            assert(w[9] == '2' && w[10] == '0' && w[11] == '0');
        }
    }
    if (minor == '0' || minor == '1') && code == "200"@ {
        let w = if minor == '1' {
            one
        } else {
            zero
        };
        assert(line.subrange(0, 12) =~= w);
        assert(text::occurs_at(line, w, 0));
    }
}

/// The size of a chunk is read: hexadecimal figures, in small or capital letters, with white space
/// around them or not, and with an extension behind a semicolon or none. A number that is none of a
/// `usize` is no size.
pub proof fn lemma_chunk_size(
    before: Seq<char>,
    n: nat,
    figures: Seq<char>,
    behind: Seq<char>,
    extension: Seq<u8>,
)
    requires
        text::same_ignoring_ascii_case(figures, text::hex_figures(n)),
        text::is_blank(before),
        text::is_blank(behind),
        extension.len() > 0 ==> extension[0] == 0x3b,
    ensures
        chunk_size(
            vstd::utf8::encode_utf8(before + figures + behind) + extension,
        ) == if n <= usize::MAX {
            Some(n as usize)
        } else {
            None
        },
{
    let s = before + figures + behind;
    let e = vstd::utf8::encode_utf8(s);
    let line = e + extension;
    text::lemma_hex_read_back(n, figures);
    assert forall|i: int| 0 <= i < s.len() implies s[i] != 0x3bu8 as char by {
        if i < before.len() {
            assert(s[i] == before[i]);
        } else if i < before.len() + figures.len() {
            assert(s[i] == figures[i - before.len()]);
        } else {
            assert(s[i] == behind[i - before.len() - figures.len()]);
        }
    }
    text::lemma_encoded_without(s, 0x3b);
    assert forall|j: int| 0 <= j < e.len() implies line[j] != 0x3bu8 by {
        assert(line[j] == e[j]);
    }
    text::lemma_find_at(line, 0x3bu8, e.len() as int);
    assert(line.take(e.len() as int) =~= e);
    vstd::utf8::encode_utf8_valid_utf8(s);
    vstd::utf8::encode_utf8_decode_utf8(s);
    text::lemma_trimmed(before, figures, behind);
    text::lemma_unsigned(figures, 16, false);
}

/// What is no `http` or `https` URL has no parts, nor has one without a host.
pub proof fn lemma_no_url(url: Seq<char>, use_tls: bool, tail: Seq<char>)
    ensures
        !"https://"@.is_prefix_of(url) && !"http://"@.is_prefix_of(url) ==> url_parts(url) is None,
        (tail.len() > 0 ==> tail[0] == '/' || tail[0] == ':') ==> url_parts(
            scheme(use_tls) + tail,
        ) is None,
{
    let u = scheme(use_tls) + tail;
    reveal_strlit("https://");
    reveal_strlit("http://");
    if tail.len() > 0 ==> tail[0] == '/' || tail[0] == ':' {
        assert(u.skip(scheme(use_tls).len() as int) =~= tail);
        assert(scheme(use_tls).is_prefix_of(u));
        if !use_tls {
            assert(u[4] == ':');
            assert(!"https://"@.is_prefix_of(u));
        }
        let slash = text::find_from(tail, '/', 0);
        text::lemma_find_from(tail, '/', 0);
        let authority = tail.take(slash);
        text::lemma_find_from(authority, ':', 0);
        let colon = text::find_from(authority, ':', 0);
        if colon > 0 {
            assert(authority[0] == tail[0]);
        }
    }
}

/// A head as it is written: its lines, each with a carriage return and a line feed behind it, and
/// an empty one.
pub open spec fn head_text(lines: Seq<Seq<char>>) -> Seq<char>
    decreases lines.len(),
{
    if lines.len() == 0 {
        seq!['\r', '\n']
    } else {
        lines[0] + seq!['\r', '\n'] + head_text(lines.drop_first())
    }
}

/// Whether a text can be a line of a head: it is not empty, and has no line ending in it.
pub open spec fn is_head_line(line: Seq<char>) -> bool {
    line.len() > 0 && forall|i: int| 0 <= i < line.len() ==> line[i] != '\r' && line[i] != '\n'
}

/// A head is read as the lines that it is made of, with the empty one behind them, and ends right
/// there, whatever follows.
pub proof fn lemma_head_read(lines: Seq<Seq<char>>, rest: Seq<u8>)
    requires
        lines.len() > 0,
        forall|i: int| 0 <= i < lines.len() ==> is_head_line(#[trigger] lines[i]),
    ensures
        head_lines(vstd::utf8::encode_utf8(head_text(lines))) == lines.push(seq![]),
        header_end(vstd::utf8::encode_utf8(head_text(lines)) + rest) == Some(
            vstd::utf8::encode_utf8(head_text(lines)).len() as int,
        ),
{
    let t = head_text(lines);
    vstd::utf8::encode_utf8_valid_utf8(t);
    vstd::utf8::encode_utf8_decode_utf8(t);
    lemma_head_text_lines(lines);
    lemma_head_text_end(lines, rest);
    lemma_header_end_at(
        vstd::utf8::encode_utf8(t) + rest,
        vstd::utf8::encode_utf8(t).len() as int,
    );
}

/// The lines of a head's text.
proof fn lemma_head_text_lines(lines: Seq<Seq<char>>)
    requires
        forall|i: int| 0 <= i < lines.len() ==> is_head_line(#[trigger] lines[i]),
    ensures
        text::lines_from(head_text(lines), 0) == lines.push(seq![]),
    decreases lines.len(),
{
    let none = Seq::<char>::empty();
    if lines.len() == 0 {
        text::lemma_lines(none, true, none);
        text::lemma_last_line(none);
        assert(none + seq!['\r', '\n'] + none =~= head_text(lines));
        assert(seq![none] + Seq::<Seq<char>>::empty() =~= lines.push(none));
    } else {
        let rest = lines.drop_first();
        assert forall|i: int| 0 <= i < rest.len() implies is_head_line(#[trigger] rest[i]) by {
            assert(is_head_line(lines[i + 1]));
        }
        lemma_head_text_lines(rest);
        assert(is_head_line(lines[0]));
        text::lemma_lines(lines[0], true, head_text(rest));
        assert(seq![lines[0]] + rest.push(none) =~= lines.push(none));
    }
}

/// The bytes of a head: an empty line at its end, and none before.
#[verifier::spinoff_prover]
proof fn lemma_head_text_end(lines: Seq<Seq<char>>, rest: Seq<u8>)
    requires
        forall|i: int| 0 <= i < lines.len() ==> is_head_line(#[trigger] lines[i]),
    ensures
        ({
            let e = vstd::utf8::encode_utf8(head_text(lines));
            &&& e.len() >= 2
            &&& lines.len() > 0 ==> e[0] != 0x0d
            &&& lines.len() == 0 ==> e == seq![0x0du8, 0x0au8]
            &&& lines.len() > 0 ==> blank_line_at(e + rest, e.len() - 4)
            &&& forall|j: int| 0 <= j < e.len() - 4 ==> !blank_line_at(e + rest, j)
        }),
    decreases lines.len(),
{
    let t = head_text(lines);
    let e = vstd::utf8::encode_utf8(t);
    let ending = seq!['\r', '\n'];
    assert(vstd::utf8::is_ascii_chars(ending));
    vstd::utf8::is_ascii_chars_encode_utf8(ending);
    assert(ending[0] as u8 == 0x0d && ending[1] as u8 == 0x0a);
    assert(vstd::utf8::encode_utf8(ending) =~= seq![0x0du8, 0x0au8]);
    if lines.len() > 0 {
        let more = lines.drop_first();
        assert forall|i: int| 0 <= i < more.len() implies is_head_line(#[trigger] more[i]) by {
            assert(is_head_line(lines[i + 1]));
        }
        lemma_head_text_end(more, rest);
        let line = lines[0];
        assert(is_head_line(lines[0]));
        let l = vstd::utf8::encode_utf8(line);
        let d = vstd::utf8::encode_utf8(head_text(more));
        text::lemma_encoded_joined(line + ending, head_text(more));
        text::lemma_encoded_joined(line, ending);
        assert(e =~= l + seq![0x0du8, 0x0au8] + d);
        text::lemma_encoded_without(line, 0x0d);
        text::lemma_encoded_without(line, 0x0a);
        text::lemma_encoded_char(line[0]);
        assert(l.len() > 0);
        assert(e[0] == l[0]);
        let n = l.len() as int;
        let all = e + rest;
        assert(forall|j: int| 0 <= j < n ==> all[j] == l[j]);
        assert(all[n] == 0x0d && all[n + 1] == 0x0a);
        assert forall|j: int| 0 <= j < (d + rest).len() implies all[n + 2 + j] == #[trigger] (d
            + rest)[j] by {}
        if more.len() == 0 {
            assert(all[n + 2] == (d + rest)[0] && all[n + 3] == (d + rest)[1]);
        } else {
            assert(blank_line_at(d + rest, d.len() - 4));
            let i = d.len() - 4;
            assert((d + rest)[i] == all[n + 2 + i]);
            assert((d + rest)[i + 1] == all[n + 2 + (i + 1)]);
            assert((d + rest)[i + 2] == all[n + 2 + (i + 2)]);
            assert((d + rest)[i + 3] == all[n + 2 + (i + 3)]);
        }
        assert forall|j: int| 0 <= j < e.len() - 4 implies !blank_line_at(all, j) by {
            if j == n {
                assert(more.len() > 0);
                assert(all[n + 2] == (d + rest)[0]);
            } else if j > n + 1 {
                let i = j - n - 2;
                if blank_line_at(all, j) {
                    assert((d + rest)[i] == all[n + 2 + i]);
                    assert((d + rest)[i + 1] == all[n + 2 + (i + 1)]);
                    assert((d + rest)[i + 2] == all[n + 2 + (i + 2)]);
                    assert((d + rest)[i + 3] == all[n + 2 + (i + 3)]);
                    assert(blank_line_at(d + rest, i));
                }
            }
        }
    }
}

/// A request never takes more than its buffer holds.
pub proof fn lemma_request_fits(path: Seq<char>, host: Seq<char>)
    ensures
        bounded::utf8_len(request_of(path, host)) <= request_limit(),
{
    let n = request_limit();
    let a = bounded::appended(seq![], "GET "@, n);
    let b = bounded::appended(a, path, n);
    let c = bounded::appended(b, " HTTP/1.1\r\nHost: "@, n);
    let d = bounded::appended(c, host, n);
    bounded::lemma_utf8_len_adds(seq![], "GET "@);
    bounded::lemma_utf8_len_adds(a, path);
    bounded::lemma_utf8_len_adds(b, " HTTP/1.1\r\nHost: "@);
    bounded::lemma_utf8_len_adds(c, host);
    bounded::lemma_utf8_len_adds(d, request_fields());
}

/// A response is a success wherever in its first line the version and the code stand, and is none
/// without a line.
pub proof fn lemma_status_found(head: Seq<u8>, before: Seq<char>, minor: char, behind: Seq<char>)
    requires
        minor == '0' || minor == '1',
    ensures
        head_lines(head).len() > 0 && head_lines(head)[0] == before + ("HTTP/1."@ + seq![minor]
            + " 200"@) + behind ==> status_ok(head),
        head_lines(head).len() == 0 ==> !status_ok(head),
        !vstd::utf8::valid_utf8(head) ==> !status_ok(head),
        status_ok(head) ==> exists|m: char|
            (m == '0' || m == '1') && text::occurs_in(
                head_lines(head)[0],
                "HTTP/1."@ + #[trigger] seq![m] + " 200"@,
            ),
{
    reveal_strlit("HTTP/1.");
    reveal_strlit(" 200");
    reveal_strlit("HTTP/1.1 200");
    reveal_strlit("HTTP/1.0 200");
    let w = "HTTP/1."@ + seq![minor] + " 200"@;
    if head_lines(head).len() > 0 {
        text::lemma_occurs(head_lines(head)[0], w, before, behind);
        if minor == '1' {
            assert(w =~= "HTTP/1.1 200"@);
        } else {
            assert(w =~= "HTTP/1.0 200"@);
        }
    }
    if status_ok(head) {
        let m = if text::occurs_in(head_lines(head)[0], "HTTP/1.1 200"@) {
            '1'
        } else {
            '0'
        };
        let n = "HTTP/1."@ + seq![m] + " 200"@;
        if m == '1' {
            assert(n =~= "HTTP/1.1 200"@);
        } else {
            assert(n =~= "HTTP/1.0 200"@);
        }
        assert(text::occurs_in(head_lines(head)[0], n));
    }
}

/// A path or a host that does not fit is left out of the request, and the rest of it is written.
pub proof fn lemma_request_without(path: Seq<char>, host: Seq<char>)
    ensures
        bounded::utf8_len("GET "@ + path) > 288 && bounded::utf8_len(
            "GET "@ + " HTTP/1.1\r\nHost: "@ + host + request_fields(),
        ) <= 288 ==> request_of(path, host) == "GET "@ + " HTTP/1.1\r\nHost: "@ + host
            + request_fields(),
        bounded::utf8_len("GET "@ + path + " HTTP/1.1\r\nHost: "@ + host) > 288
            && bounded::utf8_len("GET "@ + path + " HTTP/1.1\r\nHost: "@ + request_fields())
            <= 288 ==> request_of(path, host) == "GET "@ + path + " HTTP/1.1\r\nHost: "@
            + request_fields(),
{
    let none = Seq::<char>::empty();
    let a = "GET "@;
    let h = " HTTP/1.1\r\nHost: "@;
    bounded::lemma_utf8_len_adds(none, a);
    assert(none + a =~= a);
    bounded::lemma_utf8_len_adds(a, path);
    bounded::lemma_utf8_len_adds(a, h);
    bounded::lemma_utf8_len_adds(a + h, host);
    bounded::lemma_utf8_len_adds(a + h + host, request_fields());
    bounded::lemma_utf8_len_adds(a + path, h);
    bounded::lemma_utf8_len_adds(a + path + h, host);
    bounded::lemma_utf8_len_adds(a + path + h, request_fields());
}

/// A request asks for the path at the host, in HTTP/1.1 and with a connection that is kept, in the
/// lines of a head.
#[verifier::spinoff_prover]
pub proof fn lemma_request_lines(path: Seq<char>, host: Seq<char>)
    requires
        bounded::utf8_len(
            "GET "@ + path + " HTTP/1.1\r\nHost: "@ + host + request_fields(),
        ) <= 288,
    ensures
        request_of(path, host) == head_text(
            seq![
                "GET "@ + path + " HTTP/1.1"@,
                "Host: "@ + host,
                "User-Agent: metric-gauge"@,
                "Accept: text/plain"@,
                "Connection: keep-alive"@,
            ],
        ),
{
    lemma_request_whole(path, host);
    reveal_strlit("GET ");
    reveal_strlit(" HTTP/1.1\r\nHost: ");
    reveal_strlit(" HTTP/1.1");
    reveal_strlit("Host: ");
    reveal_strlit("User-Agent: metric-gauge");
    reveal_strlit("Accept: text/plain");
    reveal_strlit("Connection: keep-alive");
    reveal_strlit(
        "\r\nUser-Agent: metric-gauge\r\nAccept: text/plain\r\nConnection: keep-alive\r\n\r\n",
    );
    let end = seq!['\r', '\n'];
    let (l3, l4, l5) = (
        "User-Agent: metric-gauge"@,
        "Accept: text/plain"@,
        "Connection: keep-alive"@,
    );
    let l1 = "GET "@ + path + " HTTP/1.1"@;
    let l2 = "Host: "@ + host;
    let lines = seq![l1, l2, l3, l4, l5];
    assert(lines.drop_first() =~= seq![l2, l3, l4, l5]);
    assert(seq![l2, l3, l4, l5].drop_first() =~= seq![l3, l4, l5]);
    assert(seq![l3, l4, l5].drop_first() =~= seq![l4, l5]);
    assert(seq![l4, l5].drop_first() =~= seq![l5]);
    assert(seq![l5].drop_first() =~= seq![]);
    assert(head_text(seq![l5]) == l5 + end + head_text(seq![]));
    assert(head_text(seq![l4, l5]) == l4 + end + head_text(seq![l5]));
    assert(head_text(seq![l3, l4, l5]) == l3 + end + head_text(seq![l4, l5]));
    assert(head_text(seq![l2, l3, l4, l5]) == l2 + end + head_text(seq![l3, l4, l5]));
    assert(head_text(lines) == l1 + end + head_text(seq![l2, l3, l4, l5]));
    assert(request_fields() =~= end + l3 + end + l4 + end + l5 + end + end);
    assert(" HTTP/1.1\r\nHost: "@ =~= " HTTP/1.1"@ + end + "Host: "@);
    assert(head_text(lines) =~= "GET "@ + path + (" HTTP/1.1"@ + end + "Host: "@) + host + (end
        + l3 + end + l4 + end + l5 + end + end));
}

/// The head ends behind the first two line endings that stand one behind the other, each a carriage
/// return and a line feed, and has no end without them.
pub proof fn lemma_header_end_found(data: &[u8], r: Option<usize>, i: int)
    requires
        call_ensures(find_header_end, (data,), r),
    ensures
        r matches Some(p) ==> {
            &&& 4 <= p <= data@.len()
            &&& data@.subrange(p - 4, p as int) == seq![0x0du8, 0x0a, 0x0d, 0x0a]
        },
        0 <= i && i + 4 <= data@.len() && data@.subrange(i, i + 4) == seq![0x0du8, 0x0a, 0x0d, 0x0a]
            ==> (r matches Some(p) && p <= i + 4),
{
    lemma_header_end_from(data@, 0);
    let four = seq![0x0du8, 0x0a, 0x0d, 0x0a];
    if let Some(p) = r {
        assert(data@.subrange(p - 4, p as int) =~= four);
    }
    if 0 <= i && i + 4 <= data@.len() && data@.subrange(i, i + 4) == four {
        let cut = data@.subrange(i, i + 4);
        assert(cut[0] == 0x0d && cut[1] == 0x0a && cut[2] == 0x0d && cut[3] == 0x0a);
        assert(blank_line_at(data@, i));
    }
}

/// The size of a chunk is what its line says before a semicolon, and nothing where that is no
/// number, as where it is empty.
pub proof fn lemma_chunk_size_read(s: Seq<char>, extension: Seq<u8>)
    requires
        forall|i: int| 0 <= i < s.len() ==> s[i] != ';',
        extension.len() > 0 ==> extension[0] == 0x3b,
    ensures
        chunk_size(vstd::utf8::encode_utf8(s) + extension) == text::unsigned_value(
            text::trimmed(s),
            16,
        ),
        text::is_blank(s) ==> chunk_size(vstd::utf8::encode_utf8(s) + extension) is None,
{
    let e = vstd::utf8::encode_utf8(s);
    let line = e + extension;
    assert(0x3bu8 as char == ';');
    text::lemma_encoded_without(s, 0x3b);
    assert forall|j: int| 0 <= j < e.len() implies line[j] != 0x3bu8 by {
        assert(line[j] == e[j]);
    }
    text::lemma_find_at(line, 0x3bu8, e.len() as int);
    assert(line.take(e.len() as int) =~= e);
    vstd::utf8::encode_utf8_valid_utf8(s);
    vstd::utf8::encode_utf8_decode_utf8(s);
    if text::is_blank(s) {
        let none = Seq::<char>::empty();
        text::lemma_trimmed(s, none, none);
        assert(s + none + none =~= s);
        text::lemma_digits(none, '0', 16);
        text::lemma_unsigned(none, 16, false);
    }
}

} // verus!
