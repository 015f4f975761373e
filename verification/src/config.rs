//! Configuration values: display rotation, host labels, settings and seeds.

use vstd::prelude::*;
use vstd::string::StrSliceExecFns;

use crate::text;

verus! {

/// How a display is turned.
#[derive(Clone, Copy, PartialEq, Eq, Structural, Debug)]
pub enum DisplayRotation {
    Rotate0,
    Rotate90,
    Rotate180,
    Rotate270,
}

/// The rotation that a MADCTL register value stands for.
pub open spec fn rotation_of_madctl(madctl: u8) -> DisplayRotation {
    if madctl == 0x78 || madctl == 0x68 || madctl == 0x28 || madctl == 0x38 {
        DisplayRotation::Rotate90
    } else if madctl == 0xd8 || madctl == 0xc8 {
        DisplayRotation::Rotate180
    } else if madctl == 0xb8 || madctl == 0xa8 || madctl == 0x88 || madctl == 0x98 {
        DisplayRotation::Rotate270
    } else {
        DisplayRotation::Rotate0
    }
}

/// The first index from `i` on whose character is no hexadecimal digit, or the
/// length.
pub open spec fn hex_end(s: Seq<char>, i: int) -> int
    decreases s.len() - i,
{
    if i < s.len() && text::digit_value(s[i], 16) is Some {
        hex_end(s, i + 1)
    } else {
        i
    }
}

/// The low byte of the number that the hexadecimal digits from `i` on write.
pub open spec fn hex_low_byte(s: Seq<char>, i: int) -> u8 {
    match text::digits_value(s.subrange(i, hex_end(s, i)), 16) {
        Some(v) => (v % 256) as u8,
        None => 0,
    }
}

/// `0x` or `0X`, and something behind it.
pub open spec fn is_hex_override(s: Seq<char>) -> bool {
    s.len() >= 3 && s[0] == '0' && (s[1] == 'x' || s[1] == 'X')
}

/// The rotation and the MADCTL register value that a setting stands for: an
/// angle, its name, or the register value itself in hexadecimal. Anything else
/// is no rotation.
pub open spec fn rotation_setting(s: Seq<char>) -> (DisplayRotation, u8) {
    if is_hex_override(s) {
        (rotation_of_madctl(hex_low_byte(s, 2)), hex_low_byte(s, 2))
    } else if s == "90"@ || s == "Rotate90"@ {
        (DisplayRotation::Rotate90, 0x78)
    } else if s == "180"@ || s == "Rotate180"@ {
        (DisplayRotation::Rotate180, 0xd8)
    } else if s == "270"@ || s == "Rotate270"@ {
        (DisplayRotation::Rotate270, 0xb8)
    } else {
        (DisplayRotation::Rotate0, 0x18)
    }
}

/// What follows the scheme of `url`, or all of it where it has none.
pub open spec fn without_scheme(url: Seq<char>) -> Seq<char> {
    if let Some(rest) = text::after_prefix(url, "https://"@) {
        rest
    } else if let Some(rest) = text::after_prefix(url, "http://"@) {
        rest
    } else {
        url
    }
}

/// `s` up to the first `c`, or all of it.
pub open spec fn up_to(s: Seq<char>, c: char) -> Seq<char> {
    s.take(text::find_from(s, c, 0))
}

/// The first label of the host in `url`; a port is not part of the host.
pub open spec fn label_of(url: Seq<char>) -> Seq<char> {
    up_to(up_to(up_to(without_scheme(url), '/'), ':'), '.')
}

/// The value of a hexadecimal digit.
pub fn parse_hex_digit(c: u8) -> (r: Option<u8>)
    ensures
        match r {
            Some(v) => text::digit_value(c as char, 16) == Some(v as nat),
            None => text::digit_value(c as char, 16) is None,
        },
{
    if 0x30 <= c && c <= 0x39 {
        Some(c - 0x30)
    } else if 0x61 <= c && c <= 0x66 {
        Some(c - 0x61 + 10)
    } else if 0x41 <= c && c <= 0x46 {
        Some(c - 0x41 + 10)
    } else {
        None
    }
}

/// The value of a hexadecimal digit.
fn hex_digit(c: char) -> (r: Option<u8>)
    ensures
        match r {
            Some(v) => text::digit_value(c, 16) == Some(v as nat),
            None => text::digit_value(c, 16) is None,
        },
{
    if c as u32 <= 0x7f {
        parse_hex_digit(c as u8)
    } else {
        None
    }
}

/// The rotation that a MADCTL register value stands for.
fn madctl_rotation(madctl: u8) -> (r: DisplayRotation)
    ensures
        r == rotation_of_madctl(madctl),
{
    match madctl {
        0x78 | 0x68 | 0x28 | 0x38 => DisplayRotation::Rotate90,
        0xd8 | 0xc8 => DisplayRotation::Rotate180,
        0xb8 | 0xa8 | 0x88 | 0x98 => DisplayRotation::Rotate270,
        _ => DisplayRotation::Rotate0,
    }
}

/// Shifting a digit into the low byte of a number gives the low byte of the
/// longer number.
proof fn lemma_low_byte(v: nat, low: u8, digit: u8)
    requires
        low == v % 256,
        digit < 16,
    ensures
        (low << 4) | digit == (v * 16 + digit) % 256,
{
    assert((low << 4) | digit == (low * 16 + digit) % 256) by (bit_vector)
        requires
            digit < 16,
    ;
    let q = v / 256;
    assert(v * 16 + digit == (low * 16 + digit) + q * 16 * 256);
    vstd::arithmetic::div_mod::lemma_mod_multiples_vanish((q * 16) as int, low * 16 + digit, 256);
}

/// The rotation and the MADCTL register value that a setting stands for.
pub fn parse_rotation_config(val: &str) -> (r: (DisplayRotation, u8))
    ensures
        r == rotation_setting(val@),
{
    let cs = text::chars_of(val);
    let n: usize = cs.len();
    // A hex override like 0x18 or 0x68.
    if n >= 3 && cs[0] == '0' && (cs[1] == 'x' || cs[1] == 'X') {
        let mut result: u8 = 0;
        let mut idx: usize = 2;
        assert(val@.subrange(2, 2) =~= seq![]);
        assert(text::digits_value(val@.subrange(2, 2), 16) == Some(0nat));
        while idx < n
            invariant_except_break
                hex_end(val@, 2) == hex_end(val@, idx as int),
            invariant
                2 <= idx <= n,
                n == cs@.len(),
                cs@ == val@,
                text::digits_value(val@.subrange(2, idx as int), 16) is Some,
                result == text::digits_value(val@.subrange(2, idx as int), 16)->0 % 256,
            ensures
                hex_end(val@, 2) == idx,
            decreases n - idx,
        {
            match hex_digit(cs[idx]) {
                Some(digit) => {
                    let ghost upto = val@.subrange(2, idx + 1);
                    assert(upto.drop_last() =~= val@.subrange(2, idx as int));
                    assert(upto.last() == cs@[idx as int]);
                    proof {
                        lemma_low_byte(
                            text::digits_value(val@.subrange(2, idx as int), 16)->0,
                            result,
                            digit,
                        );
                    }
                    result = (result << 4) | digit;
                },
                None => {
                    break;
                },
            }
            idx += 1;
        }
        return (madctl_rotation(result), result);
    }
    if text::same_text(val, "90") || text::same_text(val, "Rotate90") {
        (DisplayRotation::Rotate90, 0x78)
    } else if text::same_text(val, "180") || text::same_text(val, "Rotate180") {
        (DisplayRotation::Rotate180, 0xd8)
    } else if text::same_text(val, "270") || text::same_text(val, "Rotate270") {
        (DisplayRotation::Rotate270, 0xb8)
    } else {
        (DisplayRotation::Rotate0, 0x18)
    }
}

/// Short host label derived from a metrics URL (e.g. `node1` from
/// `https://node1.homin.dev/metrics`).
pub fn host_label<'a>(url: &'a str) -> (r: &'a str)
    ensures
        r@ == label_of(url@),
{
    let rest = if let Some(rest) = text::strip_prefix(url, "https://") {
        rest
    } else if let Some(rest) = text::strip_prefix(url, "http://") {
        rest
    } else {
        url
    };
    text::before_char(text::before_char(text::before_char(rest, '/'), ':'), '.')
}

/// The value of a setting that may go by two names: the first that is set and
/// not empty, else the empty text.
pub fn setting<'a>(primary: Option<&'a str>, alias: Option<&'a str>) -> (r: &'a str)
    ensures
        r@ == (match (primary, alias) {
            (Some(p), Some(a)) => if p@.len() > 0 {
                p@
            } else {
                a@
            },
            (Some(p), None) => p@,
            (None, Some(a)) => a@,
            (None, None) => ""@,
        }),
{
    if let Some(p) = primary {
        if !p.is_empty() {
            return p;
        }
    }
    if let Some(a) = alias {
        return a;
    }
    if let Some(p) = primary {
        return p;
    }
    ""
}

/// The setting on one line of a settings file: a name, an equals sign and a value, which may
/// stand in quotes. Blank lines and comments have none.
pub open spec fn setting_line(line: Seq<char>) -> Option<(Seq<char>, Seq<char>)> {
    let l = text::trimmed(line);
    let equals = text::find_from(l, '=', 0);
    if l.len() == 0 || l[0] == '#' || equals >= l.len() {
        None
    } else {
        Some(
            (
                text::trimmed(l.take(equals)),
                text::stripped(text::stripped(text::trimmed(l.skip(equals + 1)), '"'), '\''),
            ),
        )
    }
}

/// The setting on one line of a settings file.
pub fn parse_setting_line<'a>(line: &'a str) -> (r: Option<(&'a str, &'a str)>)
    ensures
        match r {
            Some((name, value)) => setting_line(line@) == Some((name@, value@)),
            None => setting_line(line@) is None,
        },
{
    let l = text::trim(line);
    let cs = text::chars_of(l);
    let n: usize = cs.len();
    if n == 0 || cs[0] == '#' {
        return None;
    }
    let equals: usize = text::find_char(l, '=');
    proof {
        text::lemma_find_from(l@, '=', 0);
    }
    if equals >= n {
        return None;
    }
    let name = l.substring_char(0, equals);
    let value = l.substring_char(equals + 1, n);
    assert(name@ =~= l@.take(equals as int));
    assert(value@ =~= l@.skip(equals + 1));
    Some(
        (
            text::trim(name),
            text::strip_char(text::strip_char(text::trim(value), '"'), '\''),
        ),
    )
}

/// A seed made of two random words.
pub fn seed_of(low: u32, high: u32) -> (r: u64)
    ensures
        r == low + high * 0x1_0000_0000,
{
    let l: u64 = low as u64;
    let h: u64 = high as u64;
    assert(l | (h << 32) == l + h * 0x1_0000_0000) by (bit_vector)
        requires
            l <= 0xffff_ffff,
            h <= 0xffff_ffff,
    ;
    l | (h << 32)
}

/// The TLS seed of the scrape after the one with this seed.
pub fn next_tls_seed(seed: u64) -> (r: u64)
    ensures
        r == (seed + 0x9e37_79b9_7f4a_7c15) % 0x1_0000_0000_0000_0000,
{
    seed.wrapping_add(0x9e37_79b9_7f4a_7c15)
}

/// The label is the first label of the host: what follows it, after a dot, a colon or a slash, does
/// not matter.
pub proof fn lemma_host_label(scheme: Seq<char>, label: Seq<char>, tail: Seq<char>)
    requires
        scheme == "https://"@ || scheme == "http://"@,
        forall|i: int|
            0 <= i < label.len() ==> label[i] != '.' && label[i] != ':' && label[i] != '/',
        tail.len() > 0 ==> tail[0] == '.' || tail[0] == ':' || tail[0] == '/',
    ensures
        label_of(scheme + label + tail) == label,
{
    let url = scheme + label + tail;
    let rest = label + tail;
    reveal_strlit("https://");
    reveal_strlit("http://");
    assert(url =~= scheme + rest);
    assert(url.skip(scheme.len() as int) =~= rest);
    assert(scheme.is_prefix_of(url));
    if scheme != "https://"@ {
        assert(url[4] == ':');
        assert("https://"@[4] == 's');
        assert(!"https://"@.is_prefix_of(url));
    }
    assert(without_scheme(url) == rest);
    lemma_up_to_keeps(rest, label, '/');
    lemma_up_to_keeps(up_to(rest, '/'), label, ':');
    lemma_up_to_keeps(up_to(up_to(rest, '/'), ':'), label, '.');
    let host = up_to(up_to(rest, '/'), ':');
    let cut = up_to(host, '.');
    if cut.len() > label.len() {
        let k = label.len() as int;
        assert(cut[k] == rest[k] && rest[k] == tail[0]);
    }
    assert(cut =~= label);
}

/// Cutting behind a label keeps the label, and leaves a part of the text without `c`.
proof fn lemma_up_to_keeps(s: Seq<char>, label: Seq<char>, c: char)
    requires
        label.is_prefix_of(s),
        forall|i: int| 0 <= i < label.len() ==> label[i] != c,
    ensures
        label.is_prefix_of(up_to(s, c)),
        up_to(s, c).is_prefix_of(s),
        forall|i: int| 0 <= i < up_to(s, c).len() ==> up_to(s, c)[i] != c,
{
    text::lemma_find_from(s, c, 0);
    let end = text::find_from(s, c, 0);
    if end < label.len() {
        assert(s[end] == label[end]);
    }
}

/// Whatever the URL, a label has neither a slash nor a colon nor a dot in it.
pub proof fn lemma_label_is_plain(url: Seq<char>)
    ensures
        forall|i: int|
            0 <= i < label_of(url).len() ==> label_of(url)[i] != '/' && label_of(url)[i] != ':'
                && label_of(url)[i] != '.',
{
    let none = Seq::<char>::empty();
    let rest = without_scheme(url);
    lemma_up_to_keeps(rest, none, '/');
    lemma_up_to_keeps(up_to(rest, '/'), none, ':');
    lemma_up_to_keeps(up_to(up_to(rest, '/'), ':'), none, '.');
}

/// Each rotation that a setting names is the one that its register value stands for.
pub proof fn lemma_rotation_agrees(s: Seq<char>)
    ensures
        rotation_setting(s).0 == rotation_of_madctl(rotation_setting(s).1),
{
}

/// A register value stands for a rotation by its three upper bits, that of the rows, that of the
/// columns and that which exchanges the two, where the lower four bits are those of a display with
/// its colours in the order blue, green, red; otherwise it stands for none. Exchanged without the
/// rows is a quarter turn, rows and columns are half a turn, and rows without columns are three
/// quarters. The bit between does not matter.
#[verifier::spinoff_prover]
pub proof fn lemma_rotation_bits(madctl: u8)
    ensures
        ({
            let rows = madctl / 128 == 1;
            let columns = madctl / 64 % 2 == 1;
            let exchanged = madctl / 32 % 2 == 1;
            rotation_of_madctl(madctl) == if madctl % 16 != 8 {
                DisplayRotation::Rotate0
            } else if exchanged && !rows {
                DisplayRotation::Rotate90
            } else if rows && columns && !exchanged {
                DisplayRotation::Rotate180
            } else if rows && !columns {
                DisplayRotation::Rotate270
            } else {
                DisplayRotation::Rotate0
            }
        }),
{
}

/// A hexadecimal digit has its value, in small letters as in capital ones; nothing else is one.
#[verifier::spinoff_prover]
pub proof fn lemma_hex_digit(c: u8, r: Option<u8>)
    requires
        call_ensures(parse_hex_digit, (c,), r),
    ensures
        0x30 <= c <= 0x39 ==> r == Some((c - 0x30) as u8),
        0x41 <= c <= 0x46 ==> r == Some((c - 0x41 + 10) as u8),
        0x61 <= c <= 0x66 ==> r == Some((c - 0x61 + 10) as u8),
        !(0x30 <= c <= 0x39) && !(0x41 <= c <= 0x46) && !(0x61 <= c <= 0x66) ==> r is None,
{
}

/// Hexadecimal digits end where something else stands.
proof fn lemma_hex_end_at(s: Seq<char>, i: int, k: int)
    requires
        0 <= i <= k <= s.len(),
        forall|j: int| i <= j < k ==> text::digit_value(#[trigger] s[j], 16) is Some,
        k < s.len() ==> text::digit_value(s[k], 16) is None,
    ensures
        hex_end(s, i) == k,
    decreases k - i,
{
    if i < k {
        lemma_hex_end_at(s, i + 1, k);
    }
}

/// A register value in hexadecimal is taken as it is, in small or capital letters, up to what is no
/// digit; of a longer number it is the low byte. The rotation is the one that it stands for.
/// Without a digit it is zero.
pub proof fn lemma_rotation_by_register(x: char, n: nat, figures: Seq<char>, tail: Seq<char>)
    requires
        x == 'x' || x == 'X',
        text::digits_value(figures, 16) == Some(n),
        figures.len() > 0 || tail.len() > 0,
        tail.len() > 0 ==> text::digit_value(tail[0], 16) is None,
    ensures
        rotation_setting(seq!['0', x] + figures + tail) == (
            rotation_of_madctl((n % 256) as u8),
            (n % 256) as u8,
        ),
{
    let s = seq!['0', x] + figures + tail;
    let k = 2 + figures.len() as int;
    text::lemma_digits(figures, '0', 16);
    assert forall|j: int| 2 <= j < k implies text::digit_value(#[trigger] s[j], 16) is Some by {
        assert(s[j] == figures[j - 2]);
    }
    if tail.len() > 0 {
        assert(s[k] == tail[0]);
    }
    lemma_hex_end_at(s, 2, k);
    assert(s.subrange(2, k) =~= figures);
}

/// A rotation by its angle or by its name, and no other text, is that rotation, with the register
/// value that belongs to it; `0`, `Rotate0` and whatever is not understood is no rotation.
pub proof fn lemma_rotation_by_name(s: Seq<char>)
    requires
        !(s.len() >= 3 && s[0] == '0' && (s[1] == 'x' || s[1] == 'X')),
    ensures
        ({
            let quarter = s == "90"@ || s == "Rotate90"@;
            let half = s == "180"@ || s == "Rotate180"@;
            let three = s == "270"@ || s == "Rotate270"@;
            &&& quarter <==> rotation_setting(s) == (DisplayRotation::Rotate90, 0x78u8)
            &&& half <==> rotation_setting(s) == (DisplayRotation::Rotate180, 0xd8u8)
            &&& three <==> rotation_setting(s) == (DisplayRotation::Rotate270, 0xb8u8)
            &&& !quarter && !half && !three <==> rotation_setting(s) == (
                DisplayRotation::Rotate0,
                0x18u8,
            )
        }),
{
    reveal_strlit("90");
    reveal_strlit("180");
    reveal_strlit("270");
    reveal_strlit("Rotate90");
    reveal_strlit("Rotate180");
    reveal_strlit("Rotate270");
    assert("90"@.len() == 2 && "180"@.len() == 3 && "270"@.len() == 3);
    assert("Rotate90"@.len() == 8 && "Rotate180"@.len() == 9 && "Rotate270"@.len() == 9);
    assert("180"@[0] == '1' && "270"@[0] == '2');
    assert("Rotate180"@[6] == '1' && "Rotate270"@[6] == '2');
}

/// A URL without a scheme is labelled in the same way.
pub proof fn lemma_bare_host_label(label: Seq<char>, tail: Seq<char>)
    requires
        forall|i: int|
            0 <= i < label.len() ==> label[i] != '.' && label[i] != ':' && label[i] != '/',
        tail.len() > 0 ==> tail[0] == '.' || tail[0] == ':' || tail[0] == '/',
        !"https://"@.is_prefix_of(label + tail),
        !"http://"@.is_prefix_of(label + tail),
    ensures
        label_of(label + tail) == label,
{
    let rest = label + tail;
    assert(without_scheme(rest) == rest);
    lemma_up_to_keeps(rest, label, '/');
    lemma_up_to_keeps(up_to(rest, '/'), label, ':');
    lemma_up_to_keeps(up_to(up_to(rest, '/'), ':'), label, '.');
    let cut = label_of(rest);
    if cut.len() > label.len() {
        let k = label.len() as int;
        assert(cut[k] == rest[k] && rest[k] == tail[0]);
    }
    assert(cut =~= label);
}

/// A setting is taken from its name, and from its alias where it is missing or empty under its
/// name. One that is set under neither is empty.
pub proof fn lemma_setting(primary: Option<&str>, alias: Option<&str>, r: &str)
    requires
        call_ensures(setting, (primary, alias), r),
    ensures
        primary matches Some(p) ==> p@.len() > 0 ==> r@ == p@,
        alias matches Some(a) ==> (primary matches Some(p) ==> p@.len() == 0) ==> r@ == a@,
        alias is None && (primary matches Some(p) ==> p@.len() == 0) ==> r@.len() == 0,
{
    reveal_strlit("");
}

/// A setting is read from its line: the name before the first equals sign, the value behind it,
/// with white space around both left off, and then quotes of either kind, the double ones outside.
/// What stands within the quotes is kept as it is.
pub proof fn lemma_setting_read(
    before: Seq<char>,
    name: Seq<char>,
    gap: Seq<char>,
    space: Seq<char>,
    double: Seq<char>,
    single: Seq<char>,
    value: Seq<char>,
    single_end: Seq<char>,
    double_end: Seq<char>,
    behind: Seq<char>,
)
    requires
        text::is_blank(before) && text::is_blank(gap) && text::is_blank(space) && text::is_blank(
            behind,
        ),
        name.len() > 0,
        name[0] != '#',
        text::is_tight(name),
        forall|i: int| 0 <= i < name.len() ==> name[i] != '=',
        text::is_run(double, '"') && text::is_run(double_end, '"'),
        text::is_run(single, '\'') && text::is_run(single_end, '\''),
        value.len() > 0,
        value[0] != '\'' && value.last() != '\'',
        single.len() == 0 ==> value[0] != '"',
        single_end.len() == 0 ==> value.last() != '"',
        text::is_tight(double + single + value + single_end + double_end),
    ensures
        setting_line(
            before + name + gap + seq!['='] + space + (double + single + value + single_end
                + double_end) + behind,
        ) == Some((name, value)),
{
    let none = Seq::<char>::empty();
    let inner = single + value + single_end;
    let body = double + single + value + single_end + double_end;
    let l = name + gap + seq!['='] + space + body;
    let line = before + name + gap + seq!['='] + space + body + behind;
    assert(body =~= double + inner + double_end);
    assert(l[0] == name[0]);
    assert(l.last() == body.last());
    text::lemma_trimmed(before, l, behind);
    assert(before + l + behind =~= line);
    let k = (name + gap).len() as int;
    assert(l[k] == '=');
    assert(!text::is_white_space('='));
    assert forall|j: int| 0 <= j < k implies l[j] != '=' by {
        if j < name.len() {
            assert(l[j] == name[j]);
        } else {
            assert(l[j] == gap[j - name.len()]);
        }
    }
    text::lemma_find_at(l, '=', k);
    assert(l.take(k) =~= none + name + gap);
    text::lemma_trimmed(none, name, gap);
    assert(l.skip(k + 1) =~= space + body + none);
    text::lemma_trimmed(space, body, none);
    if single.len() > 0 {
        assert(inner[0] == single[0]);
    } else {
        assert(inner[0] == value[0]);
    }
    if single_end.len() > 0 {
        assert(inner.last() == single_end[single_end.len() - 1]);
    } else {
        assert(inner.last() == value.last());
    }
    text::lemma_stripped(double, inner, double_end, '"');
    text::lemma_stripped(single, value, single_end, '\'');
}

/// A setting may be empty, and an empty one may stand in quotes. A line that is blank or a comment,
/// or has no equals sign, has no setting.
pub proof fn lemma_odd_setting_lines(
    before: Seq<char>,
    name: Seq<char>,
    gap: Seq<char>,
    quotes: Seq<char>,
    behind: Seq<char>,
)
    requires
        text::is_blank(before) && text::is_blank(gap) && text::is_blank(behind),
        text::is_run(quotes, '"') || text::is_run(quotes, '\''),
        text::is_tight(name),
        forall|i: int| 0 <= i < name.len() ==> name[i] != '=',
    ensures
        name.len() > 0 && name[0] != '#' ==> setting_line(
            before + name + gap + seq!['='] + behind,
        ) == Some((name, Seq::<char>::empty())),
        name.len() > 0 && name[0] != '#' && quotes.len() > 0 ==> setting_line(
            before + (name + gap + seq!['='] + quotes) + behind,
        ) == Some((name, Seq::<char>::empty())),
        setting_line(before + name + behind) is None,
        name.len() > 0 && name[0] == '#' ==> setting_line(
            before + name + gap + seq!['='] + behind,
        ) is None,
{
    let none = Seq::<char>::empty();
    assert(!text::is_white_space('='));
    text::lemma_trimmed(before, name, behind);
    text::lemma_find_at(name, '=', name.len() as int);
    if name.len() > 0 {
        let l = name + gap + seq!['='];
        assert(l[0] == name[0]);
        assert(l.last() == '=');
        text::lemma_trimmed(before, l, behind);
        assert(before + l + behind =~= before + name + gap + seq!['='] + behind);
        let k = l.len() - 1;
        assert forall|j: int| 0 <= j < k implies l[j] != '=' by {
            if j < name.len() {
                assert(l[j] == name[j]);
            } else {
                assert(l[j] == gap[j - name.len()]);
            }
        }
        text::lemma_find_at(l, '=', k);
        assert(l.take(k) =~= none + name + gap);
        text::lemma_trimmed(none, name, gap);
        assert(l.skip(k + 1) =~= none);
        text::lemma_trimmed(none, none, none);
        assert(none + none + none =~= none);
        text::lemma_stripped(none, none, none, '"');
        text::lemma_stripped(none, none, none, '\'');
        if name[0] != '#' && quotes.len() > 0 {
            let m = l + quotes;
            assert(!text::is_white_space('"') && !text::is_white_space('\''));
            assert(m[0] == name[0]);
            assert(m.last() == quotes[quotes.len() - 1]);
            text::lemma_trimmed(before, m, behind);
            assert forall|j: int| 0 <= j < k implies m[j] != '=' by {
                assert(m[j] == l[j]);
            }
            assert(m[k] == '=');
            text::lemma_find_at(m, '=', k);
            assert(m.take(k) =~= none + name + gap);
            assert(m.skip(k + 1) =~= none + quotes + none);
            assert(quotes[0] == '"' || quotes[0] == '\'');
            text::lemma_trimmed(none, quotes, none);
            if text::is_run(quotes, '"') {
                text::lemma_stripped(quotes, none, none, '"');
                assert(quotes + none + none =~= quotes);
            } else {
                text::lemma_stripped(none, quotes, none, '"');
                assert(none + quotes + none =~= quotes);
                text::lemma_stripped(quotes, none, none, '\'');
                assert(quotes + none + none =~= quotes);
            }
        }
    }
}

/// A seed has the two words that it is made of for its halves.
pub proof fn lemma_seed_halves(low: u32, high: u32, seed: u64)
    requires
        call_ensures(seed_of, (low, high), seed),
    ensures
        seed % 0x1_0000_0000 == low,
        seed / 0x1_0000_0000 == high,
{
}

/// The next seed is another one, and no two seeds have the same one next: it is the golden ratio of
/// all seeds further, round in a circle.
#[verifier::spinoff_prover]
pub proof fn lemma_next_seed(a: u64, next_a: u64, b: u64, next_b: u64)
    requires
        call_ensures(next_tls_seed, (a,), next_a),
        call_ensures(next_tls_seed, (b,), next_b),
    ensures
        next_a != a,
        next_a == next_b <==> a == b,
        next_a - a == 0x9e37_79b9_7f4a_7c15 || a - next_a == 0x61c8_8646_80b5_83eb,
{
}

} // verus!
