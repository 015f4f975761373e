//! Texts on the display: percentages in figures, and the pixels of a text.
use vstd::prelude::*;

use embedded_graphics::framebuffer::Framebuffer;
use embedded_graphics::geometry::Point;
use embedded_graphics::mono_font::ascii::{FONT_10X20, FONT_6X10};
use embedded_graphics::mono_font::MonoTextStyle;
use embedded_graphics::pixelcolor::raw::{BigEndian, RawU1};
use embedded_graphics::pixelcolor::BinaryColor;
use embedded_graphics::text::Baseline;
use embedded_graphics::Drawable;

use crate::bounded;
use crate::bounded::Text;
use crate::canvas;
use crate::canvas::{BandBuffer, BandView, Rgba, BAND_PIXELS, SIZE};
use crate::text;

verus! {

/// The most bytes of a text that is drawn.
pub const LONGEST_TEXT: usize = 0x100_0000;

/// Bound on the coordinates that texts are drawn at.
pub const FAR: i32 = 0x1000_0000;

/// A number in decimal notation.
pub open spec fn decimal(n: int) -> Seq<char> {
    if n < 0 {
        seq!['-'] + text::figures((-n) as nat)
    } else {
        text::figures(n as nat)
    }
}

/// `s` followed by the characters of `t` up to the first that does not fit into `n` bytes.
pub open spec fn fitted(s: Seq<char>, t: Seq<char>, n: int) -> Seq<char>
    decreases t.len(),
{
    if t.len() == 0 || bounded::utf8_len(s) + bounded::utf8_len(seq![t[0]]) > n {
        s
    } else {
        fitted(s.push(t[0]), t.drop_first(), n)
    }
}

/// The text of a dial: its value in full per cent, or `n/a` where there is none.
pub open spec fn percent(n: int, ok: bool) -> Seq<char> {
    if ok {
        bounded::appended(fitted(seq![], decimal(n), 8), seq!['%'], 8)
    } else {
        "n/a"@
    }
}

/// What does not fit is left out from the first character on.
proof fn lemma_fitted_step(s: Seq<char>, t: Seq<char>, i: int, n: int)
    requires
        0 <= i < t.len(),
    ensures
        bounded::utf8_len(s) + bounded::utf8_len(seq![t[i]]) <= n ==> fitted(s, t.skip(i), n)
            == fitted(s.push(t[i]), t.skip(i + 1), n),
        bounded::utf8_len(s) + bounded::utf8_len(seq![t[i]]) > n ==> fitted(s, t.skip(i), n) == s,
{
    assert(t.skip(i).drop_first() =~= t.skip(i + 1));
    assert(t.skip(i)[0] == t[i]);
}

/// A text that fits whole is not cut.
proof fn lemma_fitted_whole(s: Seq<char>, t: Seq<char>, n: int)
    requires
        vstd::utf8::is_ascii_chars(s),
        vstd::utf8::is_ascii_chars(t),
    ensures
        s.len() + t.len() <= n ==> fitted(s, t, n) == s + t,
    decreases t.len(),
{
    if t.len() > 0 {
        vstd::utf8::is_ascii_chars_encode_utf8(s);
        vstd::utf8::is_ascii_chars_encode_utf8(seq![t[0]]);
        assert(vstd::utf8::is_ascii_chars(s.push(t[0])));
        assert(vstd::utf8::is_ascii_chars(t.drop_first()));
        lemma_fitted_whole(s.push(t[0]), t.drop_first(), n);
        assert(s.push(t[0]) + t.drop_first() =~= s + t);
    } else {
        assert(s + t =~= s);
    }
}

/// A number below ten to the tenth has at most ten figures.
proof fn lemma_figures_len(n: nat)
    requires
        n < 10_000_000_000,
    ensures
        1 <= text::figures(n).len() <= 10,
{
    reveal_with_fuel(text::figures, 11);
}

/// The first `count` bytes as characters, last to first.
spec fn backwards(bytes: Seq<u8>, count: int) -> Seq<char> {
    Seq::new(count as nat, |j: int| bytes[count - 1 - j] as char)
}

/// Writes a number in decimal notation behind a text, as far as it fits; tells whether all of
/// it did.
pub fn write_int(s: &mut heapless::String<8>, n: i32) -> (r: Result<(), ()>)
    requires
        n > i32::MIN,
    ensures
        final(s).text() == fitted(old(s).text(), decimal(n as int), 8),
        r is Ok <==> final(s).text() == old(s).text() + decimal(n as int),
{
    let ghost whole = decimal(n as int);
    let ghost before = s.text();
    assert(whole.skip(0) =~= whole);
    let mut rest: i32 = n;
    if n < 0 {
        proof {
            lemma_fitted_step(before, whole, 0, 8);
            assert(whole[0] == '-');
        }
        if bounded::push_char(s, '-').is_err() {
            return Err(());
        }
        rest = -n;
        assert(s.text() =~= before.push('-'));
    }
    let ghost amount = rest as nat;
    let ghost sign = (if n < 0 { 1int } else { 0int });
    assert(whole.skip(sign) =~= text::figures(amount));
    proof {
        lemma_figures_len(amount);
    }
    let mut buf: [u8; 10] = [0; 10];
    let mut i: usize = 0;
    if rest == 0 {
        buf[0] = 0x30;
        i = 1;
        assert(backwards(buf@, 1) =~= text::figures(0));
    } else {
        assert(text::figures(amount) =~= text::figures(rest as nat) + backwards(buf@, 0));
        while rest > 0
            invariant
                0 <= rest,
                i <= 10,
                text::figures(amount).len() <= 10,
                rest > 0 ==> text::figures(amount) == text::figures(rest as nat) + backwards(
                    buf@,
                    i as int,
                ),
                rest == 0 ==> text::figures(amount) == backwards(buf@, i as int),
            decreases rest,
        {
            let ghost old_buf = buf@;
            let ghost old_rest = rest as nat;
            assert(text::figures(old_rest).len() >= 1);
            assert(text::figures(amount).len() == text::figures(old_rest).len() + i);
            buf[i] = 0x30 + (rest % 10) as u8;
            rest = rest / 10;
            i += 1;
            proof {
                assert(buf@[i - 1] as char == (old_rest % 10 + 0x30) as char);
                assert(backwards(buf@, i as int) =~= seq![(old_rest % 10 + 0x30) as char]
                    + backwards(old_buf, i - 1));
                if rest > 0 {
                    assert(text::figures(old_rest) == text::figures(rest as nat).push(
                        (old_rest % 10 + 0x30) as char,
                    ));
                    assert(text::figures(amount) =~= text::figures(rest as nat) + backwards(
                        buf@,
                        i as int,
                    ));
                } else {
                    assert(text::figures(old_rest) == seq![(old_rest % 10 + 0x30) as char]);
                    assert(text::figures(amount) =~= backwards(buf@, i as int));
                }
            }
        }
    }
    let ghost count = i as int;
    assert(text::figures(amount).skip(0) =~= text::figures(amount));
    assert(fitted(before, whole, 8) == fitted(s.text(), text::figures(amount), 8));
    assert(s.text() + text::figures(amount) =~= before + whole);
    while i > 0
        invariant
            i <= count <= 10,
            before == old(s).text(),
            whole == decimal(n as int),
            text::figures(amount) == backwards(buf@, count),
            fitted(before, whole, 8) == fitted(s.text(), text::figures(amount).skip(count - i), 8),
            s.text() + text::figures(amount).skip(count - i) == before + whole,
        decreases i,
    {
        i -= 1;
        let ghost at = count - i - 1;
        proof {
            assert(text::figures(amount)[at] == buf@[i as int] as char);
            lemma_fitted_step(s.text(), text::figures(amount), at, 8);
        }
        let ghost pushed = s.text().push(buf@[i as int] as char);
        if bounded::push_char(s, buf[i] as char).is_err() {
            assert((before + whole).len() > s.text().len());
            return Err(());
        }
        assert(s.text() =~= pushed);
        assert(s.text() + text::figures(amount).skip(at + 1) =~= before + whole);
    }
    assert(text::figures(amount).skip(count) =~= seq![]);
    assert(s.text() =~= s.text() + text::figures(amount).skip(count));
    Ok(())
}

/// The text of a dial.
pub fn format_percent(n: i32, ok: bool) -> (s: heapless::String<8>)
    requires
        n > i32::MIN,
    ensures
        s.text() == percent(n as int, ok),
{
    let mut s: heapless::String<8> = bounded::new_text();
    if !ok {
        proof {
            reveal_strlit("n/a");
            assert(vstd::utf8::is_ascii_chars("n/a"@));
            vstd::utf8::is_ascii_chars_encode_utf8("n/a"@);
            assert(vstd::utf8::is_ascii_chars(Seq::<char>::empty()));
            vstd::utf8::is_ascii_chars_encode_utf8(Seq::<char>::empty());
            assert(Seq::<char>::empty() + "n/a"@ =~= "n/a"@);
        }
        let _ = bounded::push_text(&mut s, "n/a");
        return s;
    }
    let _ = write_int(&mut s, n);
    let _ = bounded::push_char(&mut s, '%');
    s
}

/// Every percentage that a dial shows fits: its text is the whole number and the sign.
pub proof fn lemma_percent_whole(n: int)
    requires
        0 <= n <= 9_999_999,
    ensures
        percent(n, true) == decimal(n).push('%'),
{
    text::lemma_figures_read_back(n as nat);
    assert(text::figures(n as nat).len() <= 7) by {
        reveal_with_fuel(text::figures, 8);
    }
    let none = Seq::<char>::empty();
    assert(vstd::utf8::is_ascii_chars(none));
    lemma_fitted_whole(none, decimal(n), 8);
    assert(none + decimal(n) =~= decimal(n));
    assert(vstd::utf8::is_ascii_chars(seq!['%']));
    vstd::utf8::is_ascii_chars_encode_utf8(decimal(n));
    vstd::utf8::is_ascii_chars_encode_utf8(seq!['%']);
    assert(decimal(n) + seq!['%'] =~= decimal(n).push('%'));
}

/// The pixels that a text leaves on an empty one-bit picture of 240 by 40 pixels, drawn with
/// the font of 6 by 10 pixels from its upper left corner on. Eight pixels make a byte, the
/// leftmost in the highest bit.
pub uninterp spec fn small_text(text: Seq<char>, x: int, y: int) -> Seq<u8>;

/// The pixels that a text leaves on such a picture with the font of 10 by 20 pixels.
pub uninterp spec fn big_text(text: Seq<char>, x: int, y: int) -> Seq<u8>;

/// `Text::draw` of `embedded_graphics` with `FONT_6X10` on a `Framebuffer`: names the bytes of
/// the picture. There is one bit for each pixel. The bounds keep the position of every
/// character and line within an `i32`.
#[verifier::external_body]
fn small_text_pixels(text: &str, x: i32, y: i32) -> (r: Vec<u8>)
    requires
        bounded::utf8_len(text@) <= LONGEST_TEXT,
        -2 * FAR <= x <= 2 * FAR,
        -2 * FAR <= y <= 2 * FAR,
    ensures
        r@ == small_text(text@, x as int, y as int),
        r@.len() == 1200,
{
    let mut picture: Framebuffer<BinaryColor, RawU1, BigEndian, 240, 40, 1200> =
        Framebuffer::new();
    let style = MonoTextStyle::new(&FONT_6X10, BinaryColor::On);
    let at = Point::new(x, y);
    let _ = embedded_graphics::text::Text::with_baseline(text, at, style, Baseline::Top).draw(
        &mut picture,
    );
    picture.data().to_vec()
}

/// `Text::draw` of `embedded_graphics` with `FONT_10X20` on a `Framebuffer`: names the bytes of
/// the picture. There is one bit for each pixel. The bounds keep the position of every
/// character and line within an `i32`.
#[verifier::external_body]
fn big_text_pixels(text: &str, x: i32, y: i32) -> (r: Vec<u8>)
    requires
        bounded::utf8_len(text@) <= LONGEST_TEXT,
        -2 * FAR <= x <= 2 * FAR,
        -2 * FAR <= y <= 2 * FAR,
    ensures
        r@ == big_text(text@, x as int, y as int),
        r@.len() == 1200,
{
    let mut picture: Framebuffer<BinaryColor, RawU1, BigEndian, 240, 40, 1200> =
        Framebuffer::new();
    let style = MonoTextStyle::new(&FONT_10X20, BinaryColor::On);
    let at = Point::new(x, y);
    let _ = embedded_graphics::text::Text::with_baseline(text, at, style, Baseline::Top).draw(
        &mut picture,
    );
    picture.data().to_vec()
}

/// Whether a pixel of a one-bit picture is set.
pub open spec fn lit(picture: Seq<u8>, i: int) -> bool {
    (picture[i / 8] >> ((7 - i % 8) as u8)) & 1 == 1
}

/// The band with one colour at the set pixels of a picture of its rows.
pub open spec fn stamped(b: BandView, picture: Seq<u8>, c: u16) -> BandView {
    BandView {
        pixels: Seq::new(
            b.pixels.len(),
            |i: int|
                if i < 240 * b.height && lit(picture, i) {
                    c
                } else {
                    b.pixels[i]
                },
        ),
        ..b
    }
}

/// The picture of a text whose middle is at `cx` and `cy`, on the rows from `y0` on. A text is
/// as wide as its bytes are many, six or ten pixels for each.
pub open spec fn label_picture(text: Seq<char>, cx: int, cy: int, big: bool, y0: int) -> Seq<u8> {
    let n = bounded::utf8_len(text);
    if big {
        big_text(text, cx - 5 * n, cy - 10 - y0)
    } else {
        small_text(text, cx - 3 * n, cy - 5 - y0)
    }
}

/// Gives the pixels that a picture of the band's rows has set one colour.
pub fn stamp(fb: &mut BandBuffer, picture: &[u8], c: u16)
    requires
        canvas::sound(old(fb)@),
        picture@.len() == 1200,
    ensures
        final(fb)@ == stamped(old(fb)@, picture@, c),
{
    let n: usize = SIZE * fb.height;
    let mut i: usize = 0;
    while i < n
        invariant
            canvas::sound(fb@),
            picture@.len() == 1200,
            n == 240 * fb.height,
            fb.y0 == old(fb).y0,
            fb.height == old(fb).height,
            i <= n,
            forall|j: int| 0 <= j < i ==> fb.pixels@[j] == stamped(old(fb)@, picture@, c).pixels[j],
            forall|j: int| i <= j < BAND_PIXELS ==> fb.pixels@[j] == old(fb).pixels@[j],
        decreases n - i,
    {
        if (picture[i / 8] >> ((7 - i % 8) as u8)) & 1 == 1 {
            fb.pixels[i] = c;
        }
        i += 1;
    }
    assert(fb@.pixels =~= stamped(old(fb)@, picture@, c).pixels);
}

/// Draws a text with its middle at `cx` and `cy`, in the larger font or in the smaller one.
pub fn draw_label(fb: &mut BandBuffer, text: &str, col: Rgba, cx: i32, cy: i32, big: bool)
    requires
        canvas::sound(old(fb)@),
        -FAR <= old(fb).y0 <= FAR,
        bounded::utf8_len(text@) <= LONGEST_TEXT,
        -FAR <= cx <= FAR,
        -FAR / 2 <= cy <= FAR / 2,
    ensures
        final(fb)@ == stamped(
            old(fb)@,
            label_picture(text@, cx as int, cy as int, big, old(fb)@.y0),
            canvas::packed(col.r, col.g, col.b),
        ),
{
    let n: i32 = text.as_bytes().len() as i32;
    let picture = if big {
        big_text_pixels(text, cx - n * 10 / 2, cy - 10 - fb.y0)
    } else {
        small_text_pixels(text, cx - n * 6 / 2, cy - 5 - fb.y0)
    };
    stamp(fb, picture.as_slice(), col.to_rgb565());
}

/// A number in decimal notation is its figures, with a minus sign before them where it is below
/// zero.
pub proof fn lemma_decimal(n: int)
    ensures
        n >= 0 ==> text::digits_value(decimal(n), 10) == Some(n as nat),
        n < 0 ==> decimal(n) == seq!['-'] + decimal(-n),
        n >= 0 && decimal(n)[0] == '0' ==> n == 0,
{
    if n >= 0 {
        text::lemma_figures_read_back(n as nat);
    }
}

/// As many characters of a text are put behind another one as there is room for.
pub proof fn lemma_fitted(s: Seq<char>, t: Seq<char>, n: int)
    requires
        vstd::utf8::is_ascii_chars(s),
        vstd::utf8::is_ascii_chars(t),
        s.len() <= n,
    ensures
        fitted(s, t, n) == s + t.take(
            if t.len() <= n - s.len() {
                t.len() as int
            } else {
                n - s.len()
            },
        ),
    decreases t.len(),
{
    vstd::utf8::is_ascii_chars_encode_utf8(s);
    if t.len() > 0 {
        assert(vstd::utf8::is_ascii_chars(seq![t[0]]));
        vstd::utf8::is_ascii_chars_encode_utf8(seq![t[0]]);
        if s.len() < n {
            let more = t.drop_first();
            assert(vstd::utf8::is_ascii_chars(s.push(t[0])));
            assert(vstd::utf8::is_ascii_chars(more)) by {
                assert forall|i: int| 0 <= i < more.len() implies '\0' <= #[trigger] more[i]
                    <= '\u{7f}' by {
                    assert(more[i] == t[i + 1]);
                }
            }
            lemma_fitted(s.push(t[0]), more, n);
            let k = if t.len() <= n - s.len() {
                t.len() as int
            } else {
                n - s.len()
            };
            assert(s.push(t[0]) + more.take(k - 1) =~= s + t.take(k));
        } else {
            assert(s + t.take(0) =~= s);
        }
    } else {
        assert(s + t.take(0) =~= s);
    }
}

/// The text of a dial with a value is the number and the sign of per cent, cut where it is longer
/// than eight characters; that of one without a value says so.
pub proof fn lemma_percent(n: int)
    ensures
        ({
            let whole = decimal(n).push('%');
            percent(n, true) == if whole.len() <= 8 {
                whole
            } else {
                whole.take(8)
            }
        }),
        percent(n, false) == "n/a"@,
{
    let none = Seq::<char>::empty();
    let d = decimal(n);
    let sign = seq!['%'];
    text::lemma_figures_read_back(
        if n < 0 {
            (-n) as nat
        } else {
            n as nat
        },
    );
    assert(vstd::utf8::is_ascii_chars(none));
    assert(vstd::utf8::is_ascii_chars(sign));
    assert(vstd::utf8::is_ascii_chars(d)) by {
        if n < 0 {
            let f = text::figures((-n) as nat);
            assert forall|i: int| 0 <= i < d.len() implies '\0' <= #[trigger] d[i] <= '\u{7f}' by {
                if i > 0 {
                    assert(d[i] == f[i - 1]);
                }
            }
        }
    }
    lemma_fitted(none, d, 8);
    let s = fitted(none, d, 8);
    let k = if d.len() <= 8 {
        d.len() as int
    } else {
        8
    };
    assert(s =~= d.take(k));
    assert(vstd::utf8::is_ascii_chars(s)) by {
        assert forall|i: int| 0 <= i < s.len() implies '\0' <= #[trigger] s[i] <= '\u{7f}' by {
            assert(s[i] == d[i]);
        }
    }
    vstd::utf8::is_ascii_chars_encode_utf8(s);
    vstd::utf8::is_ascii_chars_encode_utf8(sign);
    let whole = d.push('%');
    if d.len() < 8 {
        assert(s + sign =~= whole);
    } else {
        assert(s =~= whole.take(8));
    }
}

/// The pixels of a one-bit picture stand eight to a byte, the leftmost in the highest bit.
pub proof fn lemma_lit(picture: Seq<u8>, i: int)
    requires
        0 <= i,
    ensures
        lit(picture, i) <==> picture[i / 8] & (0x80u8 >> ((i % 8) as u8)) != 0,
{
    let b = picture[i / 8];
    let k = (i % 8) as u8;
    assert(((b >> ((7 - k) as u8)) & 1 == 1) == (b & (0x80u8 >> k) != 0)) by (bit_vector)
        requires
            k < 8,
    ;
}

/// A text covers the pixels that its picture has set, and leaves the others.
pub proof fn lemma_stamped(b: BandView, picture: Seq<u8>, c: u16, x: int, y: int)
    requires
        canvas::sound(b),
        b.holds(x, y),
    ensures
        ({
            let after = stamped(b, picture, c);
            &&& after.y0 == b.y0 && after.height == b.height
            &&& after.pixels.len() == b.pixels.len()
            &&& lit(picture, (y - b.y0) * 240 + x) ==> after.pixel(x, y) == c
            &&& !lit(picture, (y - b.y0) * 240 + x) ==> after.pixel(x, y) == b.pixel(x, y)
        }),
{
}

/// A text is centred both ways: its picture begins as far left of the middle as it ends right of
/// it, and as far above as below. It moves with the text, and against the rows of the band.
pub proof fn lemma_label_centred(text: Seq<char>, cx: int, cy: int, y0: int, left: int, top: int)
    requires
        cy - top - y0 == top + 10 + y0 - cy,
        cx - left == left + 6 * bounded::utf8_len(text) - cx,
    ensures
        label_picture(text, cx, cy, false, y0) == small_text(text, left, top),
{
}

/// The same of a text in the larger font.
pub proof fn lemma_big_label_centred(
    text: Seq<char>,
    cx: int,
    cy: int,
    y0: int,
    left: int,
    top: int,
)
    requires
        cy - top - y0 == top + 20 + y0 - cy,
        cx - left == left + 10 * bounded::utf8_len(text) - cx,
    ensures
        label_picture(text, cx, cy, true, y0) == big_text(text, left, top),
{
}

} // verus!
