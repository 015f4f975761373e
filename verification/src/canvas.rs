//! The pixels of one horizontal band of the round display, and the shapes drawn on them.
//!
//! The display has 240 by 240 pixels of 16 bits each. Only a band of them is held at a time;
//! everything drawn outside of the band is dropped.
use vstd::prelude::*;

verus! {

/// Width and height of the display in pixels.
pub const SIZE: usize = 240;

/// The most rows that a band holds.
pub const BAND_HEIGHT: usize = 40;

/// The most pixels that a band holds.
pub const BAND_PIXELS: usize = 9600;

/// Both coordinates of the middle of the display.
pub const CENTER: i32 = 120;

/// A colour with its opacity.
#[derive(Clone, Copy, PartialEq, Eq, Structural)]
pub struct Rgba {
    pub r: u8,
    pub g: u8,
    pub b: u8,
    pub a: u8,
}

/// The 16 bits that stand for a colour: the upper five, six and five bits of its components.
pub open spec fn packed(r: u8, g: u8, b: u8) -> u16 {
    ((r / 8) * 2048 + (g / 4) * 32 + b / 8) as u16
}

/// The opaque colour that 16 bits stand for: each component is widened to eight bits by
/// repeating its upper bits.
pub open spec fn unpacked(c: u16) -> Rgba {
    let r = c / 2048;
    let g = c / 32 % 64;
    let b = c % 32;
    Rgba {
        r: (r * 8 + r / 4) as u8,
        g: (g * 4 + g / 16) as u8,
        b: (b * 8 + b / 4) as u8,
        a: 255,
    }
}

/// Packing undoes unpacking: a pixel that is read as a colour and written back is unchanged.
pub proof fn lemma_packed_unpacked(c: u16)
    ensures
        packed(unpacked(c).r, unpacked(c).g, unpacked(c).b) == c,
{
}

impl Rgba {
    /// The colour with these components.
    pub fn new(r: u8, g: u8, b: u8, a: u8) -> (c: Self)
        ensures
            c == (Rgba { r, g, b, a }),
    {
        Rgba { r, g, b, a }
    }

    /// The 16 bits that stand for the colour; its opacity is dropped.
    pub fn to_rgb565(self) -> (c: u16)
        ensures
            c == packed(self.r, self.g, self.b),
    {
        rgb565(self.r, self.g, self.b)
    }
}

/// The 16 bits that stand for the colour with these components.
pub fn rgb565(r: u8, g: u8, b: u8) -> (c: u16)
    ensures
        c == packed(r, g, b),
{
    let c: u16 = ((r as u16 & 0xF8) << 8) | ((g as u16 & 0xFC) << 3) | ((b as u16) >> 3);
    let r16: u16 = r as u16;
    let g16: u16 = g as u16;
    let b16: u16 = b as u16;
    assert(((r16 & 0xF8) << 8) | ((g16 & 0xFC) << 3) | (b16 >> 3) == (r16 / 8) * 2048 + (g16 / 4)
        * 32 + b16 / 8) by (bit_vector)
        requires
            r16 <= 255,
            g16 <= 255,
            b16 <= 255,
    ;
    c
}

/// The opaque colour that 16 bits stand for.
pub fn from_rgb565(c: u16) -> (col: Rgba)
    ensures
        col == unpacked(c),
{
    assert((c >> 11) & 0x1F == c / 2048) by (bit_vector);
    assert((c >> 5) & 0x3F == c / 32 % 64) by (bit_vector);
    assert(c & 0x1F == c % 32) by (bit_vector);
    let r: u8 = ((c >> 11) & 0x1F) as u8;
    let g: u8 = ((c >> 5) & 0x3F) as u8;
    let b: u8 = (c & 0x1F) as u8;
    assert((r << 3) | (r >> 2) == r * 8 + r / 4) by (bit_vector)
        requires
            r < 32,
    ;
    assert((g << 2) | (g >> 4) == g * 4 + g / 16) by (bit_vector)
        requires
            g < 64,
    ;
    assert((b << 3) | (b >> 2) == b * 8 + b / 4) by (bit_vector)
        requires
            b < 32,
    ;
    Rgba { r: (r << 3) | (r >> 2), g: (g << 2) | (g >> 4), b: (b << 3) | (b >> 2), a: 255 }
}

/// The display's dark ground.
#[verifier::allow_in_spec]
pub fn background() -> Rgba
    returns
        (Rgba { r: 11, g: 14, b: 18, a: 255 }),
{
    Rgba { r: 11, g: 14, b: 18, a: 255 }
}

/// What a band holds: the rows from `y0` on, `height` of them, and their pixels row by row.
/// Pixels beyond the last row are kept, but stand for nothing.
#[verifier::ext_equal]
pub struct BandView {
    pub y0: int,
    pub height: int,
    pub pixels: Seq<u16>,
}

impl BandView {
    /// Whether the band holds a pixel at this place.
    pub open spec fn holds(self, x: int, y: int) -> bool {
        0 <= x < SIZE && 0 <= y - self.y0 < self.height
    }

    /// Where in the band the pixel at this place stands.
    pub open spec fn at(self, x: int, y: int) -> int {
        (y - self.y0) * 240 + x
    }

    /// The pixel at this place.
    pub open spec fn pixel(self, x: int, y: int) -> u16 {
        self.pixels[self.at(x, y)]
    }
}

/// A horizontal band of the display.
pub struct BandBuffer {
    pub y0: i32,
    pub height: usize,
    pub pixels: [u16; BAND_PIXELS],
}

impl View for BandBuffer {
    type V = BandView;

    open spec fn view(&self) -> BandView {
        BandView { y0: self.y0 as int, height: self.height as int, pixels: self.pixels@ }
    }
}

/// Whether a band's rows fit its pixels.
pub open spec fn sound(b: BandView) -> bool {
    &&& 0 <= b.height <= BAND_HEIGHT
    &&& b.pixels.len() == BAND_PIXELS
}

/// Whether a band is sound, and each of its rows has a number.
pub open spec fn drawable(b: BandView) -> bool {
    &&& sound(b)
    &&& i32::MIN <= b.y0
    &&& b.y0 + b.height - 1 <= i32::MAX
}

/// The band with these rows of plain ground.
pub open spec fn cleared(b: BandView, y0: int, height: int) -> BandView {
    let h = if height < BAND_HEIGHT { height } else { BAND_HEIGHT as int };
    let ground = packed(background().r, background().g, background().b);
    BandView {
        y0,
        height: h,
        pixels: Seq::new(
            b.pixels.len(),
            |i: int|
                if i < 240 * h {
                    ground
                } else {
                    b.pixels[i]
                },
        ),
    }
}

/// The band after one pixel was given a value; nothing happens outside of the band.
pub open spec fn plotted(b: BandView, x: int, y: int, c: u16) -> BandView {
    if b.holds(x, y) {
        BandView { pixels: b.pixels.update(b.at(x, y), c), ..b }
    } else {
        b
    }
}

/// The band after a list of pixels were given their values one after another.
pub open spec fn plotted_all(b: BandView, list: Seq<(i32, i32, u16)>) -> BandView
    decreases list.len(),
{
    if list.len() == 0 {
        b
    } else {
        let (x, y, c) = list.last();
        plotted(plotted_all(b, list.drop_last()), x as int, y as int, c)
    }
}

/// Whether painting `col` over the pixel `before` may leave `after`: an opaque colour replaces
/// the pixel, a transparent one leaves it, and any other is mixed with it by `blend`.
pub open spec fn painted<F: Fn(Rgba, Rgba) -> Rgba>(
    blend: F,
    before: u16,
    col: Rgba,
    after: u16,
) -> bool {
    if col.a == 255 {
        after == packed(col.r, col.g, col.b)
    } else if col.a == 0 {
        after == before
    } else {
        exists|c: Rgba|
            call_ensures(blend, (unpacked(before), col), c) && after == packed(c.r, c.g, c.b)
    }
}

/// Whether `after` is `before` with the colours of `shape` painted over it, each pixel once.
pub open spec fn drawn<F: Fn(Rgba, Rgba) -> Rgba>(
    blend: F,
    before: BandView,
    shape: spec_fn(int, int) -> Option<Rgba>,
    after: BandView,
) -> bool {
    &&& after.y0 == before.y0
    &&& after.height == before.height
    &&& after.pixels.len() == before.pixels.len()
    &&& forall|i: int| 240 * before.height <= i < before.pixels.len() ==> after.pixels[i]
        == before.pixels[i]
    &&& forall|x: int, y: int| #[trigger]
        before.holds(x, y) ==> match shape(x, y) {
            Some(col) => painted(blend, before.pixel(x, y), col, after.pixel(x, y)),
            None => after.pixel(x, y) == before.pixel(x, y),
        }
}

/// Whether `blend` is a function of two colours: it can be asked for every pair of them, and gives
/// one answer for each.
pub open spec fn mixes<F: Fn(Rgba, Rgba) -> Rgba>(blend: F) -> bool {
    &&& forall|below: Rgba, above: Rgba| call_requires(blend, (below, above))
    &&& forall|below: Rgba, above: Rgba, c: Rgba, d: Rgba|
        #![trigger call_ensures(blend, (below, above), c), call_ensures(blend, (below, above), d)]
        call_ensures(blend, (below, above), c) && call_ensures(blend, (below, above), d) ==> c == d
}

/// What drawing a shape leaves is fixed by what was there.
pub proof fn lemma_drawn_once<F: Fn(Rgba, Rgba) -> Rgba>(
    blend: F,
    before: BandView,
    shape: spec_fn(int, int) -> Option<Rgba>,
    one: BandView,
    other: BandView,
)
    requires
        mixes(blend),
        drawn(blend, before, shape, one),
        drawn(blend, before, shape, other),
    ensures
        one == other,
{
    assert forall|i: int| 0 <= i < one.pixels.len() implies one.pixels[i] == other.pixels[i] by {
        if i < 240 * before.height {
            let x = i % 240;
            let y = before.y0 + i / 240;
            assert(before.holds(x, y));
            assert(one.at(x, y) == i && other.at(x, y) == i);
            assert(one.pixel(x, y) == other.pixel(x, y));
        }
    }
    assert(one.pixels =~= other.pixels);
}

impl BandBuffer {
    /// A black band of the first rows.
    pub fn new() -> (band: Self)
        ensures
            band@ == (BandView {
                y0: 0,
                height: BAND_HEIGHT as int,
                pixels: Seq::new(BAND_PIXELS as nat, |i: int| 0u16),
            }),
    {
        let band = BandBuffer { y0: 0, height: BAND_HEIGHT, pixels: [0; BAND_PIXELS] };
        assert(band.pixels@ =~= Seq::new(BAND_PIXELS as nat, |i: int| 0u16));
        band
    }

    /// Moves the band to other rows, at most as many as it holds, and fills them with the
    /// ground.
    pub fn prepare(&mut self, y0: i32, height: usize)
        ensures
            final(self)@ == cleared(old(self)@, y0 as int, height as int),
    {
        self.y0 = y0;
        self.height = if height < BAND_HEIGHT { height } else { BAND_HEIGHT };
        let c: u16 = background().to_rgb565();
        let n: usize = SIZE * self.height;
        let mut i: usize = 0;
        while i < n
            invariant
                n == 240 * self.height,
                self.height <= BAND_HEIGHT,
                self.height == (if height < BAND_HEIGHT { height } else { BAND_HEIGHT }),
                self.y0 == y0,
                i <= n,
                c == packed(background().r, background().g, background().b),
                forall|j: int| 0 <= j < i ==> self.pixels@[j] == c,
                forall|j: int| i <= j < BAND_PIXELS ==> self.pixels@[j] == old(self).pixels@[j],
            decreases n - i,
        {
            self.pixels[i] = c;
            i += 1;
        }
        assert(self@.pixels =~= cleared(old(self)@, y0 as int, height as int).pixels);
    }

    /// Paints one pixel.
    pub fn set_rgba<F: Fn(Rgba, Rgba) -> Rgba>(&mut self, x: i32, y: i32, col: Rgba, blend: &F)
        requires
            sound(old(self)@),
            i32::MIN <= y - old(self).y0 <= i32::MAX,
            mixes(*blend),
        ensures
            drawn(
                *blend,
                old(self)@,
                |px: int, py: int|
                    if px == x && py == y {
                        Some(col)
                    } else {
                        None
                    },
                final(self)@,
            ),
    {
        if x < 0 || x >= SIZE as i32 {
            return;
        }
        let ly: i32 = y - self.y0;
        if ly < 0 || ly >= self.height as i32 {
            return;
        }
        let i: usize = ly as usize * SIZE + x as usize;
        proof {
            assert forall|px: int, py: int| old(self)@.holds(px, py) && old(self)@.at(px, py) == i
                implies px == x && py == y by {}
        }
        if col.a == 255 {
            self.pixels[i] = col.to_rgb565();
            return;
        }
        if col.a == 0 {
            return;
        }
        let below = from_rgb565(self.pixels[i]);
        let mixed = blend(below, col);
        self.pixels[i] = mixed.to_rgb565();
    }

    /// The pixels of the band's rows.
    pub fn row_slice(&self) -> (pixels: &[u16])
        requires
            sound(self@),
        ensures
            pixels@ == self@.pixels.take(240 * self@.height),
    {
        vstd::slice::slice_subrange(self.pixels.as_slice(), 0, SIZE * self.height)
    }

    /// The corners of the band on the display: its first pixel and its last one.
    pub fn window(&self) -> (corners: ((u16, u16), (u16, u16)))
        requires
            0 < self.height <= BAND_HEIGHT,
            0 <= self.y0 <= SIZE - self.height,
        ensures
            corners.0 == (0u16, self.y0 as u16),
            corners.1 == (239u16, (self.y0 + self.height - 1) as u16),
    {
        ((0, self.y0 as u16), (SIZE as u16 - 1, (self.y0 + self.height as i32 - 1) as u16))
    }

    /// Gives each listed pixel its value, in turn.
    pub fn draw_iter(&mut self, list: &[(i32, i32, u16)])
        requires
            sound(old(self)@),
            forall|i: int|
                0 <= i < list@.len() ==> i32::MIN <= (#[trigger] list@[i]).1 - old(self).y0
                    <= i32::MAX,
        ensures
            final(self)@ == plotted_all(old(self)@, list@),
    {
        let mut k: usize = 0;
        assert(list@.take(0) =~= Seq::empty());
        while k < list.len()
            invariant
                k <= list@.len(),
                sound(self@),
                self.y0 == old(self).y0,
                forall|i: int|
                    0 <= i < list@.len() ==> i32::MIN <= (#[trigger] list@[i]).1 - old(self).y0
                        <= i32::MAX,
                self@ == plotted_all(old(self)@, list@.take(k as int)),
            decreases list@.len() - k,
        {
            assert(list@.take(k + 1).drop_last() =~= list@.take(k as int));
            let (x, y, c) = list[k];
            let ly: i32 = y - self.y0;
            if 0 <= x && x < SIZE as i32 && ly >= 0 && ly < self.height as i32 {
                let i: usize = ly as usize * SIZE + x as usize;
                self.pixels[i] = c;
            }
            k += 1;
        }
        assert(list@.take(k as int) =~= list@);
    }
}

impl Default for BandBuffer {
    /// A black band of the first rows.
    fn default() -> (band: Self)
        ensures
            band@ == (BandView {
                y0: 0,
                height: BAND_HEIGHT as int,
                pixels: Seq::new(BAND_PIXELS as nat, |i: int| 0u16),
            }),
    {
        BandBuffer::new()
    }
}

/// A colour is packed into five, six and five bits, red in the upper ones and blue in the lower
/// ones: the upper bits of each component.
#[verifier::spinoff_prover]
pub proof fn lemma_packed(r: u8, g: u8, b: u8, c: u16)
    requires
        call_ensures(rgb565, (r, g, b), c),
    ensures
        c == packed(r, g, b),
        c / 2048 == r / 8,
        c / 32 % 64 == g / 4,
        c % 32 == b / 8,
{
    lemma_fields((r / 8) as int, (g / 4) as int, (b / 8) as int);
}

/// Numbers of five, six and five bits are found again in the one that they make.
#[verifier::spinoff_prover]
proof fn lemma_fields(x: int, y: int, z: int)
    requires
        0 <= x < 32,
        0 <= y < 64,
        0 <= z < 32,
    ensures
        0 <= x * 2048 + y * 32 + z < 65536,
        (x * 2048 + y * 32 + z) / 2048 == x,
        (x * 2048 + y * 32 + z) / 32 % 64 == y,
        (x * 2048 + y * 32 + z) % 32 == z,
{
    let upper = x * 64 + y;
    assert(x * 2048 + y * 32 + z == upper * 32 + z);
    assert((upper * 32 + z) / 32 == upper);
    assert(upper % 64 == y);
    assert(0 <= y * 32 + z < 2048);
}

/// A packed colour is opaque, has the packed bits for the upper bits of its components, and the
/// upper ones of these again for the lower bits, so that black stays black and white stays white.
#[verifier::spinoff_prover]
pub proof fn lemma_unpacked(c: u16, col: Rgba)
    requires
        call_ensures(from_rgb565, (c,), col),
    ensures
        col == unpacked(c),
        col.a == 255,
        col.r / 8 == c / 2048 && col.r % 8 == col.r / 32,
        col.g / 4 == c / 32 % 64 && col.g % 4 == col.g / 64,
        col.b / 8 == c % 32 && col.b % 8 == col.b / 32,
{
}

/// Each place of a band has a pixel of its own.
#[verifier::spinoff_prover]
pub proof fn lemma_places_apart(b: BandView, x: int, y: int, px: int, py: int)
    requires
        sound(b),
        b.holds(x, y),
        b.holds(px, py),
    ensures
        0 <= b.at(x, y) < 240 * b.height,
        b.at(x, y) < b.pixels.len(),
        b.at(x, y) == b.at(px, py) <==> x == px && y == py,
        x + 1 < SIZE ==> b.at(x + 1, y) == b.at(x, y) + 1,
        b.at(x, y + 1) == b.at(x, y) + SIZE,
{
}

/// A band that is cleared has these rows and the colour of the ground everywhere, and no more rows
/// than it can hold.
pub proof fn lemma_cleared(b: BandView, y0: int, height: int, x: int, y: int)
    requires
        b.pixels.len() == BAND_PIXELS,
        0 <= height,
    ensures
        ({
            let after = cleared(b, y0, height);
            &&& after.y0 == y0
            &&& after.height == if height < 40 {
                height
            } else {
                40
            }
            &&& after.holds(x, y) ==> after.pixel(x, y) == packed(11, 14, 18)
        }),
{
}

/// What is drawn: where a shape has no colour or a transparent one the pixel stays, an opaque
/// colour replaces it, and any other is mixed with the colour that was there. The band stays where
/// it is.
pub proof fn lemma_drawn_pixel<F: Fn(Rgba, Rgba) -> Rgba>(
    blend: F,
    before: BandView,
    shape: spec_fn(int, int) -> Option<Rgba>,
    after: BandView,
    x: int,
    y: int,
)
    requires
        drawn(blend, before, shape, after),
        before.holds(x, y),
    ensures
        after.y0 == before.y0 && after.height == before.height,
        shape(x, y) is None ==> after.pixel(x, y) == before.pixel(x, y),
        shape(x, y) matches Some(c) ==> {
            &&& c.a == 0 ==> after.pixel(x, y) == before.pixel(x, y)
            &&& c.a == 255 ==> after.pixel(x, y) == packed(c.r, c.g, c.b)
            &&& 0 < c.a < 255 ==> exists|m: Rgba|
                call_ensures(blend, (unpacked(before.pixel(x, y)), c), m) && after.pixel(x, y)
                    == #[trigger] packed(m.r, m.g, m.b)
        },
{
}

/// A listed pixel gets the last value that is listed for it, and any other stays as it is.
pub proof fn lemma_listed(b: BandView, list: Seq<(i32, i32, u16)>, x: int, y: int, k: int)
    requires
        sound(b),
        b.holds(x, y),
        -1 <= k < list.len(),
        k >= 0 ==> list[k].0 == x && list[k].1 == y,
        forall|j: int|
            k < j < list.len() ==> (#[trigger] list[j]).0 != x || list[j].1 != y,
    ensures
        plotted_all(b, list).y0 == b.y0,
        plotted_all(b, list).height == b.height,
        plotted_all(b, list).pixels.len() == b.pixels.len(),
        k >= 0 ==> plotted_all(b, list).pixel(x, y) == list[k].2,
        k < 0 ==> plotted_all(b, list).pixel(x, y) == b.pixel(x, y),
    decreases list.len(),
{
    if list.len() > 0 {
        let most = list.drop_last();
        let (px, py, c) = list.last();
        if k == list.len() - 1 {
            lemma_plotted_sound(b, most);
            lemma_places_apart(plotted_all(b, most), x, y, x, y);
        } else {
            assert forall|j: int|
                k < j < most.len() implies (#[trigger] most[j]).0 != x || most[j].1 != y by {
                assert(list[j].0 != x || list[j].1 != y);
            }
            lemma_listed(b, most, x, y, k);
            assert(list[list.len() - 1].0 != x || list[list.len() - 1].1 != y);
            let before = plotted_all(b, most);
            if before.holds(px as int, py as int) {
                lemma_places_apart(before, x, y, px as int, py as int);
            }
        }
    }
}

/// Listed pixels leave a band with its rows.
proof fn lemma_plotted_sound(b: BandView, list: Seq<(i32, i32, u16)>)
    requires
        sound(b),
    ensures
        plotted_all(b, list).y0 == b.y0,
        plotted_all(b, list).height == b.height,
        plotted_all(b, list).pixels.len() == b.pixels.len(),
    decreases list.len(),
{
    if list.len() > 0 {
        lemma_plotted_sound(b, list.drop_last());
    }
}

/// A band is sent as the rows that it holds: a window over the whole width, from its first row to
/// its last one, and a pixel for each place in it, row by row.
pub proof fn lemma_band_sent(
    band: &BandBuffer,
    corners: ((u16, u16), (u16, u16)),
    pixels: &[u16],
    x: int,
    y: int,
)
    requires
        0 < band.height <= BAND_HEIGHT,
        0 <= band.y0 <= SIZE - band.height,
        call_ensures(BandBuffer::window, (band,), corners),
        call_ensures(BandBuffer::row_slice, (band,), pixels),
        band@.holds(x, y),
    ensures
        corners.0 == (0u16, band.y0 as u16),
        corners.1.0 == 239,
        corners.1.1 - corners.0.1 + 1 == band.height,
        pixels@.len() == 240 * band.height,
        pixels@[(y - band.y0) * 240 + x] == band@.pixel(x, y),
{
}

} // verus!
