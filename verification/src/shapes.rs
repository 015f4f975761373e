//! The lines, discs and arcs of the gauge.
use vstd::prelude::*;

use crate::canvas;
use crate::canvas::{BandBuffer, BandView, Rgba, CENTER, SIZE};

verus! {

/// Lines of the grid.
#[verifier::allow_in_spec]
pub fn grid_colour() -> Rgba
    returns
        (Rgba { r: 22, g: 26, b: 32, a: 255 }),
{
    Rgba { r: 22, g: 26, b: 32, a: 255 }
}

/// The two middle lines of the grid and the ticks on them.
#[verifier::allow_in_spec]
pub fn center_grid_colour() -> Rgba
    returns
        (Rgba { r: 38, g: 43, b: 51, a: 255 }),
{
    Rgba { r: 38, g: 43, b: 51, a: 255 }
}

/// The part of an arc that no value reaches.
#[verifier::allow_in_spec]
pub fn track_colour() -> Rgba
    returns
        (Rgba { r: 24, g: 28, b: 35, a: 255 }),
{
    Rgba { r: 24, g: 28, b: 35, a: 255 }
}

/// Whether the middle of a pixel lies on the round display: no farther than 120 from the
/// display's middle.
pub open spec fn on_disc(x: int, y: int) -> bool {
    let dx = 2 * (x - CENTER) + 1;
    let dy = 2 * (y - CENTER) + 1;
    dx * dx + dy * dy <= 240 * 240
}

/// A vertical line between two rows, as far as it lies on the round display.
pub open spec fn vline(x: int, y0: int, y1: int, col: Rgba) -> spec_fn(int, int) -> Option<Rgba> {
    |px: int, py: int|
        if px == x && (y0 <= py <= y1 || y1 <= py <= y0) && on_disc(px, py) {
            Some(col)
        } else {
            None
        }
}

/// A horizontal line between two columns, as far as it lies on the round display.
pub open spec fn hline(x0: int, x1: int, y: int, col: Rgba) -> spec_fn(int, int) -> Option<Rgba> {
    |px: int, py: int|
        if py == y && (x0 <= px <= x1 || x1 <= px <= x0) && on_disc(px, py) {
            Some(col)
        } else {
            None
        }
}

/// Whether a shape has opaque colours only.
pub open spec fn opaque(shape: spec_fn(int, int) -> Option<Rgba>) -> bool {
    forall|x: int, y: int| (#[trigger] shape(x, y)) matches Some(c) ==> c.a == 255
}

/// One shape over another: where the upper one has a colour, it hides the lower one.
pub open spec fn over(
    upper: spec_fn(int, int) -> Option<Rgba>,
    lower: spec_fn(int, int) -> Option<Rgba>,
) -> spec_fn(int, int) -> Option<Rgba> {
    |x: int, y: int|
        if upper(x, y) is Some {
            upper(x, y)
        } else {
            lower(x, y)
        }
}

/// Drawing one shape and then an opaque one over it is drawing the two as one shape.
pub proof fn lemma_drawn_over<F: Fn(Rgba, Rgba) -> Rgba>(
    blend: F,
    first: BandView,
    lower: spec_fn(int, int) -> Option<Rgba>,
    second: BandView,
    upper: spec_fn(int, int) -> Option<Rgba>,
    third: BandView,
)
    requires
        canvas::drawn(blend, first, lower, second),
        canvas::drawn(blend, second, upper, third),
        opaque(upper),
    ensures
        canvas::drawn(blend, first, over(upper, lower), third),
{
    assert forall|x: int, y: int| #[trigger] first.holds(x, y) implies match over(upper, lower)(
        x,
        y,
    ) {
        Some(col) => canvas::painted(blend, first.pixel(x, y), col, third.pixel(x, y)),
        None => third.pixel(x, y) == first.pixel(x, y),
    } by {
        assert(second.holds(x, y));
        assert(upper(x, y) matches Some(c) ==> c.a == 255);
    }
}

/// Two shapes that agree on the band draw the same.
proof fn lemma_drawn_same<F: Fn(Rgba, Rgba) -> Rgba>(
    blend: F,
    first: BandView,
    one: spec_fn(int, int) -> Option<Rgba>,
    other: spec_fn(int, int) -> Option<Rgba>,
    second: BandView,
)
    requires
        canvas::drawn(blend, first, one, second),
        forall|x: int, y: int| #[trigger] first.holds(x, y) ==> one(x, y) == other(x, y),
    ensures
        canvas::drawn(blend, first, other, second),
{
}

/// Drawing two shapes that share no pixel one after the other is drawing them as one shape.
proof fn lemma_drawn_apart<F: Fn(Rgba, Rgba) -> Rgba>(
    blend: F,
    first: BandView,
    one: spec_fn(int, int) -> Option<Rgba>,
    second: BandView,
    other: spec_fn(int, int) -> Option<Rgba>,
    third: BandView,
    both: spec_fn(int, int) -> Option<Rgba>,
)
    requires
        canvas::drawn(blend, first, one, second),
        canvas::drawn(blend, second, other, third),
        forall|x: int, y: int| #[trigger]
            first.holds(x, y) ==> (one(x, y) is None || other(x, y) is None) && both(x, y) == (
            if other(x, y) is Some {
                other(x, y)
            } else {
                one(x, y)
            }),
    ensures
        canvas::drawn(blend, first, both, third),
{
    assert forall|x: int, y: int| #[trigger] first.holds(x, y) implies match both(x, y) {
        Some(col) => canvas::painted(blend, first.pixel(x, y), col, third.pixel(x, y)),
        None => third.pixel(x, y) == first.pixel(x, y),
    } by {
        assert(second.holds(x, y));
    }
}

/// A single pixel.
pub open spec fn dot(x: int, y: int, col: Rgba) -> spec_fn(int, int) -> Option<Rgba> {
    |px: int, py: int|
        if px == x && py == y {
            Some(col)
        } else {
            None
        }
}

/// The round display lies within the square one.
proof fn lemma_on_disc(x: int, y: int)
    requires
        on_disc(x, y),
    ensures
        0 <= x < SIZE,
        0 <= y < SIZE,
{
    let dx = 2 * (x - CENTER) + 1;
    let dy = 2 * (y - CENTER) + 1;
    assert(dx * dx >= 0) by (nonlinear_arith);
    assert(dy * dy >= 0) by (nonlinear_arith);
    assert(-240 <= dx <= 240) by (nonlinear_arith)
        requires
            dx * dx <= 57600,
    ;
    assert(-240 <= dy <= 240) by (nonlinear_arith)
        requires
            dy * dy <= 57600,
    ;
}

/// The pixels of a rectangle from one corner up to, but without, the other, as far as they lie
/// on the round display.
spec fn block(x0: int, y0: int, x1: int, y1: int, col: Rgba) -> spec_fn(int, int) -> Option<Rgba> {
    |px: int, py: int|
        if x0 <= px < x1 && y0 <= py < y1 && on_disc(px, py) {
            Some(col)
        } else {
            None
        }
}

/// Whether the middle of a pixel lies on the round display.
pub fn in_circle(x: i32, y: i32) -> (r: bool)
    ensures
        r == on_disc(x as int, y as int),
{
    let dx: i128 = 2 * (x as i128 - CENTER as i128) + 1;
    let dy: i128 = 2 * (y as i128 - CENTER as i128) + 1;
    assert(0 <= dx * dx <= 0x2_0000_0000 * 0x2_0000_0000) by (nonlinear_arith)
        requires
            -0x2_0000_0000 <= dx <= 0x2_0000_0000,
    ;
    assert(0 <= dy * dy <= 0x2_0000_0000 * 0x2_0000_0000) by (nonlinear_arith)
        requires
            -0x2_0000_0000 <= dy <= 0x2_0000_0000,
    ;
    dx * dx + dy * dy <= 240 * 240
}

/// Draws a vertical line between two rows, as far as it lies on the round display.
pub fn draw_vline<F: Fn(Rgba, Rgba) -> Rgba>(
    fb: &mut BandBuffer,
    x: i32,
    y0: i32,
    y1: i32,
    col: Rgba,
    blend: &F,
)
    requires
        canvas::drawable(old(fb)@),
        canvas::mixes(*blend),
    ensures
        canvas::drawn(
            *blend,
            old(fb)@,
            vline(x as int, y0 as int, y1 as int, col),
            final(fb)@,
        ),
{
    let top: i64 = if y0 < y1 { y0 as i64 } else { y1 as i64 };
    let bottom: i64 = if y0 < y1 { y1 as i64 } else { y0 as i64 };
    let first: i64 = if top < fb.y0 as i64 { fb.y0 as i64 } else { top };
    let end: i64 = fb.y0 as i64 + fb.height as i64;
    let last: i64 = if bottom < end { bottom + 1 } else { end };
    let mut row: i64 = first;
    while row < last
        invariant
            canvas::drawable(fb@),
            canvas::mixes(*blend),
            i32::MIN <= first <= i32::MAX,
            last <= i32::MAX + 1,
            first <= row,
            row <= last || row == first,
            fb.y0 <= first,
            last <= fb.y0 + fb.height,
            fb.y0 == old(fb).y0,
            canvas::drawn(
                *blend,
                old(fb)@,
                block(x as int, first as int, x + 1, row as int, col),
                fb@,
            ),
        decreases last - row,
    {
        let y: i32 = row as i32;
        let ghost before = fb@;
        if in_circle(x, y) {
            fb.set_rgba(x, y, col, blend);
            proof {
                lemma_drawn_apart(
                    *blend,
                    old(fb)@,
                    block(x as int, first as int, x + 1, y as int, col),
                    before,
                    dot(x as int, y as int, col),
                    fb@,
                    block(x as int, first as int, x + 1, y + 1, col),
                );
            }
        } else {
            proof {
                lemma_drawn_same(
                    *blend,
                    old(fb)@,
                    block(x as int, first as int, x + 1, y as int, col),
                    block(x as int, first as int, x + 1, y + 1, col),
                    fb@,
                );
            }
        }
        row += 1;
    }
    proof {
        lemma_drawn_same(
            *blend,
            old(fb)@,
            block(x as int, first as int, x + 1, row as int, col),
            vline(x as int, y0 as int, y1 as int, col),
            fb@,
        );
    }
}

/// Draws a horizontal line between two columns, as far as it lies on the round display.
pub fn draw_hline<F: Fn(Rgba, Rgba) -> Rgba>(
    fb: &mut BandBuffer,
    x0: i32,
    x1: i32,
    y: i32,
    col: Rgba,
    blend: &F,
)
    requires
        canvas::drawable(old(fb)@),
        canvas::mixes(*blend),
    ensures
        canvas::drawn(
            *blend,
            old(fb)@,
            hline(x0 as int, x1 as int, y as int, col),
            final(fb)@,
        ),
{
    if y < fb.y0 || y as i64 >= fb.y0 as i64 + fb.height as i64 {
        return;
    }
    let left: i32 = if x0 < x1 { x0 } else { x1 };
    let right: i32 = if x0 < x1 { x1 } else { x0 };
    let first: i32 = if left < 0 { 0 } else { left };
    let last: i32 = if right < SIZE as i32 { right } else { SIZE as i32 - 1 };
    let mut x: i32 = first;
    while x <= last
        invariant
            canvas::drawable(fb@),
            canvas::mixes(*blend),
            0 <= first <= x,
            x <= last + 1 || x == first,
            last < SIZE,
            0 <= y - fb.y0 < fb.height,
            fb.y0 == old(fb).y0,
            canvas::drawn(
                *blend,
                old(fb)@,
                block(first as int, y as int, x as int, y + 1, col),
                fb@,
            ),
        decreases last + 1 - x,
    {
        let ghost before = fb@;
        if in_circle(x, y) {
            fb.set_rgba(x, y, col, blend);
            proof {
                lemma_drawn_apart(
                    *blend,
                    old(fb)@,
                    block(first as int, y as int, x as int, y + 1, col),
                    before,
                    dot(x as int, y as int, col),
                    fb@,
                    block(first as int, y as int, x + 1, y + 1, col),
                );
            }
        } else {
            proof {
                lemma_drawn_same(
                    *blend,
                    old(fb)@,
                    block(first as int, y as int, x as int, y + 1, col),
                    block(first as int, y as int, x + 1, y + 1, col),
                    fb@,
                );
            }
        }
        x += 1;
    }
    proof {
        lemma_drawn_same(
            *blend,
            old(fb)@,
            block(first as int, y as int, x as int, y + 1, col),
            hline(x0 as int, x1 as int, y as int, col),
            fb@,
        );
    }
}

/// Whether a pixel belongs to one of the ticks, every five pixels along the middle row: five
/// pixels high on a line of the grid and three pixels high elsewhere.
pub open spec fn on_tick(x: int, y: int) -> bool {
    let reach = if x % 20 == 0 {
        2int
    } else {
        1int
    };
    10 <= x <= 230 && x % 5 == 0 && CENTER - reach <= y <= CENTER + reach
}

/// The grid: a line every twenty pixels both ways, with the middle lines and the ticks over it.
pub open spec fn grid() -> spec_fn(int, int) -> Option<Rgba> {
    |x: int, y: int|
        if !on_disc(x, y) {
            None
        } else if x == CENTER || y == CENTER || on_tick(x, y) {
            Some(center_grid_colour())
        } else if x % 20 == 0 || y % 20 == 0 {
            Some(grid_colour())
        } else {
            None
        }
}

/// The grid as far as it is drawn: the columns left of `x`, the rows above `y`, the first
/// `middle` middle lines, and the ticks left of `tick`.
spec fn grid_part(x: int, y: int, middle: int, tick: int) -> spec_fn(int, int) -> Option<Rgba> {
    |px: int, py: int|
        if !on_disc(px, py) {
            None
        } else if middle >= 1 && px == CENTER || middle >= 2 && py == CENTER || px < tick
            && on_tick(px, py) {
            Some(center_grid_colour())
        } else if px < x && px % 20 == 0 || py < y && py % 20 == 0 {
            Some(grid_colour())
        } else {
            None
        }
}

/// One more line over a part of the grid.
proof fn lemma_grid_grows<F: Fn(Rgba, Rgba) -> Rgba>(
    blend: F,
    first: BandView,
    part: spec_fn(int, int) -> Option<Rgba>,
    second: BandView,
    line: spec_fn(int, int) -> Option<Rgba>,
    third: BandView,
    grown: spec_fn(int, int) -> Option<Rgba>,
)
    requires
        canvas::drawn(blend, first, part, second),
        canvas::drawn(blend, second, line, third),
        opaque(line),
        forall|x: int, y: int|
            on_disc(x, y) ==> #[trigger] grown(x, y) == over(line, part)(x, y),
        forall|x: int, y: int|
            !on_disc(x, y) ==> #[trigger] grown(x, y) is None && line(x, y) is None && part(
                x,
                y,
            ) is None,
    ensures
        canvas::drawn(blend, first, grown, third),
{
    lemma_drawn_over(blend, first, part, second, line, third);
    assert forall|x: int, y: int| #[trigger] first.holds(x, y) implies over(line, part)(x, y)
        == grown(x, y) by {
        if on_disc(x, y) {
        } else {
            assert(grown(x, y) is None);
        }
    }
    lemma_drawn_same(blend, first, over(line, part), grown, third);
}

/// Draws the grid.
pub fn draw_grid<F: Fn(Rgba, Rgba) -> Rgba>(fb: &mut BandBuffer, blend: &F)
    requires
        canvas::drawable(old(fb)@),
        canvas::mixes(*blend),
    ensures
        canvas::drawn(*blend, old(fb)@, grid(), final(fb)@),
{
    proof {
        assert forall|x: int, y: int| on_disc(x, y) implies 0 <= x < SIZE && 0 <= y < SIZE by {
            lemma_on_disc(x, y);
        }
    }
    let mut x: i32 = 0;
    while x < SIZE as i32
        invariant
            canvas::drawable(fb@),
            canvas::mixes(*blend),
            0 <= x <= 240,
            x % 20 == 0,
            forall|x: int, y: int| on_disc(x, y) ==> 0 <= x < SIZE && 0 <= y < SIZE,
            canvas::drawn(*blend, old(fb)@, grid_part(x as int, 0, 0, 0), fb@),
        decreases 240 - x,
    {
        let ghost before = fb@;
        draw_vline(fb, x, 0, SIZE as i32 - 1, grid_colour(), blend);
        proof {
            lemma_grid_grows(
                *blend,
                old(fb)@,
                grid_part(x as int, 0, 0, 0),
                before,
                vline(x as int, 0, 239, grid_colour()),
                fb@,
                grid_part(x + 20, 0, 0, 0),
            );
        }
        x += 20;
    }
    let mut y: i32 = 0;
    while y < SIZE as i32
        invariant
            canvas::drawable(fb@),
            canvas::mixes(*blend),
            0 <= y <= 240,
            y % 20 == 0,
            forall|x: int, y: int| on_disc(x, y) ==> 0 <= x < SIZE && 0 <= y < SIZE,
            canvas::drawn(*blend, old(fb)@, grid_part(240, y as int, 0, 0), fb@),
        decreases 240 - y,
    {
        let ghost before = fb@;
        draw_hline(fb, 0, SIZE as i32 - 1, y, grid_colour(), blend);
        proof {
            lemma_grid_grows(
                *blend,
                old(fb)@,
                grid_part(240, y as int, 0, 0),
                before,
                hline(0, 239, y as int, grid_colour()),
                fb@,
                grid_part(240, y + 20, 0, 0),
            );
        }
        y += 20;
    }
    let ghost before = fb@;
    draw_vline(fb, CENTER, 0, SIZE as i32 - 1, center_grid_colour(), blend);
    proof {
        lemma_grid_grows(
            *blend,
            old(fb)@,
            grid_part(240, 240, 0, 0),
            before,
            vline(CENTER as int, 0, 239, center_grid_colour()),
            fb@,
            grid_part(240, 240, 1, 0),
        );
    }
    let ghost before = fb@;
    draw_hline(fb, 0, SIZE as i32 - 1, CENTER, center_grid_colour(), blend);
    proof {
        lemma_grid_grows(
            *blend,
            old(fb)@,
            grid_part(240, 240, 1, 0),
            before,
            hline(0, 239, CENTER as int, center_grid_colour()),
            fb@,
            grid_part(240, 240, 2, 0),
        );
        lemma_drawn_same(
            *blend,
            old(fb)@,
            grid_part(240, 240, 2, 0),
            grid_part(240, 240, 2, 10),
            fb@,
        );
    }
    let mut x: i32 = CENTER - 110;
    while x <= CENTER + 110
        invariant
            canvas::drawable(fb@),
            canvas::mixes(*blend),
            10 <= x <= 235,
            x % 5 == 0,
            forall|x: int, y: int| on_disc(x, y) ==> 0 <= x < SIZE && 0 <= y < SIZE,
            canvas::drawn(*blend, old(fb)@, grid_part(240, 240, 2, x as int), fb@),
        decreases 235 - x,
    {
        let ghost before = fb@;
        let reach: i32 = if x % 20 == 0 { 2 } else { 1 };
        draw_vline(fb, x, CENTER - reach, CENTER + reach, center_grid_colour(), blend);
        proof {
            lemma_grid_grows(
                *blend,
                old(fb)@,
                grid_part(240, 240, 2, x as int),
                before,
                vline(x as int, CENTER - reach, CENTER + reach, center_grid_colour()),
                fb@,
                grid_part(240, 240, 2, x + 5),
            );
        }
        x += 5;
    }
    proof {
        lemma_drawn_same(*blend, old(fb)@, grid_part(240, 240, 2, x as int), grid(), fb@);
    }
}

/// Whether a step `k` is no more than `a` times the part of a pixel that a disc covers. The
/// pixel's distance from the disc's middle is the root of `d2`; what is covered of it is
/// `r + 1/2` less that distance.
pub open spec fn reaches(a: int, r: int, d2: int, k: int) -> bool {
    let whole = a * (2 * r + 1);
    2 * k <= whole && 4 * (a * a) * d2 <= (whole - 2 * k) * (whole - 2 * k)
}

/// The opacity of a pixel on the rim of a disc: the largest step up to `k` that is reached.
pub open spec fn coverage(a: int, r: int, d2: int, k: int) -> int
    decreases k,
{
    if k <= 0 {
        0
    } else if reaches(a, r, d2, k) {
        k
    } else {
        coverage(a, r, d2, k - 1)
    }
}

/// A filled disc with a smooth rim: full inside of `radius - 1/2`, nothing from
/// `radius + 1/2` on, and as opaque in between as the pixel is covered.
pub open spec fn disc(cx: int, cy: int, radius: int, col: Rgba) -> spec_fn(int, int) -> Option<
    Rgba,
> {
    |x: int, y: int|
        {
            let d2 = (x - cx) * (x - cx) + (y - cy) * (y - cy);
            if radius < 0 || 4 * d2 >= (2 * radius + 1) * (2 * radius + 1) {
                None
            } else if radius > 0 && 4 * d2 <= (2 * radius - 1) * (2 * radius - 1) {
                Some(col)
            } else {
                Some(Rgba { a: coverage(col.a as int, radius, d2, col.a as int) as u8, ..col })
            }
        }
}

/// What reaches a step reaches each smaller one.
proof fn lemma_reaches_less(a: int, r: int, d2: int, j: int, k: int)
    requires
        reaches(a, r, d2, k),
        0 <= j <= k,
    ensures
        reaches(a, r, d2, j),
{
    let whole = a * (2 * r + 1);
    assert((whole - 2 * k) * (whole - 2 * k) <= (whole - 2 * j) * (whole - 2 * j))
        by (nonlinear_arith)
        requires
            0 <= j <= k,
            2 * k <= whole,
    ;
}

/// The coverage is the one step that is reached while the next is not.
proof fn lemma_coverage(a: int, r: int, d2: int, k: int, top: int)
    requires
        0 <= k <= top,
        k == 0 || reaches(a, r, d2, k),
        k == top || !reaches(a, r, d2, k + 1),
    ensures
        coverage(a, r, d2, top) == k,
    decreases top,
{
    if top > k {
        if reaches(a, r, d2, top) {
            lemma_reaches_less(a, r, d2, k + 1, top);
        }
        lemma_coverage(a, r, d2, k, top - 1);
    }
}

/// The opacity of a pixel on the rim of a disc. Up to a radius of nine it is what single-precision
/// arithmetic gives; beyond that, rounding may keep such arithmetic a step away from it.
pub fn rim_opacity(a: u8, radius: i32, d2: u64) -> (k: u8)
    requires
        0 <= radius,
    ensures
        k == coverage(a as int, radius as int, d2 as int, a as int),
{
    assert(0 <= a * (2 * radius + 1) <= 255 * 0x1_0000_0000) by (nonlinear_arith)
        requires
            0 <= a <= 255,
            0 <= radius < 0x8000_0000,
    ;
    let whole: i128 = a as i128 * (2 * radius as i128 + 1);
    assert(0 <= a * a <= 65025) by (nonlinear_arith)
        requires
            0 <= a <= 255,
    ;
    let square: i128 = a as i128 * a as i128;
    assert(0 <= 4 * square * d2 <= 4 * 65025 * 0x1_0000_0000_0000_0000) by (nonlinear_arith)
        requires
            0 <= square <= 65025,
            0 <= d2 < 0x1_0000_0000_0000_0000,
    ;
    let bound: i128 = 4 * square * d2 as i128;
    let mut low: u8 = 0;
    let mut high: u8 = a;
    while low < high
        invariant
            low <= high <= a,
            whole == a * (2 * radius + 1),
            0 <= whole <= 255 * 0x1_0000_0000,
            square == a * a,
            bound == 4 * square * d2,
            low == 0 || reaches(a as int, radius as int, d2 as int, low as int),
            high == a || !reaches(a as int, radius as int, d2 as int, high + 1),
        decreases high - low,
    {
        let mid: u8 = high - (high - low) / 2;
        let rest: i128 = whole - 2 * mid as i128;
        assert(0 <= rest * rest <= 0x100_0000_0000 * 0x100_0000_0000) by (nonlinear_arith)
            requires
                -510 <= rest <= 0x100_0000_0000,
        ;
        if rest >= 0 && bound <= rest * rest {
            low = mid;
        } else {
            high = mid - 1;
        }
    }
    proof {
        lemma_coverage(a as int, radius as int, d2 as int, low as int, a as int);
    }
    low
}

/// The part of a shape in the rows above `y` and, in that row, left of `x`.
spec fn so_far(
    shape: spec_fn(int, int) -> Option<Rgba>,
    x: int,
    y: int,
) -> spec_fn(int, int) -> Option<Rgba> {
    |px: int, py: int|
        if py < y || py == y && px < x {
            shape(px, py)
        } else {
            None
        }
}

/// A disc has no pixel beyond the square around it.
proof fn lemma_disc_bounds(cx: int, cy: int, radius: int, col: Rgba, x: int, y: int)
    requires
        disc(cx, cy, radius, col)(x, y) is Some,
    ensures
        cx - radius - 1 <= x <= cx + radius + 1,
        cy - radius - 1 <= y <= cy + radius + 1,
{
    let dx = x - cx;
    let dy = y - cy;
    assert(-(radius + 1) <= dx <= radius + 1 && -(radius + 1) <= dy <= radius + 1)
        by (nonlinear_arith)
        requires
            4 * (dx * dx + dy * dy) < (2 * radius + 1) * (2 * radius + 1),
            0 <= radius,
    ;
}

/// Whether there is room for a disc around a point.
pub open spec fn roomy(x: int, y: int, radius: int) -> bool {
    radius >= 0 ==> {
        let r = radius + 1;
        i32::MIN + r <= x <= i32::MAX - r && i32::MIN + r <= y <= i32::MAX - r
    }
}

/// Draws a filled disc with a smooth rim; one with a negative radius is nothing.
pub fn fill_circle<F: Fn(Rgba, Rgba) -> Rgba>(
    fb: &mut BandBuffer,
    cx: i32,
    cy: i32,
    radius: i32,
    col: Rgba,
    blend: &F,
)
    requires
        canvas::drawable(old(fb)@),
        canvas::mixes(*blend),
        roomy(cx as int, cy as int, radius as int),
    ensures
        canvas::drawn(
            *blend,
            old(fb)@,
            disc(cx as int, cy as int, radius as int, col),
            final(fb)@,
        ),
{
    let ghost shape = disc(cx as int, cy as int, radius as int, col);
    proof {
        assert forall|x: int, y: int| (#[trigger] shape(x, y)) is Some implies cx - radius - 1 <= x
            <= cx + radius + 1 && cy - radius - 1 <= y <= cy + radius + 1 by {
            lemma_disc_bounds(cx as int, cy as int, radius as int, col, x, y);
        }
    }
    if radius < 0 {
        return;
    }
    let left: i32 = if cx - radius - 1 < 0 { 0 } else { cx - radius - 1 };
    let right: i32 = if cx + radius + 1 < SIZE as i32 { cx + radius + 1 } else { SIZE as i32 - 1 };
    let top: i64 = if cy - radius - 1 < fb.y0 { fb.y0 as i64 } else { (cy - radius - 1) as i64 };
    let end: i64 = fb.y0 as i64 + fb.height as i64;
    let reach: i64 = (cy + radius + 1) as i64;
    let bottom: i64 = if reach < end { reach + 1 } else { end };
    let wide: i128 = 2 * radius as i128 + 1;
    let narrow: i128 = 2 * radius as i128 - 1;
    assert(0 <= wide * wide <= 0x1_0000_0000 * 0x1_0000_0000) by (nonlinear_arith)
        requires
            0 <= wide <= 0x1_0000_0000,
    ;
    assert(0 <= narrow * narrow <= 0x1_0000_0000 * 0x1_0000_0000) by (nonlinear_arith)
        requires
            -1 <= narrow <= 0x1_0000_0000,
    ;
    let outer: i128 = wide * wide;
    let inner: i128 = narrow * narrow;
    let mut row: i64 = top;
    proof {
        lemma_drawn_same(
            *blend,
            old(fb)@,
            |x: int, y: int| None,
            so_far(shape, left as int, row as int),
            fb@,
        );
    }
    while row < bottom
        invariant
            canvas::drawable(fb@),
            canvas::mixes(*blend),
            shape == disc(cx as int, cy as int, radius as int, col),
            forall|x: int, y: int|
                (#[trigger] shape(x, y)) is Some ==> cx - radius - 1 <= x <= cx + radius + 1 && cy
                    - radius - 1 <= y <= cy + radius + 1,
            left == (if cx - radius - 1 < 0 {
                0
            } else {
                cx - radius - 1
            }),
            right == (if cx + radius + 1 < SIZE {
                cx + radius + 1
            } else {
                SIZE - 1
            }),
            0 <= radius,
            i32::MIN <= cx - radius - 1,
            cx + radius + 1 <= i32::MAX,
            i32::MIN <= cy - radius - 1,
            cy + radius + 1 <= i32::MAX,
            cy - radius - 1 <= top,
            bottom <= cy + radius + 2,
            fb.y0 <= top,
            bottom <= fb.y0 + fb.height,
            top <= row,
            row <= bottom || row == top,
            fb.y0 == old(fb).y0,
            fb.height == old(fb).height,
            outer == (2 * radius + 1) * (2 * radius + 1),
            inner == (2 * radius - 1) * (2 * radius - 1),
            canvas::drawn(
                *blend,
                old(fb)@,
                so_far(shape, left as int, row as int),
                fb@,
            ),
        decreases bottom - row,
    {
        let y: i32 = row as i32;
        let mut x: i32 = left;
        while x <= right
            invariant
                canvas::drawable(fb@),
                canvas::mixes(*blend),
                shape == disc(cx as int, cy as int, radius as int, col),
                0 <= left,
                right < SIZE,
                cx - radius - 1 <= left,
                right <= cx + radius + 1,
                i32::MIN <= cx - radius - 1,
                cx + radius + 1 <= i32::MAX,
                i32::MIN <= cy - radius - 1,
                cy + radius + 1 <= i32::MAX,
                0 <= radius,
                cy - radius - 1 <= y <= cy + radius + 1,
                0 <= y - fb.y0 < fb.height,
                left <= x,
                x <= right + 1 || x == left,
                fb.y0 == old(fb).y0,
                fb.height == old(fb).height,
                outer == (2 * radius + 1) * (2 * radius + 1),
                inner == (2 * radius - 1) * (2 * radius - 1),
                    canvas::drawn(*blend, old(fb)@, so_far(shape, x as int, y as int), fb@),
            decreases right + 1 - x,
        {
            let ghost before = fb@;
            let dx: i128 = x as i128 - cx as i128;
            let dy: i128 = y as i128 - cy as i128;
            assert(0 <= dx * dx <= 0x8000_0000 * 0x8000_0000) by (nonlinear_arith)
                requires
                    -0x8000_0000 <= dx <= 0x8000_0000,
            ;
            assert(0 <= dy * dy <= 0x8000_0000 * 0x8000_0000) by (nonlinear_arith)
                requires
                    -0x8000_0000 <= dy <= 0x8000_0000,
            ;
            let d2: i128 = dx * dx + dy * dy;
            if 4 * d2 >= outer {
                proof {
                    lemma_drawn_same(
                        *blend,
                        old(fb)@,
                        so_far(shape, x as int, y as int),
                        so_far(shape, x + 1, y as int),
                        fb@,
                    );
                }
            } else {
                let c = if radius > 0 && 4 * d2 <= inner {
                    col
                } else {
                    Rgba { r: col.r, g: col.g, b: col.b, a: rim_opacity(col.a, radius, d2 as u64) }
                };
                fb.set_rgba(x, y, c, blend);
                proof {
                    assert(shape(x as int, y as int) == Some(c));
                    lemma_drawn_apart(
                        *blend,
                        old(fb)@,
                        so_far(shape, x as int, y as int),
                        before,
                        dot(x as int, y as int, c),
                        fb@,
                        so_far(shape, x + 1, y as int),
                    );
                }
            }
            x += 1;
        }
        proof {
            lemma_drawn_same(
                *blend,
                old(fb)@,
                so_far(shape, x as int, y as int),
                so_far(shape, left as int, y + 1),
                fb@,
            );
        }
        row += 1;
    }
    proof {
        lemma_drawn_same(*blend, old(fb)@, so_far(shape, left as int, row as int), shape, fb@);
    }
}

/// Whether there is room for a disc around every point.
pub open spec fn near(points: Seq<(i32, i32)>, radius: int) -> bool {
    forall|i: int|
        0 <= i < points.len() ==> roomy(
            (#[trigger] points[i]).0 as int,
            points[i].1 as int,
            radius,
        )
}

/// Whether `after` is `before` with a disc drawn at each of the points, in turn.
pub open spec fn strung<F: Fn(Rgba, Rgba) -> Rgba>(
    blend: F,
    before: BandView,
    points: Seq<(i32, i32)>,
    radius: int,
    col: Rgba,
    after: BandView,
) -> bool
    decreases points.len(),
{
    if points.len() == 0 {
        after == before
    } else {
        let (x, y) = points.last();
        exists|between: BandView|
            {
                &&& strung(blend, before, points.drop_last(), radius, col, between)
                &&& #[trigger] canvas::drawn(
                    blend,
                    between,
                    disc(x as int, y as int, radius, col),
                    after,
                )
            }
    }
}

/// Draws an arc: a disc at each of its points.
pub fn draw_arc<F: Fn(Rgba, Rgba) -> Rgba>(
    fb: &mut BandBuffer,
    points: &[(i32, i32)],
    radius: i32,
    col: Rgba,
    blend: &F,
)
    requires
        canvas::drawable(old(fb)@),
        canvas::mixes(*blend),
        near(points@, radius as int),
    ensures
        strung(*blend, old(fb)@, points@, radius as int, col, final(fb)@),
        canvas::drawable(final(fb)@),
        final(fb)@.y0 == old(fb)@.y0,
        final(fb)@.height == old(fb)@.height,
{
    let mut k: usize = 0;
    assert(points@.take(0) =~= Seq::empty());
    while k < points.len()
        invariant
            canvas::drawable(fb@),
            canvas::mixes(*blend),
            near(points@, radius as int),
            k <= points@.len(),
            fb@.y0 == old(fb)@.y0,
            fb@.height == old(fb)@.height,
            strung(*blend, old(fb)@, points@.take(k as int), radius as int, col, fb@),
        decreases points@.len() - k,
    {
        let ghost between = fb@;
        let (x, y) = points[k];
        fill_circle(fb, x, y, radius, col, blend);
        proof {
            let more = points@.take(k + 1);
            assert(more.drop_last() =~= points@.take(k as int));
            assert(more.last() == (x, y));
            assert(strung(*blend, old(fb)@, more.drop_last(), radius as int, col, between));
            assert(canvas::drawn(
                *blend,
                between,
                disc(more.last().0 as int, more.last().1 as int, radius as int, col),
                fb@,
            ));
            assert(strung(*blend, old(fb)@, more, radius as int, col, fb@));
        }
        k += 1;
    }
    assert(points@.take(k as int) =~= points@);
}

/// Radius of the discs that the track of a dial is made of.
pub const TRACK_RADIUS: i32 = 2;

/// Radius of the discs that the value of a dial is made of.
pub const VALUE_RADIUS: i32 = 3;

/// Whether `after` is `before` with the track of a dial and then its value drawn over it.
pub open spec fn dialled<F: Fn(Rgba, Rgba) -> Rgba>(
    blend: F,
    before: BandView,
    track: Seq<(i32, i32)>,
    value: Seq<(i32, i32)>,
    accent: Rgba,
    after: BandView,
) -> bool {
    exists|between: BandView|
        {
            &&& #[trigger] strung(
                blend,
                before,
                track,
                TRACK_RADIUS as int,
                track_colour(),
                between,
            )
            &&& strung(blend, between, value, VALUE_RADIUS as int, accent, after)
        }
}

/// Draws a dial: its track and, over it, the arc that its value reaches.
pub fn draw_gauge_arc<F: Fn(Rgba, Rgba) -> Rgba>(
    fb: &mut BandBuffer,
    track: &[(i32, i32)],
    value: &[(i32, i32)],
    accent: Rgba,
    blend: &F,
)
    requires
        canvas::drawable(old(fb)@),
        canvas::mixes(*blend),
        near(track@, TRACK_RADIUS as int),
        near(value@, VALUE_RADIUS as int),
    ensures
        dialled(*blend, old(fb)@, track@, value@, accent, final(fb)@),
        canvas::drawable(final(fb)@),
        final(fb)@.y0 == old(fb)@.y0,
        final(fb)@.height == old(fb)@.height,
{
    draw_arc(fb, track, TRACK_RADIUS, track_colour(), blend);
    let ghost between = fb@;
    draw_arc(fb, value, VALUE_RADIUS, accent, blend);
    assert(strung(*blend, old(fb)@, track@, TRACK_RADIUS as int, track_colour(), between));
}

/// What an arc leaves is fixed by what was there.
proof fn lemma_strung_once<F: Fn(Rgba, Rgba) -> Rgba>(
    blend: F,
    before: BandView,
    points: Seq<(i32, i32)>,
    radius: int,
    col: Rgba,
    one: BandView,
    other: BandView,
)
    requires
        canvas::mixes(blend),
        strung(blend, before, points, radius, col, one),
        strung(blend, before, points, radius, col, other),
    ensures
        one == other,
    decreases points.len(),
{
    if points.len() > 0 {
        let (x, y) = points.last();
        let shape = disc(x as int, y as int, radius, col);
        let most = points.drop_last();
        let p = choose|b: BandView|
            strung(blend, before, most, radius, col, b) && #[trigger] canvas::drawn(
                blend,
                b,
                shape,
                one,
            );
        let q = choose|b: BandView|
            strung(blend, before, most, radius, col, b) && #[trigger] canvas::drawn(
                blend,
                b,
                shape,
                other,
            );
        lemma_strung_once(blend, before, most, radius, col, p, q);
        canvas::lemma_drawn_once(blend, p, shape, one, other);
    }
}

/// What a dial leaves is fixed by what was there.
pub proof fn lemma_dialled_once<F: Fn(Rgba, Rgba) -> Rgba>(
    blend: F,
    before: BandView,
    track: Seq<(i32, i32)>,
    value: Seq<(i32, i32)>,
    accent: Rgba,
    one: BandView,
    other: BandView,
)
    requires
        canvas::mixes(blend),
        dialled(blend, before, track, value, accent, one),
        dialled(blend, before, track, value, accent, other),
    ensures
        one == other,
{
    let r = TRACK_RADIUS as int;
    let p = choose|b: BandView|
        #[trigger] strung(blend, before, track, r, track_colour(), b) && strung(
            blend,
            b,
            value,
            VALUE_RADIUS as int,
            accent,
            one,
        );
    let q = choose|b: BandView|
        #[trigger] strung(blend, before, track, r, track_colour(), b) && strung(
            blend,
            b,
            value,
            VALUE_RADIUS as int,
            accent,
            other,
        );
    lemma_strung_once(blend, before, track, r, track_colour(), p, q);
    lemma_strung_once(blend, p, value, VALUE_RADIUS as int, accent, one, other);
}

/// The round display: the pixels whose middle is no farther from that of the display than 120, the
/// same in all four quarters and both ways. What is nearer to an axis than a pixel of the display
/// is on it too.
#[verifier::spinoff_prover]
pub proof fn lemma_round(x: i32, y: i32, r: bool, nearer: int)
    requires
        call_ensures(in_circle, (x, y), r),
    ensures
        r == on_disc(x as int, y as int),
        r <==> (2 * x - 239) * (2 * x - 239) + (2 * y - 239) * (2 * y - 239) <= 57600,
        r == on_disc(239 - x, y as int),
        r == on_disc(x as int, 239 - y),
        r == on_disc(y as int, x as int),
        r && (x <= nearer <= 239 - x || 239 - x <= nearer <= x) ==> on_disc(nearer, y as int),
{
    let dx = 2 * x - 239;
    let dy = 2 * y - 239;
    assert((-dx) * (-dx) == dx * dx) by (nonlinear_arith);
    assert((-dy) * (-dy) == dy * dy) by (nonlinear_arith);
    assert(2 * ((239 - x) - CENTER) + 1 == -dx);
    assert(2 * ((239 - y) - CENTER) + 1 == -dy);
    if r && (x <= nearer <= 239 - x || 239 - x <= nearer <= x) {
        let d = 2 * nearer - 239;
        assert(d * d <= dx * dx) by (nonlinear_arith)
            requires
                -dx <= d <= dx || dx <= d <= -dx,
        ;
        assert(2 * (nearer - CENTER) + 1 == d);
    }
}

/// A line has one colour, lies in its column or row, reaches from one end to the other, both
/// included and in either order, and is not drawn beyond the round display.
pub proof fn lemma_line_pixels(at: int, from: int, to: int, col: Rgba, x: int, y: int)
    ensures
        vline(at, from, to, col)(x, y) == vline(at, to, from, col)(x, y),
        hline(from, to, at, col)(x, y) == hline(to, from, at, col)(x, y),
        hline(from, to, at, col)(y, x) == vline(at, from, to, col)(x, y),
        vline(at, from, to, col)(x, y) is None || vline(at, from, to, col)(x, y) == Some(col),
        from <= to ==> (vline(at, from, to, col)(x, y) is Some <==> x == at && from <= y <= to
            && on_disc(x, y)),
{
}

/// The grid: on the round display, the middle column and the middle row are drawn in one colour,
/// and so are the ticks across that row, every five pixels from 10 to 230, one pixel up and down
/// and two on a line of the grid. Every twentieth column and row else has the other colour, and
/// nothing more is drawn.
#[verifier::spinoff_prover]
pub proof fn lemma_grid(x: int, y: int)
    ensures
        ({
            let middle = Some(Rgba { r: 38, g: 43, b: 51, a: 255 });
            let other = Some(Rgba { r: 22, g: 26, b: 32, a: 255 });
            let c = grid()(x, y);
            &&& !on_disc(x, y) ==> c is None
            &&& on_disc(x, y) && (x == 120 || y == 120) ==> c == middle
            &&& on_disc(x, y) && 10 <= x <= 230 && x % 5 == 0 && 119 <= y <= 121 ==> c == middle
            &&& on_disc(x, y) && 10 <= x <= 230 && x % 20 == 0 && 118 <= y <= 122 ==> c == middle
            &&& on_disc(x, y) && x != 120 && (y < 118 || y > 122) && (x % 20 == 0 || y % 20 == 0)
                ==> c == other
            &&& x % 20 != 0 && y % 20 != 0 && (y < 119 || y > 121 || x % 5 != 0) ==> c is None
            &&& on_disc(x, y) && y != 120 && x % 5 != 0 ==> (c is Some <==> y % 20 == 0)
            &&& c == middle ==> x == 120 || 118 <= y <= 122
            &&& c == middle && x != 120 && y != 120 ==> x % 5 == 0 && 10 <= x <= 230
            &&& c == middle && x != 120 && (y == 118 || y == 122) ==> x % 20 == 0
        }),
{
    let fifth = x % 5 == 0;
    let column = x % 20 == 0;
    let row = y % 20 == 0;
    assert(column ==> fifth);
    assert(118 <= y <= 122 ==> (row <==> y == 120));
    assert(x == 120 ==> column);
    lemma_grid_pixel(x, y, on_disc(x, y), fifth, column, row, grid()(x, y));
}

/// What the grid has at a pixel, by where it stands.
#[verifier::spinoff_prover]
proof fn lemma_grid_pixel(
    x: int,
    y: int,
    on: bool,
    fifth: bool,
    column: bool,
    row: bool,
    c: Option<Rgba>,
)
    requires
        column ==> fifth,
        118 <= y <= 122 ==> (row <==> y == 120),
        x == 120 ==> column,
        c == (if !on {
            None
        } else if x == 120 || y == 120 || (10 <= x <= 230 && fifth && (119 <= y <= 121 || (column
            && 118 <= y <= 122))) {
            Some(center_grid_colour())
        } else if column || row {
            Some(grid_colour())
        } else {
            None
        }),
    ensures
        ({
            let middle = Some(Rgba { r: 38, g: 43, b: 51, a: 255 });
            let other = Some(Rgba { r: 22, g: 26, b: 32, a: 255 });
            &&& !on ==> c is None
            &&& on && (x == 120 || y == 120) ==> c == middle
            &&& on && 10 <= x <= 230 && fifth && 119 <= y <= 121 ==> c == middle
            &&& on && 10 <= x <= 230 && column && 118 <= y <= 122 ==> c == middle
            &&& on && x != 120 && (y < 118 || y > 122) && (column || row)
                ==> c == other
            &&& !column && !row && (y < 119 || y > 121 || !fifth) ==> c is None
            &&& on && y != 120 && !fifth ==> (c is Some <==> row)
            &&& c == middle ==> x == 120 || 118 <= y <= 122
            &&& c == middle && x != 120 && y != 120 ==> fifth && 10 <= x <= 230
            &&& c == middle && x != 120 && (y == 118 || y == 122) ==> column
        }),
{
}

/// The opacity of a pixel on the rim of a disc: the largest number up to that of the colour which
/// is no more than what the disc covers of the pixel. The pixel's distance from the middle is the
/// root of `d2`, and what is covered is a half more than the radius, less that distance.
pub proof fn lemma_rim_opacity(a: u8, radius: i32, d2: u64, k: u8)
    requires
        0 <= radius,
        call_ensures(rim_opacity, (a, radius, d2), k),
    ensures
        ({
            let whole = a * (2 * radius + 1);
            let here = whole - 2 * k;
            let next = whole - 2 * (k + 1);
            &&& k <= a
            &&& k > 0 ==> here >= 0 && 4 * (a * a) * d2 <= here * here
            &&& k < a ==> next < 0 || 4 * (a * a) * d2 > next * next
        }),
{
    lemma_coverage_is_largest(a as int, radius as int, d2 as int, a as int);
}

/// The coverage is reached, and the next step is not.
proof fn lemma_coverage_is_largest(a: int, r: int, d2: int, top: int)
    requires
        0 <= top,
    ensures
        0 <= coverage(a, r, d2, top) <= top,
        coverage(a, r, d2, top) > 0 ==> reaches(a, r, d2, coverage(a, r, d2, top)),
        coverage(a, r, d2, top) < top ==> !reaches(a, r, d2, coverage(a, r, d2, top) + 1),
    decreases top,
{
    if top > 0 && !reaches(a, r, d2, top) {
        lemma_coverage_is_largest(a, r, d2, top - 1);
    }
}

/// A disc: at a distance of half a pixel less than the radius, and nearer, it has its colour, from
/// half a pixel beyond the radius on it has none, and in between it has its colour with less
/// opacity, that of the rim. It is the same on all sides and wherever it stands.
pub proof fn lemma_disc(cx: int, cy: int, radius: int, col: Rgba, dx: int, dy: int, k: u8)
    requires
        radius >= 0 ==> radius <= i32::MAX && 0 <= dx * dx + dy * dy <= u64::MAX && call_ensures(
            rim_opacity,
            (col.a, radius as i32, (dx * dx + dy * dy) as u64),
            k,
        ),
    ensures
        ({
            let d2 = dx * dx + dy * dy;
            let c = disc(cx, cy, radius, col)(cx + dx, cy + dy);
            let outer = (2 * radius + 1) * (2 * radius + 1);
            let inner = (2 * radius - 1) * (2 * radius - 1);
            &&& radius < 0 ==> c is None
            &&& radius >= 0 && 4 * d2 >= outer ==> c is None
            &&& radius > 0 && 4 * d2 <= inner ==> c == Some(col)
            &&& radius >= 0 && 4 * d2 < outer && (radius == 0 || 4 * d2 > inner) ==> c == Some(
                Rgba { r: col.r, g: col.g, b: col.b, a: k },
            )
            &&& c == disc(cx, cy, radius, col)(cx - dx, cy + dy)
            &&& c == disc(cx, cy, radius, col)(cx + dx, cy - dy)
            &&& c == disc(cx, cy, radius, col)(cx + dy, cy + dx)
            &&& c == disc(0, 0, radius, col)(dx, dy)
        }),
{
    lemma_offset_squared(cx, dx);
    lemma_offset_squared(cy, dy);
    lemma_offset_squared(cx, dy);
    lemma_offset_squared(cy, dx);
    lemma_offset_squared(0, dx);
    lemma_offset_squared(0, dy);
    assert(radius > 0 ==> (2 * radius - 1) * (2 * radius - 1) < (2 * radius + 1) * (2 * radius
        + 1)) by (nonlinear_arith);
}

/// An offset to either side is as far away.
proof fn lemma_offset_squared(c: int, d: int)
    ensures
        ((c + d) - c) * ((c + d) - c) == d * d,
        ((c - d) - c) * ((c - d) - c) == d * d,
        (d - 0) * (d - 0) == d * d,
{
    assert(((c + d) - c) * ((c + d) - c) == d * d) by (nonlinear_arith);
    assert(((c - d) - c) * ((c - d) - c) == d * d) by (nonlinear_arith);
}

/// An arc is drawn point by point: one point more is a disc more over what is there.
pub proof fn lemma_arc_grows<F: Fn(Rgba, Rgba) -> Rgba>(
    blend: F,
    before: BandView,
    points: Seq<(i32, i32)>,
    x: i32,
    y: i32,
    radius: int,
    col: Rgba,
    between: BandView,
    after: BandView,
)
    requires
        canvas::mixes(blend),
        strung(blend, before, points, radius, col, between),
    ensures
        strung(blend, before, points.push((x, y)), radius, col, after) <==> canvas::drawn(
            blend,
            between,
            disc(x as int, y as int, radius, col),
            after,
        ),
        strung(blend, before, Seq::empty(), radius, col, after) <==> after == before,
{
    let more = points.push((x, y));
    let shape = disc(x as int, y as int, radius, col);
    assert(more.drop_last() =~= points);
    if strung(blend, before, more, radius, col, after) {
        let b = choose|b: BandView|
            strung(blend, before, more.drop_last(), radius, col, b) && #[trigger] canvas::drawn(
                blend,
                b,
                shape,
                after,
            );
        lemma_strung_once(blend, before, points, radius, col, b, between);
    }
    if canvas::drawn(blend, between, shape, after) {
        assert(more.last() == (x, y));
        assert(strung(blend, before, more.drop_last(), radius, col, between));
        assert(canvas::drawn(
            blend,
            between,
            disc(more.last().0 as int, more.last().1 as int, radius, col),
            after,
        ));
    }
}

/// A dial is its track, in discs of radius two and the colour of tracks, and over it the arc of its
/// value, in discs of radius three and its own colour.
pub proof fn lemma_dial<F: Fn(Rgba, Rgba) -> Rgba>(
    blend: F,
    before: BandView,
    track: Seq<(i32, i32)>,
    value: Seq<(i32, i32)>,
    accent: Rgba,
    between: BandView,
    after: BandView,
)
    requires
        canvas::mixes(blend),
        strung(blend, before, track, 2, Rgba { r: 24, g: 28, b: 35, a: 255 }, between),
    ensures
        dialled(blend, before, track, value, accent, after) <==> strung(
            blend,
            between,
            value,
            3,
            accent,
            after,
        ),
{
    if dialled(blend, before, track, value, accent, after) {
        let b = choose|b: BandView|
            #[trigger] strung(blend, before, track, TRACK_RADIUS as int, track_colour(), b)
                && strung(blend, b, value, VALUE_RADIUS as int, accent, after);
        lemma_strung_once(blend, before, track, 2, track_colour(), b, between);
    }
    assert(strung(blend, before, track, TRACK_RADIUS as int, track_colour(), between));
}

} // verus!
