use embedded_graphics::framebuffer::{buffer_size, Framebuffer};
use embedded_graphics::geometry::Point;
use embedded_graphics::mono_font::ascii::{FONT_10X20, FONT_6X10};
use embedded_graphics::mono_font::MonoTextStyle;
use embedded_graphics::pixelcolor::raw::{LittleEndian, RawU16};
use embedded_graphics::pixelcolor::{IntoStorage, Rgb565};
use embedded_graphics::image::GetPixel;
use embedded_graphics::text::{Baseline, Text};
use embedded_graphics::Drawable;
use metric_gauge::binary32::{HUNDRED, SIXTY_SIX, THIRTY_THREE, ZERO};
use metric_gauge::canvas::{background, from_rgb565, rgb565, BAND_PIXELS};
use metric_gauge::label::{draw_label, format_percent, stamp, write_int};
use metric_gauge::render::{
    dial_value, error_colour, label_colour, level_span, load_blue, load_green, load_orange,
    load_red, muted_colour, render_band, render_gauge_bands, BandBuffer, Dial, DialPlan, Face,
    Rgba, BAND_HEIGHT, SIZE,
};
use metric_gauge::shapes::{
    center_grid_colour, draw_arc, draw_grid, draw_hline, draw_vline, fill_circle, grid_colour,
    in_circle, rim_opacity, track_colour,
};

fn blend(dst: Rgba, src: Rgba) -> Rgba {
    if src.a == 255 {
        return src;
    }
    if src.a == 0 {
        return dst;
    }
    let sa = src.a as f32 / 255.0;
    let da = dst.a as f32 / 255.0;
    let out = sa + da * (1.0 - sa);
    if out == 0.0 {
        return Rgba::new(0, 0, 0, 0);
    }
    let mix = |s: u8, d: u8| ((s as f32 * sa + d as f32 * da * (1.0 - sa)) / out) as u8;
    Rgba::new(mix(src.r, dst.r), mix(src.g, dst.g), mix(src.b, dst.b), (out * 255.0) as u8)
}

fn level(v: f32) -> Rgba {
    match level_span(v.to_bits()) {
        None => load_red(),
        Some(s) => {
            let low = f32::from_bits(s.low);
            let t = (v - low) / (f32::from_bits(s.high) - low);
            let mix = |a: u8, b: u8| (a as f32 + (b as f32 - a as f32) * t + 0.5) as u8;
            Rgba::new(mix(s.from.r, s.to.r), mix(s.from.g, s.to.g), mix(s.from.b, s.to.b), 255)
        }
    }
}

fn arc(start: f32, end: f32) -> Vec<(i32, i32)> {
    let steps = ((102.0 * (end - start).abs()) as i32).max(16);
    (0..=steps)
        .map(|i| {
            let angle = start + i as f32 / steps as f32 * (end - start);
            let x = (120.0 + 102.0 * libm::cosf(angle)) as i32;
            let y = (120.0 - 102.0 * libm::sinf(angle)) as i32;
            (x, y)
        })
        .collect()
}

fn plan(value: u32, dial: Dial) -> DialPlan {
    let v = f32::from_bits(value);
    let deg = |d: f32| d * core::f32::consts::PI / 180.0;
    let (start, end) = match dial {
        Dial::Cpu => (deg(175.0), deg(5.0)),
        Dial::Mem => (deg(185.0), deg(355.0)),
    };
    DialPlan {
        level: level(v),
        rounded: (v + 0.5) as i32,
        track: arc(start, end),
        arc: arc(start, start + (end - start) * (v / 100.0)),
    }
}

/// A whole picture drawn in floating point, to compare the bands with.
struct Picture {
    pixels: Vec<u16>,
}

impl Picture {
    fn put(&mut self, x: i32, y: i32, col: Rgba) {
        if x < 0 || x >= 240 || y < 0 || y >= 240 || col.a == 0 {
            return;
        }
        let i = (y * 240 + x) as usize;
        self.pixels[i] = if col.a == 255 {
            col.to_rgb565()
        } else {
            blend(from_rgb565(self.pixels[i]), col).to_rgb565()
        };
    }

    fn round(x: i32, y: i32) -> bool {
        let dx = (x - 120) as f32 + 0.5;
        let dy = (y - 120) as f32 + 0.5;
        dx * dx + dy * dy <= 120.0 * 120.0
    }

    fn line(&mut self, x0: i32, y0: i32, x1: i32, y1: i32, col: Rgba) {
        for y in y0..=y1 {
            for x in x0..=x1 {
                if Self::round(x, y) {
                    self.put(x, y, col);
                }
            }
        }
    }

    fn grid(&mut self) {
        for k in (0..240).step_by(20) {
            self.line(k, 0, k, 239, grid_colour());
        }
        for k in (0..240).step_by(20) {
            self.line(0, k, 239, k, grid_colour());
        }
        self.line(120, 0, 120, 239, center_grid_colour());
        self.line(0, 120, 239, 120, center_grid_colour());
        for x in (10..=230).step_by(5) {
            let reach = if (x - 120) % 20 == 0 { 2 } else { 1 };
            self.line(x, 120 - reach, x, 120 + reach, center_grid_colour());
        }
    }

    fn disc(&mut self, cx: i32, cy: i32, radius: i32, col: Rgba) {
        let r = radius as f32;
        for y in cy - radius - 1..=cy + radius + 1 {
            for x in cx - radius - 1..=cx + radius + 1 {
                let dx = (x - cx) as f32;
                let dy = (y - cy) as f32;
                let dist = libm::sqrtf(dx * dx + dy * dy);
                if dist >= r + 0.5 {
                    continue;
                }
                let rim = (col.a as f32 * (r + 0.5 - dist)) as u8;
                let a = if dist <= r - 0.5 { col.a } else { rim };
                self.put(x, y, Rgba::new(col.r, col.g, col.b, a));
            }
        }
    }

    fn dial(&mut self, p: &DialPlan, col: Rgba) {
        for (x, y) in &p.track {
            self.disc(*x, *y, 2, track_colour());
        }
        for (x, y) in &p.arc {
            self.disc(*x, *y, 3, col);
        }
    }

    fn label(&mut self, text: &str, col: Rgba, cx: i32, cy: i32, big: bool) {
        let colour = Rgb565::new(col.r >> 3, col.g >> 2, col.b >> 3);
        let mut fb = Framebuffer::<
            Rgb565,
            RawU16,
            LittleEndian,
            240,
            240,
            { buffer_size::<Rgb565>(240, 240) },
        >::new();
        let (width, half) = if big { (10, 10) } else { (6, 5) };
        let at = Point::new(cx - text.len() as i32 * width / 2, cy - half);
        let font = if big { &FONT_10X20 } else { &FONT_6X10 };
        let style = MonoTextStyle::new(font, colour);
        Text::with_baseline(text, at, style, Baseline::Top).draw(&mut fb).unwrap();
        for y in 0..240 {
            for x in 0..240 {
                let c = fb.pixel(Point::new(x, y)).unwrap().into_storage();
                if c != 0 {
                    self.pixels[(y * 240 + x) as usize] = c;
                }
            }
        }
    }

    fn gauge(cpu: Option<f32>, mem: Option<f32>, host: &str, reachable: bool) -> Picture {
        let value = |v: Option<f32>| match v {
            Some(v) if reachable => (v.clamp(0.0, 100.0), true),
            _ => (0.0, false),
        };
        let (cv, cok) = value(cpu);
        let (mv, mok) = value(mem);
        let c = plan(cv.to_bits(), Dial::Cpu);
        let m = plan(mv.to_bits(), Dial::Mem);
        let ccol = if cok { c.level } else { muted_colour() };
        let mcol = if mok { m.level } else { muted_colour() };
        let text = |p: &DialPlan, ok: bool| {
            if ok {
                format!("{}%", p.rounded)
            } else {
                String::from("n/a")
            }
        };
        let ground = background().to_rgb565();
        let mut pic = Picture { pixels: vec![ground; 240 * 240] };
        pic.grid();
        pic.dial(&c, ccol);
        pic.dial(&m, mcol);
        pic.label("CPU", ccol, 120, 46, false);
        pic.label(&text(&c, cok), ccol, 120, 78, true);
        if reachable {
            pic.label(host, label_colour(), 120, 120, false);
        } else {
            pic.label("DOWN", error_colour(), 120, 120, false);
        }
        pic.label(&text(&m, mok), mcol, 120, 162, true);
        pic.label("MEM", mcol, 120, 194, false);
        pic
    }
}

fn bands(cpu: Option<f32>, mem: Option<f32>, host: &str, reachable: bool) -> Vec<u16> {
    bands_on(&mut BandBuffer::new(), cpu, mem, host, reachable)
}

fn bands_on(
    band: &mut BandBuffer,
    cpu: Option<f32>,
    mem: Option<f32>,
    host: &str,
    reachable: bool,
) -> Vec<u16> {
    let mut pixels: Vec<u16> = Vec::new();
    let mut next = 0i32;
    let cpu = cpu.map(f32::to_bits);
    let mem = mem.map(f32::to_bits);
    let mut face = render_gauge_bands(cpu, mem, host, reachable, &plan);
    while face.next_band(band, &blend) {
        assert_eq!(band.y0, next);
        assert_eq!(band.height, BAND_HEIGHT);
        assert_eq!(band.window(), ((0, next as u16), (239, next as u16 + 39)));
        next += band.height as i32;
        pixels.extend_from_slice(band.row_slice());
    }
    assert_eq!(next, SIZE as i32);
    assert_eq!(band.y0, 200);
    // There are no others, and asking changes nothing.
    let last = band.row_slice().to_vec();
    assert!(!face.next_band(band, &blend));
    assert_eq!(band.y0, 200);
    assert_eq!(band.row_slice(), last.as_slice());
    pixels
}

#[test]
fn colours_are_packed_and_unpacked() {
    assert_eq!(Rgba::new(255, 255, 255, 0).to_rgb565(), 0xffff);
    assert_eq!(rgb565(0xf8, 0, 0), 0xf800);
    assert_eq!(rgb565(0, 0xfc, 0), 0x07e0);
    assert_eq!(rgb565(0, 0, 0xf8), 0x001f);
    assert_eq!(rgb565(7, 3, 7), 0);
    assert!(from_rgb565(0xffff) == Rgba::new(255, 255, 255, 255));
    assert!(from_rgb565(0x0821) == Rgba::new(8, 4, 8, 255));
    for c in 0u16..=0xffff {
        assert_eq!(from_rgb565(c).to_rgb565(), c);
    }
}

#[test]
fn a_new_band_is_black() {
    for b in [BandBuffer::new(), BandBuffer::default()] {
        assert_eq!(b.y0, 0);
        assert_eq!(b.row_slice(), vec![0u16; BAND_PIXELS].as_slice());
    }
}

#[test]
fn preparing_fills_the_rows_with_ground() {
    let mut b = BandBuffer::new();
    b.prepare(80, 2);
    assert_eq!(b.y0, 80);
    assert_eq!(b.height, 2);
    assert_eq!(b.row_slice(), vec![background().to_rgb565(); 480].as_slice());
    assert_eq!(b.pixels[480], 0);
    b.prepare(0, 100);
    assert_eq!(b.height, 40);
    assert_eq!(b.pixels[9599], background().to_rgb565());
}

#[test]
fn pixels_are_painted_within_the_band() {
    let mut b = BandBuffer::new();
    b.prepare(40, 40);
    let red = Rgba::new(255, 0, 0, 255);
    for (x, y) in [(-1, 50), (240, 50), (0, 39), (0, 80)] {
        b.set_rgba(x, y, red, &blend);
    }
    assert!(b.row_slice().iter().all(|p| *p == background().to_rgb565()));
    b.set_rgba(3, 41, red, &blend);
    assert_eq!(b.pixels[243], 0xf800);
    b.set_rgba(3, 41, Rgba::new(0, 0, 255, 0), &blend);
    assert_eq!(b.pixels[243], 0xf800);
    b.set_rgba(3, 41, Rgba::new(0, 0, 255, 128), &blend);
    let mixed = blend(Rgba::new(255, 0, 0, 255), Rgba::new(0, 0, 255, 128)).to_rgb565();
    assert_eq!(b.pixels[243], mixed);
    assert!(mixed != 0xf800 && mixed != 0x001f);
}

#[test]
fn listed_pixels_are_set_in_turn() {
    let mut b = BandBuffer::new();
    b.prepare(10, 5);
    b.draw_iter(&[(0, 10, 1), (239, 14, 2), (5, 9, 3), (5, 15, 3)]);
    b.draw_iter(&[(-1, 12, 3), (240, 12, 3), (0, 10, 5), (0, 10, 4)]);
    assert_eq!(b.pixels[0], 4);
    assert_eq!(b.pixels[4 * 240 + 239], 2);
    assert!(!b.pixels.contains(&3));
}

#[test]
fn the_round_display_is_that_of_floating_point() {
    for y in -3..243 {
        for x in -3..243 {
            assert_eq!(in_circle(x, y), Picture::round(x, y), "{} {}", x, y);
        }
    }
    for far in [i32::MIN, i32::MAX, -70_000, 1 << 30] {
        assert!(!in_circle(far, 120) && !in_circle(120, far) && !in_circle(far, far));
    }
}

#[test]
fn rims_are_those_of_floating_point() {
    for radius in 0i32..=9 {
        for d2 in 0u64..=100 {
            let r = radius as f32;
            let dist = libm::sqrtf(d2 as f32);
            if dist >= r + 0.5 || dist <= r - 0.5 {
                continue;
            }
            for a in 0u8..=255 {
                let expected = (a as f32 * (r + 0.5 - dist)) as u8;
                assert_eq!(rim_opacity(a, radius, d2), expected, "{} {} {}", a, radius, d2);
            }
        }
    }
    assert_eq!(rim_opacity(255, 2, 4), 127);
    assert_eq!(rim_opacity(255, 2, 5), 67);
    assert_eq!(rim_opacity(255, 3, 8), 171);
    assert_eq!(rim_opacity(255, 3, 10), 86);
    // Far beyond: half of the pixel is covered on the circle itself, all of it half a pixel in.
    assert_eq!(rim_opacity(255, i32::MAX, i32::MAX as u64 * i32::MAX as u64), 127);
    assert_eq!(rim_opacity(200, 1_000_000, 1_000_000_000_000), 100);
}

#[test]
fn lines_run_either_way() {
    let col = Rgba::new(1, 200, 3, 255);
    for (a, b) in [(100, 110), (110, 100)] {
        let mut v = BandBuffer::new();
        v.prepare(80, 40);
        draw_vline(&mut v, 50, a, b, col, &blend);
        let mut h = BandBuffer::new();
        h.prepare(80, 40);
        draw_hline(&mut h, a, b, 90, col, &blend);
        draw_hline(&mut h, a, b, 79, col, &blend);
        draw_hline(&mut h, a, b, 120, col, &blend);
        draw_hline(&mut h, i32::MIN, i32::MAX, i32::MAX, col, &blend);
        draw_vline(&mut v, i32::MAX, i32::MIN, i32::MAX, col, &blend);
        for k in 0..240 * 40 {
            let (x, y) = (k % 240, 80 + k / 240);
            assert_eq!(v.pixels[k] == col.to_rgb565(), x == 50 && (100..=110).contains(&y));
            assert_eq!(h.pixels[k] == col.to_rgb565(), y == 90 && (100..=110).contains(&x));
        }
    }
}

#[test]
fn the_grid_is_that_of_floating_point() {
    let ground = background().to_rgb565();
    let mut pic = Picture { pixels: vec![ground; 240 * 240] };
    pic.grid();
    for k in 0..6 {
        let mut b = BandBuffer::new();
        b.prepare(40 * k, 40);
        draw_grid(&mut b, &blend);
        let from = (40 * k * 240) as usize;
        assert_eq!(b.row_slice(), &pic.pixels[from..from + 9600]);
    }
}

#[test]
fn discs_are_those_of_floating_point() {
    let ground = background().to_rgb565();
    for radius in -1..=9 {
        for (cx, cy) in [(60, 60), (0, 45), (239, 79), (120, 36), (-20, 60), (90, 500)] {
            for a in [255u8, 100] {
                let col = Rgba::new(250, 120, 30, a);
                let mut pic = Picture { pixels: vec![ground; 240 * 240] };
                pic.disc(cx, cy, radius, col);
                let mut b = BandBuffer::new();
                b.prepare(40, 40);
                fill_circle(&mut b, cx, cy, radius, col, &blend);
                assert_eq!(b.row_slice(), &pic.pixels[9600..19200]);
            }
        }
    }
}

#[test]
fn lines_and_discs_reach_the_ends() {
    let col = Rgba::new(1, 200, 3, 255);
    let c = col.to_rgb565();
    let mut b = BandBuffer::new();
    b.prepare(100, 1);
    draw_hline(&mut b, i32::MIN, i32::MAX, 100, col, &blend);
    for x in 0..240 {
        assert_eq!(b.pixels[x as usize] == c, in_circle(x, 100));
    }
    b.prepare(100, 2);
    draw_vline(&mut b, 120, i32::MAX, i32::MIN, col, &blend);
    assert!(b.pixels[120] == c && b.pixels[360] == c);
    b.prepare(i32::MAX - 39, 40);
    fill_circle(&mut b, 100, i32::MAX - 5, 3, col, &blend);
    assert_eq!(b.pixels[34 * 240 + 100], c);
    fill_circle(&mut b, i32::MIN + 4, i32::MAX - 5, 3, col, &blend);
    draw_vline(&mut b, 100, i32::MAX - 2, i32::MAX, col, &blend);
    assert_eq!(b.pixels[39 * 240 + 100], background().to_rgb565());
    // A disc that is far larger than the display, and one that is none.
    b.prepare(80, 40);
    fill_circle(&mut b, 100, 100, i32::MIN, col, &blend);
    assert!(b.row_slice().iter().all(|p| *p == background().to_rgb565()));
    fill_circle(&mut b, 100, 100, 1_000_000_000, col, &blend);
    assert!(b.row_slice().iter().all(|p| *p == c));
}

#[test]
fn arcs_are_discs_in_turn() {
    let points = [(20, 50), (22, 51), (24, 53)];
    let col = Rgba::new(10, 220, 30, 200);
    let mut one = BandBuffer::new();
    one.prepare(40, 40);
    draw_arc(&mut one, &points, 3, col, &blend);
    let mut other = BandBuffer::new();
    other.prepare(40, 40);
    for (x, y) in points {
        fill_circle(&mut other, x, y, 3, col, &blend);
    }
    assert_eq!(one.row_slice(), other.row_slice());
    draw_arc(&mut one, &[], 3, col, &blend);
    assert_eq!(one.row_slice(), other.row_slice());
}

#[test]
fn set_pixels_of_a_picture_are_stamped() {
    let mut b = BandBuffer::new();
    b.prepare(0, 2);
    let mut picture = vec![0u8; 1200];
    picture[0] = 0b1000_0001;
    picture[30] = 0b0100_0000;
    picture[60] = 0xff;
    stamp(&mut b, &picture, 0x1234);
    for i in 0..9600 {
        assert_eq!(b.pixels[i] == 0x1234, i == 0 || i == 7 || i == 241, "{}", i);
    }
}

#[test]
fn labels_are_drawn_with_their_font() {
    let col = Rgba::new(200, 180, 16, 255);
    for (text, cy, big) in [
        ("CPU", 46, false),
        ("100%", 78, true),
        ("node1", 120, false),
        ("a\nb", 20, true),
        ("ä?", 60, false),
        ("a very long host name that runs off both sides", 100, false),
        ("", 100, true),
    ] {
        let mut pic = Picture { pixels: vec![background().to_rgb565(); 240 * 240] };
        pic.label(text, col, 120, cy, big);
        let mut lit = false;
        for k in 0..6 {
            let mut b = BandBuffer::new();
            b.prepare(40 * k, 40);
            draw_label(&mut b, text, col, 120, cy, big);
            let from = (40 * k * 240) as usize;
            assert_eq!(b.row_slice(), &pic.pixels[from..from + 9600], "{} {}", text, k);
            lit = lit || b.row_slice().contains(&col.to_rgb565());
        }
        assert_eq!(lit, !text.is_empty());
    }
}

#[test]
fn percentages_in_figures() {
    assert_eq!(format_percent(0, true).as_str(), "0%");
    assert_eq!(format_percent(7, true).as_str(), "7%");
    assert_eq!(format_percent(100, true).as_str(), "100%");
    assert_eq!(format_percent(50, false).as_str(), "n/a");
    assert_eq!(format_percent(-3, true).as_str(), "-3%");
    assert_eq!(format_percent(9_999_999, true).as_str(), "9999999%");
    assert_eq!(format_percent(12_345_678, true).as_str(), "12345678");
    assert_eq!(format_percent(123_456_789, true).as_str(), "12345678");
    for n in 0..=100 {
        assert_eq!(format_percent(n, true).as_str(), format!("{}%", n));
    }
}

#[test]
fn numbers_are_written_as_far_as_they_fit() {
    let mut s: heapless::String<8> = heapless::String::new();
    assert_eq!(write_int(&mut s, -1_204), Ok(()));
    assert_eq!(s.as_str(), "-1204");
    assert_eq!(write_int(&mut s, 567), Ok(()));
    assert_eq!(s.as_str(), "-1204567");
    assert_eq!(write_int(&mut s, 0), Err(()));
    assert_eq!(write_int(&mut s, -1), Err(()));
    assert_eq!(s.as_str(), "-1204567");
    let mut s: heapless::String<8> = heapless::String::new();
    assert_eq!(write_int(&mut s, i32::MAX), Err(()));
    assert_eq!(s.as_str(), "21474836");
}

#[test]
fn spans_of_the_scale() {
    let span = |v: f32| level_span(v.to_bits()).unwrap();
    for v in [-5.0, 0.0, 10.0, 33.0] {
        let s = span(v);
        assert!(s.low == ZERO && s.high == THIRTY_THREE);
        assert!(s.from == load_blue() && s.to == load_green());
    }
    for v in [33.000004, 50.0, 66.0] {
        let s = span(v);
        assert!(s.low == THIRTY_THREE && s.high == SIXTY_SIX);
        assert!(s.from == load_green() && s.to == load_orange());
    }
    for v in [66.00001, 100.0, 250.0] {
        let s = span(v);
        assert!(s.low == SIXTY_SIX && s.high == HUNDRED);
        assert!(s.from == load_orange() && s.to == load_red());
    }
    assert!(level_span(f32::NAN.to_bits()).is_none());
    assert!(level(0.0) == load_blue());
    assert!(level(33.0) == load_green());
    assert!(level(100.0) == load_red());
}

#[test]
fn values_of_the_dials() {
    assert_eq!(dial_value(true, Some(50.0f32.to_bits())), (50.0f32.to_bits(), true));
    assert_eq!(dial_value(true, Some(150.0f32.to_bits())), (HUNDRED, true));
    assert_eq!(dial_value(true, Some((-1.0f32).to_bits())), (ZERO, true));
    assert_eq!(dial_value(true, None), (ZERO, false));
    assert_eq!(dial_value(false, Some(50.0f32.to_bits())), (ZERO, false));
    assert_eq!(dial_value(false, None), (ZERO, false));
}

#[test]
fn a_band_is_drawn_over_whatever_was_there() {
    let cpu = Face::new(true, plan(42.0f32.to_bits(), Dial::Cpu));
    let mem = Face::new(false, plan(0.0f32.to_bits(), Dial::Mem));
    let mut b = BandBuffer::new();
    render_band(&mut b, 40, &cpu, &mem, "h", label_colour(), &blend);
    let first = b.row_slice().to_vec();
    render_band(&mut b, 120, &cpu, &mem, "h", label_colour(), &blend);
    render_band(&mut b, 40, &cpu, &mem, "h", label_colour(), &blend);
    assert_eq!(b.row_slice(), first.as_slice());
    let whole = Picture::gauge(Some(42.0), None, "h", true);
    assert_eq!(first.as_slice(), &whole.pixels[9600..19200]);
}

#[test]
fn the_face_is_that_of_floating_point() {
    for (cpu, mem, host, reachable) in [
        (Some(0.0), Some(0.0), "boot", true),
        (Some(12.5), Some(87.3), "node1", true),
        (Some(33.0), Some(66.0), "node2", true),
        (Some(150.0), Some(-3.0), "a-rather-long-host-name", true),
        (None, Some(50.5), "node1", true),
        (Some(99.5), None, "", true),
        (Some(50.0), Some(50.0), "node1", false),
        (None, None, "node1", false),
    ] {
        let pixels = bands(cpu, mem, host, reachable);
        assert_eq!(pixels, Picture::gauge(cpu, mem, host, reachable).pixels);
    }
}

#[test]
fn nothing_shows_through_from_the_last_paint() {
    let fresh = bands(Some(20.0), Some(30.0), "node1", true);
    let mut band = BandBuffer::new();
    bands_on(&mut band, Some(90.0), None, "node2", true);
    assert_eq!(bands_on(&mut band, Some(20.0), Some(30.0), "node1", true), fresh);
    band.prepare(17, 3);
    assert_eq!(bands_on(&mut band, Some(20.0), Some(30.0), "node1", true), fresh);
}

#[test]
fn an_unreachable_host_looks_the_same_whatever_was_measured() {
    let one = bands(Some(10.0), None, "node1", false);
    let other = bands(None, Some(90.0), "node2", false);
    assert_eq!(one, other);
    assert!(one.contains(&error_colour().to_rgb565()));
    assert!(!bands(Some(10.0), None, "node1", true).contains(&error_colour().to_rgb565()));
}
