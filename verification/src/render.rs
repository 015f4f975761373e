//! The face of the gauge: two dials with their values, and the host between them.
//!
//! The face is drawn band by band, each band in the same buffer, so that the whole of it is
//! never held at once.
use vstd::prelude::*;

use crate::binary32;
use crate::bounded;
use crate::bounded::Text;
use crate::canvas;
use crate::label;
use crate::shapes;

pub use crate::canvas::{BandBuffer, BandView, Rgba, BAND_HEIGHT, BAND_PIXELS, CENTER, SIZE};

verus! {

/// Texts.
#[verifier::allow_in_spec]
pub fn label_colour() -> Rgba
    returns
        (Rgba { r: 210, g: 215, b: 220, a: 255 }),
{
    Rgba { r: 210, g: 215, b: 220, a: 255 }
}

/// A dial without a value.
#[verifier::allow_in_spec]
pub fn muted_colour() -> Rgba
    returns
        (Rgba { r: 136, g: 140, b: 148, a: 255 }),
{
    Rgba { r: 136, g: 140, b: 148, a: 255 }
}

/// A host that cannot be reached.
#[verifier::allow_in_spec]
pub fn error_colour() -> Rgba
    returns
        (Rgba { r: 255, g: 59, b: 48, a: 255 }),
{
    Rgba { r: 255, g: 59, b: 48, a: 255 }
}

/// No load.
#[verifier::allow_in_spec]
pub fn load_blue() -> Rgba
    returns
        (Rgba { r: 0x33, g: 0x88, b: 0xff, a: 255 }),
{
    Rgba { r: 0x33, g: 0x88, b: 0xff, a: 255 }
}

/// A third of the load.
#[verifier::allow_in_spec]
pub fn load_green() -> Rgba
    returns
        (Rgba { r: 0x44, g: 0xcc, b: 0x66, a: 255 }),
{
    Rgba { r: 0x44, g: 0xcc, b: 0x66, a: 255 }
}

/// Two thirds of the load.
#[verifier::allow_in_spec]
pub fn load_orange() -> Rgba
    returns
        (Rgba { r: 0xff, g: 0xaa, b: 0x33, a: 255 }),
{
    Rgba { r: 0xff, g: 0xaa, b: 0x33, a: 255 }
}

/// Full load.
#[verifier::allow_in_spec]
pub fn load_red() -> Rgba
    returns
        (Rgba { r: 0xff, g: 0x44, b: 0x44, a: 255 }),
{
    Rgba { r: 0xff, g: 0x44, b: 0x44, a: 255 }
}

/// A part of the scale of load: its two ends and their colours. A load between the ends has a
/// colour between theirs.
#[derive(Clone, Copy, PartialEq, Eq, Structural)]
pub struct LevelSpan {
    pub low: u32,
    pub high: u32,
    pub from: Rgba,
    pub to: Rgba,
}

/// The part of the scale that a load falls into; what is not a number falls into none.
pub open spec fn span_of(percent: u32) -> Option<LevelSpan> {
    let p = binary32::clamped_percent(percent);
    if binary32::at_most(p, binary32::THIRTY_THREE) {
        Some(
            LevelSpan {
                low: binary32::ZERO,
                high: binary32::THIRTY_THREE,
                from: load_blue(),
                to: load_green(),
            },
        )
    } else if binary32::at_most(p, binary32::SIXTY_SIX) {
        Some(
            LevelSpan {
                low: binary32::THIRTY_THREE,
                high: binary32::SIXTY_SIX,
                from: load_green(),
                to: load_orange(),
            },
        )
    } else if binary32::at_most(p, binary32::HUNDRED) {
        Some(
            LevelSpan {
                low: binary32::SIXTY_SIX,
                high: binary32::HUNDRED,
                from: load_orange(),
                to: load_red(),
            },
        )
    } else {
        None
    }
}

/// The part of the scale that a load falls into holds that load, and each load that is a number
/// falls into one.
pub proof fn lemma_span_holds(percent: u32)
    ensures
        span_of(percent) is None <==> binary32::is_nan(percent),
        span_of(percent) matches Some(s) ==> binary32::at_most(
            s.low,
            binary32::clamped_percent(percent),
        ) && binary32::at_most(binary32::clamped_percent(percent), s.high),
{
    binary32::lemma_named_encodings();
    binary32::lemma_clamped_percent_range(percent);
}

/// The part of the scale that a load falls into.
pub fn level_span(percent: u32) -> (span: Option<LevelSpan>)
    ensures
        span == span_of(percent),
{
    let p: u32 = binary32::clamp_percent(percent);
    if binary32::is_at_most(p, binary32::THIRTY_THREE) {
        Some(
            LevelSpan {
                low: binary32::ZERO,
                high: binary32::THIRTY_THREE,
                from: load_blue(),
                to: load_green(),
            },
        )
    } else if binary32::is_at_most(p, binary32::SIXTY_SIX) {
        Some(
            LevelSpan {
                low: binary32::THIRTY_THREE,
                high: binary32::SIXTY_SIX,
                from: load_green(),
                to: load_orange(),
            },
        )
    } else if binary32::is_at_most(p, binary32::HUNDRED) {
        Some(
            LevelSpan {
                low: binary32::SIXTY_SIX,
                high: binary32::HUNDRED,
                from: load_orange(),
                to: load_red(),
            },
        )
    } else {
        None
    }
}

/// Which of the two dials: the upper one or the lower one.
#[derive(Clone, Copy, PartialEq, Eq, Structural)]
pub enum Dial {
    Cpu,
    Mem,
}

/// What is worked out of the value of a dial: the colour of its load, the value in full per
/// cent, and the points of its track and of the arc up to the value.
pub struct DialPlan {
    pub level: Rgba,
    pub rounded: i32,
    pub track: Vec<(i32, i32)>,
    pub arc: Vec<(i32, i32)>,
}

/// Whether a plan can be drawn.
pub open spec fn drawable_plan(p: DialPlan) -> bool {
    &&& p.rounded > i32::MIN
    &&& shapes::near(p.track@, shapes::TRACK_RADIUS as int)
    &&& shapes::near(p.arc@, shapes::VALUE_RADIUS as int)
}

/// Whether two plans say the same.
pub open spec fn same_plan(p: DialPlan, q: DialPlan) -> bool {
    p.level == q.level && p.rounded == q.rounded && p.track@ == q.track@ && p.arc@ == q.arc@
}

/// Whether `plan` is a function of a value and a dial: it can be asked for every value of both
/// dials, gives one plan for each, and gives what can be drawn.
pub open spec fn plans<P: Fn(u32, Dial) -> DialPlan>(plan: P) -> bool {
    &&& forall|v: u32, d: Dial| call_requires(plan, (v, d))
    &&& forall|v: u32, d: Dial, p: DialPlan|
        #[trigger] call_ensures(plan, (v, d), p) ==> drawable_plan(p)
    &&& forall|v: u32, d: Dial, p: DialPlan, q: DialPlan|
        #![trigger call_ensures(plan, (v, d), p), call_ensures(plan, (v, d), q)]
        call_ensures(plan, (v, d), p) && call_ensures(plan, (v, d), q) ==> same_plan(p, q)
}

/// Whether a dial has a value to show.
pub open spec fn has_value(reachable: bool, value: Option<u32>) -> bool {
    reachable && value is Some
}

/// The value that a dial is drawn with: what is measured, held between 0 and 100, or 0 where
/// nothing is.
pub open spec fn shown_value(reachable: bool, value: Option<u32>) -> u32 {
    match value {
        Some(v) if reachable => binary32::clamped_percent(v),
        _ => binary32::ZERO,
    }
}

/// The value that a dial is drawn with, and whether it stands for a measured one.
pub fn dial_value(reachable: bool, value: Option<u32>) -> (r: (u32, bool))
    ensures
        r.0 == shown_value(reachable, value),
        r.1 == has_value(reachable, value),
{
    match value {
        Some(v) if reachable => (binary32::clamp_percent(v), true),
        _ => (binary32::ZERO, false),
    }
}

/// A dial as it is drawn.
pub struct FaceView {
    pub colour: Rgba,
    pub text: Seq<char>,
    pub track: Seq<(i32, i32)>,
    pub arc: Seq<(i32, i32)>,
}

/// A dial as it is drawn from its plan: muted where it has no value.
pub open spec fn face_of(ok: bool, p: DialPlan) -> FaceView {
    FaceView {
        colour: if ok {
            p.level
        } else {
            muted_colour()
        },
        text: label::percent(p.rounded as int, ok),
        track: p.track@,
        arc: p.arc@,
    }
}

/// A dial as it is drawn.
pub struct Face {
    colour: Rgba,
    text: heapless::String<8>,
    track: Vec<(i32, i32)>,
    arc: Vec<(i32, i32)>,
}

impl View for Face {
    type V = FaceView;

    closed spec fn view(&self) -> FaceView {
        FaceView {
            colour: self.colour,
            text: self.text.text(),
            track: self.track@,
            arc: self.arc@,
        }
    }
}

impl Face {
    /// A dial as it is drawn from its plan.
    pub fn new(ok: bool, plan: DialPlan) -> (face: Self)
        requires
            plan.rounded > i32::MIN,
        ensures
            face@ == face_of(ok, plan),
    {
        let colour = if ok { plan.level } else { muted_colour() };
        let text = label::format_percent(plan.rounded, ok);
        Face { colour, text, track: plan.track, arc: plan.arc }
    }
}

/// The text and the colour between the dials: the host, or that it is down.
pub open spec fn host_line(reachable: bool, hostname: Seq<char>) -> (Seq<char>, Rgba) {
    if reachable {
        (hostname, label_colour())
    } else {
        ("DOWN"@, error_colour())
    }
}

/// A dial without a value says so, muted, whatever is planned for it; and a host that cannot be
/// reached has no value on either dial, whatever was measured.
pub proof fn lemma_missing_value_shown(reachable: bool, value: Option<u32>, p: DialPlan)
    requires
        value is None || !reachable,
    ensures
        shown_value(reachable, value) == binary32::ZERO,
        face_of(has_value(reachable, value), p).text == "n/a"@,
        face_of(has_value(reachable, value), p).colour == muted_colour(),
{
}

/// A dial with a value shows it in full per cent, in the colour of its load.
pub proof fn lemma_value_shown(v: u32, p: DialPlan)
    requires
        0 <= p.rounded <= 100,
    ensures
        shown_value(true, Some(v)) == binary32::clamped_percent(v),
        face_of(has_value(true, Some(v)), p).text == label::decimal(p.rounded as int).push('%'),
        face_of(has_value(true, Some(v)), p).colour == p.level,
{
    label::lemma_percent_whole(p.rounded as int);
}

/// A band of plain ground.
pub open spec fn ground(y0: int) -> BandView {
    canvas::cleared(
        BandView {
            y0,
            height: BAND_HEIGHT as int,
            pixels: Seq::new(BAND_PIXELS as nat, |i: int| 0u16),
        },
        y0,
        BAND_HEIGHT as int,
    )
}

/// The band with a text over it, centred at this row.
pub open spec fn lettered(b: BandView, text: Seq<char>, col: Rgba, cy: int, big: bool) -> BandView {
    label::stamped(
        b,
        label::label_picture(text, CENTER as int, cy, big, b.y0),
        canvas::packed(col.r, col.g, col.b),
    )
}

/// The band with the five texts over it, from top to bottom.
pub open spec fn titled(
    b: BandView,
    cpu: FaceView,
    mem: FaceView,
    host: Seq<char>,
    host_col: Rgba,
) -> BandView {
    let b = lettered(b, "CPU"@, cpu.colour, 46, false);
    let b = lettered(b, cpu.text, cpu.colour, 78, true);
    let b = lettered(b, host, host_col, 120, false);
    let b = lettered(b, mem.text, mem.colour, 162, true);
    lettered(b, "MEM"@, mem.colour, 194, false)
}

/// Whether `after` is the band of the face from row `y0` on: the ground, the grid, the dials and
/// the texts, one over the other.
pub open spec fn shows<F: Fn(Rgba, Rgba) -> Rgba>(
    blend: F,
    cpu: FaceView,
    mem: FaceView,
    host: Seq<char>,
    host_col: Rgba,
    y0: int,
    after: BandView,
) -> bool {
    exists|lined: BandView, upper: BandView, lower: BandView|
        {
            &&& canvas::drawn(blend, ground(y0), shapes::grid(), lined)
            &&& #[trigger] shapes::dialled(blend, lined, cpu.track, cpu.arc, cpu.colour, upper)
            &&& #[trigger] shapes::dialled(blend, upper, mem.track, mem.arc, mem.colour, lower)
            &&& after == titled(lower, cpu, mem, host, host_col)
        }
}

/// Draws the band of the face from row `y0` on.
pub fn render_band<F: Fn(Rgba, Rgba) -> Rgba>(
    band: &mut BandBuffer,
    y0: i32,
    cpu: &Face,
    mem: &Face,
    host: &str,
    host_col: Rgba,
    blend: &F,
)
    requires
        0 <= y0 <= SIZE - BAND_HEIGHT,
        canvas::mixes(*blend),
        shapes::near(cpu@.track, shapes::TRACK_RADIUS as int),
        shapes::near(cpu@.arc, shapes::VALUE_RADIUS as int),
        shapes::near(mem@.track, shapes::TRACK_RADIUS as int),
        shapes::near(mem@.arc, shapes::VALUE_RADIUS as int),
        bounded::utf8_len(host@) <= label::LONGEST_TEXT,
    ensures
        shows(*blend, cpu@, mem@, host@, host_col, y0 as int, final(band)@),
        final(band)@.y0 == y0,
        final(band)@.height == BAND_HEIGHT,
{
    band.prepare(y0, BAND_HEIGHT);
    assert(band@ =~= ground(y0 as int));
    shapes::draw_grid(band, blend);
    let ghost lined = band@;
    shapes::draw_gauge_arc(band, cpu.track.as_slice(), cpu.arc.as_slice(), cpu.colour, blend);
    let ghost upper = band@;
    shapes::draw_gauge_arc(band, mem.track.as_slice(), mem.arc.as_slice(), mem.colour, blend);
    let ghost lower = band@;
    proof {
        reveal_strlit("CPU");
        reveal_strlit("MEM");
        vstd::utf8::is_ascii_chars_encode_utf8("CPU"@);
        vstd::utf8::is_ascii_chars_encode_utf8("MEM"@);
    }
    label::draw_label(band, "CPU", cpu.colour, CENTER, 46, false);
    label::draw_label(band, bounded::percent_str(&cpu.text), cpu.colour, CENTER, 78, true);
    label::draw_label(band, host, host_col, CENTER, 120, false);
    label::draw_label(band, bounded::percent_str(&mem.text), mem.colour, CENTER, 162, true);
    label::draw_label(band, "MEM", mem.colour, CENTER, 194, false);
    assert(canvas::drawn(*blend, ground(y0 as int), shapes::grid(), lined));
    assert(shapes::dialled(*blend, lined, cpu@.track, cpu@.arc, cpu@.colour, upper));
    assert(shapes::dialled(*blend, upper, mem@.track, mem@.arc, mem@.colour, lower));
}

/// The number of bands that make the face.
pub const BAND_COUNT: usize = 6;

/// The first row of a band.
pub open spec fn band_row(k: int) -> int {
    40 * k
}

/// The bands cover the face: each row lies in one band and in no other.
pub proof fn lemma_bands_cover(y: int)
    requires
        0 <= y < SIZE,
    ensures
        0 <= y / 40 < BAND_COUNT,
        forall|k: int|
            #[trigger] band_row(k) <= y < band_row(k) + BAND_HEIGHT <==> k == y / 40,
{
}

/// A face and how many of its bands were handed out.
pub struct GaugeView {
    pub cpu: FaceView,
    pub mem: FaceView,
    pub host: Seq<char>,
    pub host_col: Rgba,
    pub done: int,
}

/// Whether `after` is the `k`-th band of a face.
pub open spec fn band_of<F: Fn(Rgba, Rgba) -> Rgba>(
    blend: F,
    g: GaugeView,
    k: int,
    after: BandView,
) -> bool {
    shows(blend, g.cpu, g.mem, g.host, g.host_col, band_row(k), after)
}

/// Whether `g` is a face for these values, with no band handed out: each dial is drawn as `plan`
/// says for its value.
pub open spec fn gauge_of<P: Fn(u32, Dial) -> DialPlan>(
    plan: P,
    cpu: Option<u32>,
    mem: Option<u32>,
    hostname: Seq<char>,
    reachable: bool,
    g: GaugeView,
) -> bool {
    exists|c: DialPlan, m: DialPlan|
        {
            &&& #[trigger] call_ensures(plan, (shown_value(reachable, cpu), Dial::Cpu), c)
            &&& #[trigger] call_ensures(plan, (shown_value(reachable, mem), Dial::Mem), m)
            &&& g.cpu == face_of(has_value(reachable, cpu), c)
            &&& g.mem == face_of(has_value(reachable, mem), m)
            &&& (g.host, g.host_col) == host_line(reachable, hostname)
            &&& g.done == 0
        }
}

/// Whether asking for the next band leads from the face `g` and the band `before` to `h` and
/// `after`: while bands are left the next one is drawn, and then nothing is changed any more.
pub open spec fn band_step<F: Fn(Rgba, Rgba) -> Rgba>(
    blend: F,
    g: GaugeView,
    before: BandView,
    more: bool,
    h: GaugeView,
    after: BandView,
) -> bool {
    &&& more == (g.done < BAND_COUNT)
    &&& more ==> {
        &&& band_of(blend, g, g.done, after)
        &&& after.y0 == band_row(g.done)
        &&& after.height == BAND_HEIGHT
        &&& h == GaugeView { done: g.done + 1, ..g }
    }
    &&& !more ==> h == g && after == before
}

/// A face that is handed out band by band, from top to bottom.
pub struct GaugeBands {
    cpu: Face,
    mem: Face,
    host: String,
    host_col: Rgba,
    done: usize,
}

impl View for GaugeBands {
    type V = GaugeView;

    closed spec fn view(&self) -> GaugeView {
        GaugeView {
            cpu: self.cpu@,
            mem: self.mem@,
            host: self.host@,
            host_col: self.host_col,
            done: self.done as int,
        }
    }
}

impl GaugeBands {
    /// Whether the face can be drawn.
    pub open spec fn wf(&self) -> bool {
        &&& shapes::near(self@.cpu.track, shapes::TRACK_RADIUS as int)
        &&& shapes::near(self@.cpu.arc, shapes::VALUE_RADIUS as int)
        &&& shapes::near(self@.mem.track, shapes::TRACK_RADIUS as int)
        &&& shapes::near(self@.mem.arc, shapes::VALUE_RADIUS as int)
        &&& bounded::utf8_len(self@.host) <= label::LONGEST_TEXT
        &&& 0 <= self@.done <= BAND_COUNT
    }

    /// Draws the next band of the face on `band`; tells whether there was one. `blend` mixes a
    /// colour with the one below it.
    pub fn next_band<F>(&mut self, band: &mut BandBuffer, blend: &F) -> (more: bool)
        where
            F: Fn(Rgba, Rgba) -> Rgba,
        requires
            old(self).wf(),
            canvas::mixes(*blend),
        ensures
            final(self).wf(),
            band_step(*blend, old(self)@, old(band)@, more, final(self)@, final(band)@),
    {
        if self.done >= BAND_COUNT {
            return false;
        }
        let y0: i32 = self.done as i32 * BAND_HEIGHT as i32;
        render_band(
            band,
            y0,
            &self.cpu,
            &self.mem,
            self.host.as_str(),
            self.host_col,
            blend,
        );
        self.done += 1;
        true
    }
}

/// The face for these values, to be handed out band by band. `plan` works out the colour, the text
/// and the arc of a value.
pub fn render_gauge_bands<P: Fn(u32, Dial) -> DialPlan>(
    cpu: Option<u32>,
    mem: Option<u32>,
    hostname: &str,
    reachable: bool,
    plan: &P,
) -> (g: GaugeBands)
    requires
        plans(*plan),
        bounded::utf8_len(hostname@) <= label::LONGEST_TEXT,
    ensures
        g.wf(),
        gauge_of(*plan, cpu, mem, hostname@, reachable, g@),
{
    let (cpu_val, cpu_ok) = dial_value(reachable, cpu);
    let (mem_val, mem_ok) = dial_value(reachable, mem);
    let cpu_plan = plan(cpu_val, Dial::Cpu);
    let mem_plan = plan(mem_val, Dial::Mem);
    let ghost c = cpu_plan;
    let ghost m = mem_plan;
    let (host, host_col) = if reachable {
        (hostname, label_colour())
    } else {
        ("DOWN", error_colour())
    };
    proof {
        reveal_strlit("DOWN");
        vstd::utf8::is_ascii_chars_encode_utf8("DOWN"@);
    }
    let g = GaugeBands {
        cpu: Face::new(cpu_ok, cpu_plan),
        mem: Face::new(mem_ok, mem_plan),
        host: host.to_owned(),
        host_col,
        done: 0,
    };
    assert(call_ensures(*plan, (shown_value(reachable, cpu), Dial::Cpu), c));
    assert(call_ensures(*plan, (shown_value(reachable, mem), Dial::Mem), m));
    g
}

/// A whole painting: a face is asked for bands until there is none. `faces` and `bands` are what
/// was before the first band was given and after each one.
pub open spec fn painting<F: Fn(Rgba, Rgba) -> Rgba>(
    blend: F,
    faces: Seq<GaugeView>,
    bands: Seq<BandView>,
) -> bool {
    &&& faces.len() > 0
    &&& faces.len() == bands.len()
    &&& 0 <= faces[0].done <= BAND_COUNT
    &&& forall|i: int|
        #![trigger faces[i]]
        0 <= i < faces.len() - 1 ==> band_step(
            blend,
            faces[i],
            bands[i],
            true,
            faces[i + 1],
            bands[i + 1],
        )
    &&& band_step(blend, faces.last(), bands.last(), false, faces.last(), bands.last())
}

/// A painting gives the bands that are left, each once and from top to bottom, and nothing else:
/// from a new face six bands, the first 40 rows of the display first.
pub proof fn lemma_all_bands_given<F: Fn(Rgba, Rgba) -> Rgba>(
    blend: F,
    faces: Seq<GaugeView>,
    bands: Seq<BandView>,
)
    requires
        painting(blend, faces, bands),
    ensures
        faces.len() - 1 == BAND_COUNT - faces[0].done,
        forall|i: int|
            #![trigger bands[i]]
            1 <= i < bands.len() ==> {
                let k = faces[0].done + i - 1;
                band_of(blend, faces[0], k, bands[i]) && bands[i].y0 == band_row(k)
                    && bands[i].height == BAND_HEIGHT
            },
{
    let n = faces.len() - 1;
    lemma_faces_count(blend, faces, bands, n);
    assert(faces.last() == faces[n]);
    if faces[0].done + n > BAND_COUNT {
        lemma_faces_count(blend, faces, bands, n - 1);
        assert(band_step(blend, faces[n - 1], bands[n - 1], true, faces[n], bands[n]));
    }
    assert forall|i: int| #![trigger bands[i]] 1 <= i < bands.len() implies {
        let k = faces[0].done + i - 1;
        band_of(blend, faces[0], k, bands[i]) && bands[i].y0 == band_row(k) && bands[i].height
            == BAND_HEIGHT
    } by {
        lemma_faces_count(blend, faces, bands, i - 1);
        let j = i - 1;
        assert(band_step(blend, faces[j], bands[j], true, faces[j + 1], bands[j + 1]));
    }
}

/// Each band given counts one up and leaves the face as it is.
proof fn lemma_faces_count<F: Fn(Rgba, Rgba) -> Rgba>(
    blend: F,
    faces: Seq<GaugeView>,
    bands: Seq<BandView>,
    i: int,
)
    requires
        faces.len() == bands.len(),
        0 <= i < faces.len(),
        forall|i: int|
            #![trigger faces[i]]
            0 <= i < faces.len() - 1 ==> band_step(
                blend,
                faces[i],
                bands[i],
                true,
                faces[i + 1],
                bands[i + 1],
            ),
    ensures
        faces[i] == (GaugeView { done: faces[0].done + i, ..faces[0] }),
    decreases i,
{
    if i > 0 {
        lemma_faces_count(blend, faces, bands, i - 1);
        let j = i - 1;
        assert(band_step(blend, faces[j], bands[j], true, faces[j + 1], bands[j + 1]));
    }
}

/// Nothing shows through: a band of a face is the same whatever was drawn in the same buffer
/// before.
pub proof fn lemma_nothing_shows_through<F: Fn(Rgba, Rgba) -> Rgba>(
    blend: F,
    g: GaugeView,
    before1: BandView,
    h1: GaugeView,
    after1: BandView,
    before2: BandView,
    h2: GaugeView,
    after2: BandView,
)
    requires
        canvas::mixes(blend),
        band_step(blend, g, before1, true, h1, after1),
        band_step(blend, g, before2, true, h2, after2),
    ensures
        after1 == after2,
        h1 == h2,
{
    lemma_shown_once(
        blend,
        g.cpu,
        g.mem,
        g.host,
        g.host_col,
        band_row(g.done),
        after1,
        after2,
    );
}

/// A band of a face is fixed by the face.
proof fn lemma_shown_once<F: Fn(Rgba, Rgba) -> Rgba>(
    blend: F,
    cpu: FaceView,
    mem: FaceView,
    host: Seq<char>,
    host_col: Rgba,
    y0: int,
    one: BandView,
    other: BandView,
)
    requires
        canvas::mixes(blend),
        shows(blend, cpu, mem, host, host_col, y0, one),
        shows(blend, cpu, mem, host, host_col, y0, other),
    ensures
        one == other,
{
    let (l1, u1, w1) = choose|lined: BandView, upper: BandView, lower: BandView|
        {
            &&& canvas::drawn(blend, ground(y0), shapes::grid(), lined)
            &&& #[trigger] shapes::dialled(blend, lined, cpu.track, cpu.arc, cpu.colour, upper)
            &&& #[trigger] shapes::dialled(blend, upper, mem.track, mem.arc, mem.colour, lower)
            &&& one == titled(lower, cpu, mem, host, host_col)
        };
    let (l2, u2, w2) = choose|lined: BandView, upper: BandView, lower: BandView|
        {
            &&& canvas::drawn(blend, ground(y0), shapes::grid(), lined)
            &&& #[trigger] shapes::dialled(blend, lined, cpu.track, cpu.arc, cpu.colour, upper)
            &&& #[trigger] shapes::dialled(blend, upper, mem.track, mem.arc, mem.colour, lower)
            &&& other == titled(lower, cpu, mem, host, host_col)
        };
    canvas::lemma_drawn_once(blend, ground(y0), shapes::grid(), l1, l2);
    shapes::lemma_dialled_once(blend, l1, cpu.track, cpu.arc, cpu.colour, u1, u2);
    shapes::lemma_dialled_once(blend, u1, mem.track, mem.arc, mem.colour, w1, w2);
}

/// Whether the two faces look the same: each band of the one is that of the other.
pub open spec fn look_same<F>(blend: F, g: GaugeView, h: GaugeView) -> bool where
    F: Fn(Rgba, Rgba) -> Rgba,
 {
    forall|k: int, a: BandView, b: BandView|
        #![trigger band_of(blend, g, k, a), band_of(blend, h, k, b)]
        band_of(blend, g, k, a) && band_of(blend, h, k, b) ==> a == b
}

/// A face looks the same wherever it is drawn.
proof fn lemma_looks_like_itself<F: Fn(Rgba, Rgba) -> Rgba>(blend: F, g: GaugeView)
    requires
        canvas::mixes(blend),
    ensures
        look_same(blend, g, g),
{
    assert forall|k: int, a: BandView, b: BandView|
        #![trigger band_of(blend, g, k, a), band_of(blend, g, k, b)]
        band_of(blend, g, k, a) && band_of(blend, g, k, b) implies a == b by {
        lemma_shown_once(blend, g.cpu, g.mem, g.host, g.host_col, band_row(k), a, b);
    }
}

/// Two faces for the same values look the same.
pub proof fn lemma_same_values_look_same<
    P: Fn(u32, Dial) -> DialPlan,
    F: Fn(Rgba, Rgba) -> Rgba,
>(
    plan: P,
    blend: F,
    cpu: Option<u32>,
    mem: Option<u32>,
    hostname: Seq<char>,
    reachable: bool,
    g: GaugeView,
    h: GaugeView,
)
    requires
        plans(plan),
        canvas::mixes(blend),
        gauge_of(plan, cpu, mem, hostname, reachable, g),
        gauge_of(plan, cpu, mem, hostname, reachable, h),
    ensures
        g == h,
        look_same(blend, g, h),
{
    lemma_looks_like_itself(blend, g);
}

/// A host that cannot be reached looks the same whatever was measured and whatever it is called.
pub proof fn lemma_unreachable_looks_same<
    P: Fn(u32, Dial) -> DialPlan,
    F: Fn(Rgba, Rgba) -> Rgba,
>(
    plan: P,
    blend: F,
    cpu1: Option<u32>,
    mem1: Option<u32>,
    hostname1: Seq<char>,
    g: GaugeView,
    cpu2: Option<u32>,
    mem2: Option<u32>,
    hostname2: Seq<char>,
    h: GaugeView,
)
    requires
        plans(plan),
        canvas::mixes(blend),
        gauge_of(plan, cpu1, mem1, hostname1, false, g),
        gauge_of(plan, cpu2, mem2, hostname2, false, h),
    ensures
        g == h,
        look_same(blend, g, h),
{
    lemma_looks_like_itself(blend, g);
}

/// Two paintings of faces that look the same give the same bands, and leave the same one.
proof fn lemma_paintings_agree<F: Fn(Rgba, Rgba) -> Rgba>(
    blend: F,
    faces1: Seq<GaugeView>,
    bands1: Seq<BandView>,
    faces2: Seq<GaugeView>,
    bands2: Seq<BandView>,
)
    requires
        canvas::mixes(blend),
        painting(blend, faces1, bands1),
        painting(blend, faces2, bands2),
        faces1[0] == faces2[0],
        faces1[0].done == 0,
    ensures
        same_bands(bands1, bands2),
{
    lemma_all_bands_given(blend, faces1, bands1);
    lemma_all_bands_given(blend, faces2, bands2);
    lemma_looks_like_itself(blend, faces1[0]);
    assert forall|i: int| 1 <= i < bands1.len() implies #[trigger] bands1[i] == bands2[i] by {
        assert(band_of(blend, faces1[0], i - 1, bands1[i]));
        assert(band_of(blend, faces1[0], i - 1, bands2[i]));
    }
    assert(bands1.last() == bands1[BAND_COUNT as int]);
}

/// Whether two paintings gave the same six bands, and left the last rows of the display in their
/// buffers.
pub open spec fn same_bands(bands1: Seq<BandView>, bands2: Seq<BandView>) -> bool {
    &&& bands1.len() == BAND_COUNT + 1
    &&& bands2.len() == BAND_COUNT + 1
    &&& forall|i: int| 1 <= i < bands1.len() ==> #[trigger] bands1[i] == bands2[i]
    &&& bands1.last() == bands2.last()
    &&& bands1.last().y0 == SIZE - BAND_HEIGHT
    &&& bands1.last().height == BAND_HEIGHT
}

/// A buffer can be used for one display after the other: two paintings for the same values give
/// the same bands and leave the same one, whatever their buffers held before.
pub proof fn lemma_same_values_painted<P: Fn(u32, Dial) -> DialPlan, F: Fn(Rgba, Rgba) -> Rgba>(
    plan: P,
    blend: F,
    cpu: Option<u32>,
    mem: Option<u32>,
    hostname: Seq<char>,
    reachable: bool,
    faces1: Seq<GaugeView>,
    bands1: Seq<BandView>,
    faces2: Seq<GaugeView>,
    bands2: Seq<BandView>,
)
    requires
        plans(plan),
        canvas::mixes(blend),
        painting(blend, faces1, bands1),
        painting(blend, faces2, bands2),
        gauge_of(plan, cpu, mem, hostname, reachable, faces1[0]),
        gauge_of(plan, cpu, mem, hostname, reachable, faces2[0]),
    ensures
        same_bands(bands1, bands2),
{
    lemma_same_values_look_same(
        plan,
        blend,
        cpu,
        mem,
        hostname,
        reachable,
        faces1[0],
        faces2[0],
    );
    lemma_paintings_agree(blend, faces1, bands1, faces2, bands2);
}

/// Two paintings of a host that cannot be reached give the same bands, whatever was measured and
/// whatever it is called.
pub proof fn lemma_unreachable_painted<P: Fn(u32, Dial) -> DialPlan, F: Fn(Rgba, Rgba) -> Rgba>(
    plan: P,
    blend: F,
    cpu1: Option<u32>,
    mem1: Option<u32>,
    hostname1: Seq<char>,
    faces1: Seq<GaugeView>,
    bands1: Seq<BandView>,
    cpu2: Option<u32>,
    mem2: Option<u32>,
    hostname2: Seq<char>,
    faces2: Seq<GaugeView>,
    bands2: Seq<BandView>,
)
    requires
        plans(plan),
        canvas::mixes(blend),
        painting(blend, faces1, bands1),
        painting(blend, faces2, bands2),
        gauge_of(plan, cpu1, mem1, hostname1, false, faces1[0]),
        gauge_of(plan, cpu2, mem2, hostname2, false, faces2[0]),
    ensures
        same_bands(bands1, bands2),
{
    lemma_unreachable_looks_same(
        plan,
        blend,
        cpu1,
        mem1,
        hostname1,
        faces1[0],
        cpu2,
        mem2,
        hostname2,
        faces2[0],
    );
    lemma_paintings_agree(blend, faces1, bands1, faces2, bands2);
}

/// The stops of the scale of load: where they stand, and their colours.
pub open spec fn stops() -> Seq<(u32, Rgba)> {
    seq![
        (0x0000_0000u32, Rgba { r: 0x33, g: 0x88, b: 0xff, a: 255 }),
        (0x4204_0000u32, Rgba { r: 0x44, g: 0xcc, b: 0x66, a: 255 }),
        (0x4284_0000u32, Rgba { r: 0xff, g: 0xaa, b: 0x33, a: 255 }),
        (0x42c8_0000u32, Rgba { r: 0xff, g: 0x44, b: 0x44, a: 255 }),
    ]
}

/// A load lies between two neighbouring stops, 0, 33, 66 and 100 per cent, and is given the colours
/// of these two: blue, green, orange and red. A load on a stop belongs to the stops up to it.
pub proof fn lemma_span_between_stops(percent: u32, span: Option<LevelSpan>)
    requires
        call_ensures(level_span, (percent,), span),
    ensures
        span is None <==> binary32::is_nan(percent),
        span matches Some(s) ==> exists|k: int|
            {
                &&& 0 <= k < 3
                &&& (s.low, s.from) == #[trigger] stops()[k]
                &&& (s.high, s.to) == stops()[k + 1]
                &&& binary32::at_most(binary32::clamped_percent(percent), s.high)
                &&& k > 0 ==> binary32::less(s.low, binary32::clamped_percent(percent))
            },
{
    lemma_span_holds(percent);
    binary32::lemma_named_encodings();
    binary32::lemma_clamped_percent_range(percent);
    if let Some(s) = span {
        if s.high == stops()[1].0 {
            assert((s.low, s.from) == stops()[0]);
        } else if s.high == stops()[2].0 {
            assert((s.low, s.from) == stops()[1]);
        } else {
            assert((s.low, s.from) == stops()[2]);
        }
    }
}

/// A dial shows what was measured, held between 0 and 100, where its host is reachable, and has no
/// value where it is not or nothing was measured.
pub proof fn lemma_dial_value(reachable: bool, value: Option<u32>, shown: u32, ok: bool)
    requires
        call_ensures(dial_value, (reachable, value), (shown, ok)),
    ensures
        shown == shown_value(reachable, value),
        ok == has_value(reachable, value),
        ok <==> reachable && value is Some,
        ok ==> shown == binary32::clamped_percent(value->0),
        !ok ==> shown == 0,
{
}

/// A dial is drawn from its plan: the points are those of the plan, a value has the colour of its
/// load and its text, and a dial without one is grey and says `n/a`.
pub proof fn lemma_face(ok: bool, p: DialPlan)
    ensures
        face_of(ok, p).track == p.track@,
        face_of(ok, p).arc == p.arc@,
        ok ==> face_of(ok, p).colour == p.level,
        !ok ==> face_of(ok, p).colour == (Rgba { r: 136, g: 140, b: 148, a: 255 }),
        face_of(ok, p).text == label::percent(p.rounded as int, ok),
        !ok ==> face_of(ok, p).text == "n/a"@,
{
}

/// Each dial is drawn for its own value and for its own place, the upper one for the CPU and the
/// lower one for the memory, and between them stands the host in the colour of texts, or that it is
/// down in red. No band is handed out yet.
pub proof fn lemma_gauge<P: Fn(u32, Dial) -> DialPlan>(
    plan: P,
    cpu: Option<u32>,
    mem: Option<u32>,
    hostname: Seq<char>,
    reachable: bool,
    g: GaugeView,
    c: DialPlan,
    m: DialPlan,
)
    requires
        plans(plan),
        gauge_of(plan, cpu, mem, hostname, reachable, g),
        call_ensures(
            plan,
            (
                if reachable && cpu is Some {
                    binary32::clamped_percent(cpu->0)
                } else {
                    0u32
                },
                Dial::Cpu,
            ),
            c,
        ),
        call_ensures(
            plan,
            (
                if reachable && mem is Some {
                    binary32::clamped_percent(mem->0)
                } else {
                    0u32
                },
                Dial::Mem,
            ),
            m,
        ),
    ensures
        g.cpu == face_of(reachable && cpu is Some, c),
        g.mem == face_of(reachable && mem is Some, m),
        reachable ==> g.host == hostname && g.host_col == (Rgba { r: 210, g: 215, b: 220, a: 255 }),
        !reachable ==> g.host == "DOWN"@ && g.host_col == (Rgba { r: 255, g: 59, b: 48, a: 255 }),
        g.done == 0,
{
}

/// Bands are 40 rows each, one behind the other.
pub proof fn lemma_band_rows(k: int)
    ensures
        band_row(0) == 0,
        band_row(k + 1) == band_row(k) + 40,
        band_row(6) == SIZE,
{
}

/// The picture of a text on the face, in the middle column and centred at this row.
pub open spec fn face_text(text: Seq<char>, cy: int, big: bool, y0: int) -> Seq<u8> {
    label::label_picture(text, 120, cy, big, y0)
}

/// The texts lie over everything else, from top to bottom: the name of the upper dial and its
/// value, the host in the middle, the value of the lower dial and its name, mirrored about the
/// middle row. Each has the colour of what it belongs to, the values in the larger font. A pixel
/// that no text covers is that of the dials: the upper one over the grid, and the lower one over
/// both.
pub proof fn lemma_texts_on_top<F: Fn(Rgba, Rgba) -> Rgba>(
    blend: F,
    cpu: FaceView,
    mem: FaceView,
    host: Seq<char>,
    host_col: Rgba,
    y0: int,
    after: BandView,
    lined: BandView,
    upper: BandView,
    lower: BandView,
    x: int,
    y: int,
)
    requires
        canvas::mixes(blend),
        shows(blend, cpu, mem, host, host_col, y0, after),
        canvas::drawn(blend, ground(y0), shapes::grid(), lined),
        shapes::dialled(blend, lined, cpu.track, cpu.arc, cpu.colour, upper),
        shapes::dialled(blend, upper, mem.track, mem.arc, mem.colour, lower),
        canvas::sound(lower),
        lower.y0 == y0,
        lower.holds(x, y),
    ensures
        ({
            let i = (y - y0) * 240 + x;
            let of_cpu = canvas::packed(cpu.colour.r, cpu.colour.g, cpu.colour.b);
            let of_mem = canvas::packed(mem.colour.r, mem.colour.g, mem.colour.b);
            let of_host = canvas::packed(host_col.r, host_col.g, host_col.b);
            let value = 78int;
            let name = 46int;
            after.pixel(x, y) == if label::lit(face_text("MEM"@, 240 - name, false, y0), i) {
                of_mem
            } else if label::lit(face_text(mem.text, 240 - value, true, y0), i) {
                of_mem
            } else if label::lit(face_text(host, 120, false, y0), i) {
                of_host
            } else if label::lit(face_text(cpu.text, value, true, y0), i) {
                of_cpu
            } else if label::lit(face_text("CPU"@, name, false, y0), i) {
                of_cpu
            } else {
                lower.pixel(x, y)
            }
        }),
{
    let (l, u, w) = choose|l: BandView, u: BandView, w: BandView|
        {
            &&& canvas::drawn(blend, ground(y0), shapes::grid(), l)
            &&& #[trigger] shapes::dialled(blend, l, cpu.track, cpu.arc, cpu.colour, u)
            &&& #[trigger] shapes::dialled(blend, u, mem.track, mem.arc, mem.colour, w)
            &&& after == titled(w, cpu, mem, host, host_col)
        };
    canvas::lemma_drawn_once(blend, ground(y0), shapes::grid(), l, lined);
    shapes::lemma_dialled_once(blend, l, cpu.track, cpu.arc, cpu.colour, u, upper);
    shapes::lemma_dialled_once(blend, u, mem.track, mem.arc, mem.colour, w, lower);
    let a = lettered(w, "CPU"@, cpu.colour, 46, false);
    let b = lettered(a, cpu.text, cpu.colour, 78, true);
    let c = lettered(b, host, host_col, 120, false);
    let d = lettered(c, mem.text, mem.colour, 162, true);
    lemma_lettered(w, "CPU"@, cpu.colour, 46, false, x, y);
    lemma_lettered(a, cpu.text, cpu.colour, 78, true, x, y);
    lemma_lettered(b, host, host_col, 120, false, x, y);
    lemma_lettered(c, mem.text, mem.colour, 162, true, x, y);
    lemma_lettered(d, "MEM"@, mem.colour, 194, false, x, y);
}

/// A text covers the pixels of its picture.
proof fn lemma_lettered(b: BandView, text: Seq<char>, col: Rgba, cy: int, big: bool, x: int, y: int)
    requires
        canvas::sound(b),
        b.holds(x, y),
    ensures
        ({
            let after = lettered(b, text, col, cy, big);
            &&& canvas::sound(after)
            &&& after.y0 == b.y0
            &&& after.holds(x, y)
            &&& after.pixel(x, y) == if label::lit(
                face_text(text, cy, big, b.y0),
                (y - b.y0) * 240 + x,
            ) {
                canvas::packed(col.r, col.g, col.b)
            } else {
                b.pixel(x, y)
            }
        }),
{
    let picture = label::label_picture(text, CENTER as int, cy, big, b.y0);
    label::lemma_stamped(b, picture, canvas::packed(col.r, col.g, col.b), x, y);
}

/// The ground of a band: 40 rows of one colour from its first row on.
pub proof fn lemma_ground(y0: int, x: int, y: int)
    requires
        0 <= x < 240,
        y0 <= y < y0 + 40,
    ensures
        ground(y0).y0 == y0,
        ground(y0).height == 40,
        canvas::sound(ground(y0)),
        ground(y0).pixel(x, y) == canvas::packed(11, 14, 18),
{
}

} // verus!
