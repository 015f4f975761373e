//! Streaming Prometheus text parser for node-exporter and mon64 exports.
//!
//! The parser reads the body byte by byte and keeps, of each metric it knows,
//! the text of its value. Turning these texts into numbers and adding them up
//! is floating-point arithmetic and is left to the caller, who hands the
//! outcome back as `Figures`; all decisions on them are made here.

use vstd::prelude::*;

use crate::binary32;
use crate::bounded;
use crate::bounded::Items;
use crate::text;

verus! {

/// Rolling CPU counters needed to compute usage between scrapes. The numbers
/// are encoded as `binary32` describes.
#[derive(Clone, Copy)]
pub struct CpuHistory {
    pub idle: u32,
    pub total: u32,
    pub valid: bool,
}

impl Default for CpuHistory {
    fn default() -> (r: Self)
        ensures
            r == (CpuHistory { idle: binary32::ZERO, total: binary32::ZERO, valid: false }),
    {
        CpuHistory { idle: binary32::ZERO, total: binary32::ZERO, valid: false }
    }
}

/// Parsed gauge stats for one host. The numbers are encoded as `binary32`
/// describes.
#[derive(Clone, Copy)]
pub struct GaugeStats {
    pub cpu_percent: Option<u32>,
    pub mem_percent: Option<u32>,
    pub reachable: bool,
}

/// No percentages, and not reachable.
pub open spec fn no_stats() -> GaugeStats {
    GaugeStats { cpu_percent: None, mem_percent: None, reachable: false }
}

impl Default for GaugeStats {
    fn default() -> (r: Self)
        ensures
            r == no_stats(),
    {
        GaugeStats { cpu_percent: None, mem_percent: None, reachable: false }
    }
}

/// One CPU counter of a node-exporter body.
pub struct CpuSample {
    /// The counter's value, as written.
    pub seconds: String,
    /// The counter is that of the idle mode.
    pub idle: bool,
}

/// The values that a body gave so far, as written.
pub struct Readings {
    /// mon64 pre-normalized percents (preferred when present).
    pub mon64_cpu: Option<String>,
    pub mon64_mem: Option<String>,
    pub mon64_reachable: Option<String>,
    /// The CPU counters that were not taken out yet, in the order of their lines.
    pub cpu: Vec<CpuSample>,
    /// A CPU counter was read.
    pub cpu_seen: bool,
    pub mem_total: Option<String>,
    pub mem_available: Option<String>,
}

/// `Readings` as mathematical values.
pub struct ReadingsView {
    pub mon64_cpu: Option<Seq<char>>,
    pub mon64_mem: Option<Seq<char>>,
    pub mon64_reachable: Option<Seq<char>>,
    pub cpu: Seq<(Seq<char>, bool)>,
    pub cpu_seen: bool,
    pub mem_total: Option<Seq<char>>,
    pub mem_available: Option<Seq<char>>,
}

/// The characters of a text that may be missing.
pub open spec fn optional_text(s: Option<String>) -> Option<Seq<char>> {
    match s {
        Some(t) => Some(t@),
        None => None,
    }
}

impl View for CpuSample {
    type V = (Seq<char>, bool);

    open spec fn view(&self) -> (Seq<char>, bool) {
        (self.seconds@, self.idle)
    }
}

impl View for Readings {
    type V = ReadingsView;

    open spec fn view(&self) -> ReadingsView {
        ReadingsView {
            mon64_cpu: optional_text(self.mon64_cpu),
            mon64_mem: optional_text(self.mon64_mem),
            mon64_reachable: optional_text(self.mon64_reachable),
            cpu: self.cpu@.map_values(|s: CpuSample| s@),
            cpu_seen: self.cpu_seen,
            mem_total: optional_text(self.mem_total),
            mem_available: optional_text(self.mem_available),
        }
    }
}

/// No value yet.
pub open spec fn no_readings() -> ReadingsView {
    ReadingsView {
        mon64_cpu: None,
        mon64_mem: None,
        mon64_reachable: None,
        cpu: seq![],
        cpu_seen: false,
        mem_total: None,
        mem_available: None,
    }
}

/// A decimal digit.
pub open spec fn is_digit(c: char) -> bool {
    '0' <= c && c <= '9'
}

/// The first index from `i` on whose character is no digit, or the length.
pub open spec fn digits_end(s: Seq<char>, i: int) -> int
    decreases s.len() - i,
{
    if i < s.len() && is_digit(s[i]) {
        digits_end(s, i + 1)
    } else {
        i
    }
}

/// `s` ends at `i`, or goes on there with an exponent and ends behind it.
pub open spec fn is_exponent_at(s: Seq<char>, i: int) -> bool {
    ||| i == s.len()
    ||| {
        let digits = if i + 1 < s.len() && (s[i + 1] == '+' || s[i + 1] == '-') {
            i + 2
        } else {
            i + 1
        };
        &&& s[i] == 'e' || s[i] == 'E'
        &&& digits < s.len()
        &&& digits_end(s, digits) == s.len()
    }
}

/// A decimal number without a sign: digits with a point among, before or
/// behind them or none, and an exponent or none.
pub open spec fn is_decimal(s: Seq<char>) -> bool {
    let whole = digits_end(s, 0);
    if whole < s.len() && s[whole] == '.' {
        let end = digits_end(s, whole + 1);
        whole + (end - whole - 1) > 0 && is_exponent_at(s, end)
    } else {
        whole > 0 && is_exponent_at(s, whole)
    }
}

/// `s` without the sign it may begin with.
pub open spec fn without_sign(s: Seq<char>) -> Seq<char> {
    if s.len() > 0 && (s[0] == '+' || s[0] == '-') {
        s.skip(1)
    } else {
        s
    }
}

/// The texts that name a floating-point number.
pub open spec fn is_float(s: Seq<char>) -> bool {
    let t = without_sign(s);
    ||| text::same_ignoring_ascii_case(t, "inf"@)
    ||| text::same_ignoring_ascii_case(t, "infinity"@)
    ||| text::same_ignoring_ascii_case(t, "nan"@)
    ||| is_decimal(t)
}

/// `s`, where it names a number and is neither `NaN` nor holds `Inf`.
pub open spec fn float_text(s: Seq<char>) -> Option<Seq<char>> {
    if text::same_ignoring_ascii_case(s, "nan"@) || text::occurs_in(s, "Inf"@) {
        None
    } else if is_float(s) {
        Some(s)
    } else {
        None
    }
}

/// The first index from `i` on at which a name ends, with white space or labels, or the length.
pub open spec fn name_end(s: Seq<char>, i: int) -> int
    decreases s.len() - i,
{
    if i < s.len() && s[i] != '{' && !text::is_white_space(s[i]) {
        name_end(s, i + 1)
    } else {
        i
    }
}

/// The index behind the brace that closes the labels, where `i` is an index within them, in a
/// quoted value or not. In a quoted value a backslash takes the character behind it along.
pub open spec fn labels_end(s: Seq<char>, i: int, quoted: bool) -> Option<int>
    decreases s.len() - i + 1,
{
    if i >= s.len() {
        None
    } else if quoted && s[i] == '\\' {
        labels_end(s, i + 2, true)
    } else if s[i] == '"' {
        labels_end(s, i + 1, !quoted)
    } else if !quoted && s[i] == '}' {
        Some(i + 1)
    } else {
        labels_end(s, i + 1, quoted)
    }
}

/// What follows a metric's name and its labels, behind white space: the value, and a timestamp or
/// none. Where the labels are not closed it is what follows the last space. What has no end to a
/// name in it is all value.
pub open spec fn behind_labels(rest: Seq<char>) -> Seq<char> {
    let end = name_end(rest, 0);
    if end >= rest.len() {
        rest
    } else {
        let at = text::skip_white(rest, end);
        if at < rest.len() && rest[at] == '{' {
            match labels_end(rest, at + 1, false) {
                Some(k) => if k < rest.len() && text::is_white_space(rest[k]) {
                    rest.skip(k)
                } else {
                    seq![]
                },
                None => rest.skip(text::behind_last(rest, ' ', rest.len() as int)),
            }
        } else {
            rest.skip(at)
        }
    }
}

/// The value in what follows a metric's name: the first word behind the labels. A timestamp
/// behind it is stripped.
pub open spec fn prom_value(rest: Seq<char>) -> Option<Seq<char>> {
    let words = text::trimmed(behind_labels(rest));
    if words.len() == 0 {
        None
    } else {
        float_text(words.take(text::word_end(words, 0)))
    }
}

/// The labels name the idle mode.
pub open spec fn mode_is_idle(rest: Seq<char>) -> bool {
    text::occurs_in(rest, "mode=\"idle\""@) || text::occurs_in(rest, "mode='idle'"@)
}

/// A metric's name ends here: labels or a value follow.
pub open spec fn name_ends(rest: Seq<char>) -> bool {
    rest.len() > 0 && (rest[0] == '{' || rest[0] == ' ' || rest[0] == '\t')
}

/// `new` where there is one, else `old`.
pub open spec fn latest(new: Option<Seq<char>>, old: Option<Seq<char>>) -> Option<Seq<char>> {
    if new is Some {
        new
    } else {
        old
    }
}

/// The readings after one line of the body.
pub open spec fn after_line(r: ReadingsView, line: Seq<char>) -> ReadingsView {
    let l = text::trimmed(line);
    if l.len() == 0 || l[0] == '#' {
        r
    } else if let Some(rest) = text::after_prefix(l, "mon64_node_cpu_percent"@) {
        ReadingsView { mon64_cpu: latest(prom_value(rest), r.mon64_cpu), ..r }
    } else if let Some(rest) = text::after_prefix(l, "mon64_node_mem_used_percent"@) {
        ReadingsView { mon64_mem: latest(prom_value(rest), r.mon64_mem), ..r }
    } else if let Some(rest) = text::after_prefix(l, "mon64_node_reachable"@) {
        ReadingsView { mon64_reachable: latest(prom_value(rest), r.mon64_reachable), ..r }
    } else if let Some(rest) = text::after_prefix(l, "node_cpu_seconds_total"@) {
        match prom_value(rest) {
            Some(v) => ReadingsView {
                cpu: r.cpu.push((v, mode_is_idle(rest))),
                cpu_seen: true,
                ..r
            },
            None => r,
        }
    } else if let Some(rest) = text::after_prefix(l, "node_memory_MemTotal_bytes"@) {
        if name_ends(rest) {
            ReadingsView { mem_total: prom_value(rest), ..r }
        } else {
            r
        }
    } else if let Some(rest) = text::after_prefix(l, "node_memory_MemAvailable_bytes"@) {
        if name_ends(rest) {
            ReadingsView { mem_available: prom_value(rest), ..r }
        } else {
            r
        }
    } else {
        r
    }
}

/// A parser as a mathematical value: the line it is in, and what it has read.
pub struct ParserView {
    pub line: Seq<u8>,
    pub readings: ReadingsView,
}

/// The number of bytes of a line that are kept; the rest of it is dropped.
pub open spec fn line_limit() -> int {
    256
}

/// The parser at the end of the line it is in.
pub open spec fn flushed(p: ParserView) -> ParserView {
    if p.line.len() == 0 {
        p
    } else {
        ParserView {
            line: seq![],
            readings: if vstd::utf8::valid_utf8(p.line) {
                after_line(p.readings, vstd::utf8::decode_utf8(p.line))
            } else {
                p.readings
            },
        }
    }
}

/// The parser after one byte of the body.
pub open spec fn pushed_byte(p: ParserView, b: u8) -> ParserView {
    if b == 0x0a {
        flushed(p)
    } else if b != 0x0d && p.line.len() < line_limit() {
        ParserView { line: p.line.push(b), ..p }
    } else {
        p
    }
}

/// The parser after the bytes `s` of the body.
pub open spec fn pushed(p: ParserView, s: Seq<u8>) -> ParserView
    decreases s.len(),
{
    if s.len() == 0 {
        p
    } else {
        pushed_byte(pushed(p, s.drop_last()), s.last())
    }
}

/// The parser without the CPU counters that it holds.
pub open spec fn cpu_taken(p: ParserView) -> ParserView {
    ParserView { readings: ReadingsView { cpu: seq![], ..p.readings }, ..p }
}

/// What floating-point arithmetic makes of a parser's readings and a history.
/// All numbers are encoded as `binary32` describes. A number whose readings are
/// missing is not looked at.
pub struct Figures {
    /// The values of the mon64 readings.
    pub mon64_cpu: u32,
    pub mon64_mem: u32,
    pub mon64_reachable: u32,
    /// The total memory.
    pub mem_total: u32,
    /// The share of memory in use, in percent: `(total - available) / total * 100`.
    pub mem_used: u32,
    /// The sum of the idle CPU counters, and that of all of them, those taken out included.
    pub cpu_idle: u32,
    pub cpu_total: u32,
    /// How far `cpu_total` is ahead of the history's.
    pub cpu_step: u32,
    /// The share of the step that was not idle, in percent:
    /// `100 * (1 - (idle - old idle) / step)`.
    pub cpu_used: u32,
}

/// A body with both mon64 percentages is a mon64 export, which needs nothing of node-exporter.
pub open spec fn is_mon64(r: ReadingsView) -> bool {
    r.mon64_cpu is Some && r.mon64_mem is Some
}

/// The memory percentage of a node-exporter body.
pub open spec fn mem_percent_of(r: ReadingsView, f: Figures) -> Option<u32> {
    if r.mem_total is Some && r.mem_available is Some && binary32::less(
        binary32::ZERO,
        f.mem_total,
    ) {
        Some(binary32::clamped_percent(f.mem_used))
    } else {
        None
    }
}

/// The CPU percentage of a node-exporter body, after the scrape in `h`.
pub open spec fn cpu_percent_of(r: ReadingsView, h: CpuHistory, f: Figures) -> Option<u32> {
    if r.cpu_seen && h.valid && binary32::less(binary32::ZERO, f.cpu_step) {
        Some(binary32::clamped_percent(f.cpu_used))
    } else {
        None
    }
}

/// The stats that a finished body gives. A mon64 percentage is preferred where it is present.
pub open spec fn stats_of(r: ReadingsView, h: CpuHistory, f: Figures) -> GaugeStats {
    let cpu_percent = if r.mon64_cpu is Some {
        Some(binary32::clamped_percent(f.mon64_cpu))
    } else {
        cpu_percent_of(r, h, f)
    };
    let mem_percent = if r.mon64_mem is Some {
        Some(binary32::clamped_percent(f.mon64_mem))
    } else {
        mem_percent_of(r, f)
    };
    GaugeStats {
        cpu_percent,
        mem_percent,
        reachable: if is_mon64(r) {
            r.mon64_reachable is Some ==> {
                &&& !binary32::is_nan(f.mon64_reachable)
                &&& !binary32::less(f.mon64_reachable, binary32::HALF)
            }
        } else {
            cpu_percent is Some || mem_percent is Some
        },
    }
}

/// The history that a finished body leaves.
pub open spec fn history_of(r: ReadingsView, h: CpuHistory, f: Figures) -> CpuHistory {
    if !is_mon64(r) && r.cpu_seen {
        CpuHistory { idle: f.cpu_idle, total: f.cpu_total, valid: true }
    } else {
        h
    }
}

/// Accumulator while streaming a Prometheus body.
pub struct MetricsParser {
    readings: Readings,
    line: heapless::Vec<u8, 256>,
}

impl View for MetricsParser {
    type V = ParserView;

    closed spec fn view(&self) -> ParserView {
        ParserView { line: self.line.items(), readings: self.readings@ }
    }
}

impl Default for MetricsParser {
    fn default() -> (r: Self)
        ensures
            r@ == (ParserView { line: seq![], readings: no_readings() }),
    {
        Self::new()
    }
}

impl MetricsParser {
    /// A parser that has read nothing.
    pub fn new() -> (r: Self)
        ensures
            r@ == (ParserView { line: seq![], readings: no_readings() }),
    {
        let r = MetricsParser {
            readings: Readings {
                mon64_cpu: None,
                mon64_mem: None,
                mon64_reachable: None,
                cpu: Vec::new(),
                cpu_seen: false,
                mem_total: None,
                mem_available: None,
            },
            line: bounded::new_bytes(),
        };
        assert(r.readings@.cpu =~= no_readings().cpu);
        assert(r@.line =~= seq![]);
        r
    }

    /// What has been read so far.
    pub fn readings(&self) -> (r: &Readings)
        ensures
            r@ == self@.readings,
    {
        &self.readings
    }

    /// Feed a body chunk; completes when the HTTP body is fully consumed.
    pub fn push(&mut self, chunk: &[u8])
        ensures
            final(self)@ == pushed(old(self)@, chunk@),
    {
        let n: usize = chunk.len();
        let mut i: usize = 0;
        assert(chunk@.take(0) =~= seq![]);
        while i < n
            invariant
                i <= n,
                n == chunk@.len(),
                self@ == pushed(old(self)@, chunk@.take(i as int)),
            decreases n - i,
        {
            let b: u8 = chunk[i];
            assert(chunk@.take(i + 1).drop_last() =~= chunk@.take(i as int));
            if b == 0x0a {
                self.flush_line();
            } else if b != 0x0d {
                let _ = bounded::push_byte(&mut self.line, b);
            }
            i += 1;
        }
        assert(chunk@.take(n as int) =~= chunk@);
    }

    /// Takes out the CPU counters that were read. Taking them out as they come keeps the parser
    /// small, however many there are.
    pub fn take_cpu(&mut self) -> (r: Vec<CpuSample>)
        ensures
            r@.map_values(|s: CpuSample| s@) == old(self)@.readings.cpu,
            final(self)@ == cpu_taken(old(self)@),
    {
        let mut samples: Vec<CpuSample> = Vec::new();
        std::mem::swap(&mut samples, &mut self.readings.cpu);
        assert(self@.readings.cpu =~= seq![]);
        samples
    }

    /// Ends the line that the parser is in.
    pub fn flush_line(&mut self)
        ensures
            final(self)@ == flushed(old(self)@),
    {
        let bytes = bounded::line_slice(&self.line);
        if bytes.len() == 0 {
            return;
        }
        let mut held: Vec<u8> = Vec::new();
        let n: usize = bytes.len();
        let mut i: usize = 0;
        while i < n
            invariant
                i <= n,
                n == bytes@.len(),
                held@ == bytes@.take(i as int),
            decreases n - i,
        {
            held.push(bytes[i]);
            i += 1;
        }
        assert(held@ =~= self.line.items());
        bounded::clear_bytes(&mut self.line);
        assert(self@.line =~= seq![]);
        if let Some(line) = text::utf8_text(held.as_slice()) {
            self.parse_line(line);
        }
    }

    fn parse_line(&mut self, line: &str)
        ensures
            final(self)@ == (ParserView {
                line: old(self)@.line,
                readings: after_line(old(self)@.readings, line@),
            }),
    {
        let line = text::trim(line);
        let comment: usize = text::find_char(line, '#');
        proof {
            text::lemma_find_from(line@, '#', 0);
        }
        if line.is_empty() || comment == 0 {
            return;
        }
        // mon64 normalized export
        if let Some(rest) = text::strip_prefix(line, "mon64_node_cpu_percent") {
            if let Some(v) = parse_prom_value(rest) {
                self.readings.mon64_cpu = Some(v.to_owned());
            }
            return;
        }
        if let Some(rest) = text::strip_prefix(line, "mon64_node_mem_used_percent") {
            if let Some(v) = parse_prom_value(rest) {
                self.readings.mon64_mem = Some(v.to_owned());
            }
            return;
        }
        if let Some(rest) = text::strip_prefix(line, "mon64_node_reachable") {
            if let Some(v) = parse_prom_value(rest) {
                self.readings.mon64_reachable = Some(v.to_owned());
            }
            return;
        }
        // node-exporter CPU counters
        if let Some(rest) = text::strip_prefix(line, "node_cpu_seconds_total") {
            if let Some(v) = parse_prom_value(rest) {
                let sample = CpuSample { seconds: v.to_owned(), idle: label_mode_is_idle(rest) };
                self.readings.cpu.push(sample);
                self.readings.cpu_seen = true;
                assert(self.readings@.cpu =~= old(self).readings@.cpu.push(sample@));
            }
            return;
        }
        if let Some(rest) = text::strip_prefix(line, "node_memory_MemTotal_bytes") {
            // Avoid matching longer names that share the prefix.
            if starts_labels_or_value(rest) {
                self.readings.mem_total = owned_text(parse_prom_value(rest));
            }
            return;
        }
        if let Some(rest) = text::strip_prefix(line, "node_memory_MemAvailable_bytes") {
            if starts_labels_or_value(rest) {
                self.readings.mem_available = owned_text(parse_prom_value(rest));
            }
        }
    }

    /// Ends the body: the stats that it gives, with the history brought up to
    /// date. `figures` are those of the readings after `flush_line`.
    pub fn finish(&mut self, history: &mut CpuHistory, figures: &Figures) -> (r: GaugeStats)
        ensures
            final(self)@ == flushed(old(self)@),
            r == stats_of(final(self)@.readings, *old(history), *figures),
            *final(history) == history_of(final(self)@.readings, *old(history), *figures),
    {
        self.flush_line();
        let readings = &self.readings;
        let mon64 = readings.mon64_cpu.is_some() && readings.mon64_mem.is_some();
        let mem_percent = if readings.mon64_mem.is_some() {
            Some(binary32::clamp_percent(figures.mon64_mem))
        } else if readings.mem_total.is_some() && readings.mem_available.is_some()
            && binary32::is_less(binary32::ZERO, figures.mem_total) {
            Some(binary32::clamp_percent(figures.mem_used))
        } else {
            None
        };
        let cpu_percent = if readings.mon64_cpu.is_some() {
            Some(binary32::clamp_percent(figures.mon64_cpu))
        } else if readings.cpu_seen && history.valid && binary32::is_less(
            binary32::ZERO,
            figures.cpu_step,
        ) {
            Some(binary32::clamp_percent(figures.cpu_used))
        } else {
            None
        };
        if !mon64 && readings.cpu_seen {
            history.idle = figures.cpu_idle;
            history.total = figures.cpu_total;
            history.valid = true;
        }
        let reachable = if mon64 {
            readings.mon64_reachable.is_none() || binary32::is_at_least_half(
                figures.mon64_reachable,
            )
        } else {
            cpu_percent.is_some() || mem_percent.is_some()
        };
        GaugeStats { cpu_percent, mem_percent, reachable }
    }
}

/// Convenience: feed one chunk into an existing parser.
pub fn parse_prometheus_chunk(parser: &mut MetricsParser, chunk: &[u8])
    ensures
        final(parser)@ == pushed(old(parser)@, chunk@),
{
    parser.push(chunk);
}

/// A text that may be missing, as one's own.
fn owned_text(s: Option<&str>) -> (r: Option<String>)
    ensures
        optional_text(r) == (match s {
            Some(t) => Some(t@),
            None => None,
        }),
{
    match s {
        Some(t) => Some(t.to_owned()),
        None => None,
    }
}

/// A metric's name ends here: labels or a value follow.
fn starts_labels_or_value(rest: &str) -> (r: bool)
    ensures
        r == name_ends(rest@),
{
    let cs = text::chars_of(rest);
    cs.len() > 0 && (cs[0] == '{' || cs[0] == ' ' || cs[0] == '\t')
}

/// The labels of a CPU counter name the idle mode.
pub fn label_mode_is_idle(rest: &str) -> (r: bool)
    ensures
        r == mode_is_idle(rest@),
{
    // node_cpu_seconds_total{cpu="0",mode="idle"} 123
    text::contains(rest, "mode=\"idle\"") || text::contains(rest, "mode='idle'")
}

/// The text of the value in `rest`, which is what follows the metric name:
/// `{labels} value` or ` value`.
pub fn parse_prom_value<'a>(rest: &'a str) -> (r: Option<&'a str>)
    ensures
        match r {
            Some(v) => prom_value(rest@) == Some(v@),
            None => prom_value(rest@) is None,
        },
{
    let words = text::trim(after_labels(rest));
    if words.is_empty() {
        return None;
    }
    parse_float(text::first_word(words))
}

/// What follows a metric's name and its labels.
fn after_labels<'a>(rest: &'a str) -> (r: &'a str)
    ensures
        r@ == behind_labels(rest@),
{
    let cs = text::chars_of(rest);
    let n: usize = cs.len();
    let mut end: usize = 0;
    while end < n && cs[end] != '{' && !text::white_space(cs[end])
        invariant
            end <= n,
            n == cs@.len(),
            cs@ == rest@,
            name_end(rest@, 0) == name_end(rest@, end as int),
        decreases n - end,
    {
        end += 1;
    }
    if end >= n {
        return rest;
    }
    let mut at: usize = end;
    while at < n && text::white_space(cs[at])
        invariant
            end <= at <= n,
            n == cs@.len(),
            cs@ == rest@,
            text::skip_white(rest@, end as int) == text::skip_white(rest@, at as int),
        decreases n - at,
    {
        at += 1;
    }
    let start: usize = if at < n && cs[at] == '{' {
        match close_labels(&cs, at + 1) {
            Some(k) => if k < n && text::white_space(cs[k]) {
                k
            } else {
                n
            },
            None => {
                let behind = text::after_last_char(rest, ' ');
                return behind;
            },
        }
    } else {
        at
    };
    let behind = vstd::string::StrSliceExecFns::substring_char(rest, start, n);
    assert(behind@ =~= behind_labels(rest@));
    behind
}

/// The index behind the brace that closes the labels that `i` is within.
fn close_labels(cs: &Vec<char>, i: usize) -> (r: Option<usize>)
    requires
        i <= cs@.len(),
    ensures
        match r {
            Some(k) => labels_end(cs@, i as int, false) == Some(k as int) && k <= cs@.len(),
            None => labels_end(cs@, i as int, false) is None,
        },
{
    let n: usize = cs.len();
    let mut k: usize = i;
    let mut quoted: bool = false;
    while k < n
        invariant
            k <= n,
            n == cs@.len(),
            labels_end(cs@, i as int, false) == labels_end(cs@, k as int, quoted),
        decreases n - k,
    {
        if quoted && cs[k] == '\\' {
            if n - k < 2 {
                assert(labels_end(cs@, k + 2, true) is None);
                return None;
            }
            k += 2;
        } else if cs[k] == '"' {
            quoted = !quoted;
            k += 1;
        } else if !quoted && cs[k] == '}' {
            return Some(k + 1);
        } else {
            k += 1;
        }
    }
    None
}

/// The index behind the digits that begin at `i`.
fn skip_digits(cs: &Vec<char>, i: usize) -> (r: usize)
    requires
        i <= cs@.len(),
    ensures
        r == digits_end(cs@, i as int),
        i <= r <= cs@.len(),
{
    let n: usize = cs.len();
    let mut k: usize = i;
    while k < n && '0' <= cs[k] && cs[k] <= '9'
        invariant
            i <= k <= n,
            n == cs@.len(),
            digits_end(cs@, i as int) == digits_end(cs@, k as int),
        decreases n - k,
    {
        k += 1;
    }
    k
}

/// `s`, where it names a number (`1.23`, `1.23e+09`) and is neither `NaN` nor
/// holds `Inf`.
pub fn parse_float<'a>(s: &'a str) -> (r: Option<&'a str>)
    ensures
        match r {
            Some(v) => float_text(s@) == Some(v@),
            None => float_text(s@) is None,
        },
{
    if text::eq_ignoring_ascii_case(s, "nan") || text::contains(s, "Inf") {
        return None;
    }
    if names_float(s) {
        Some(s)
    } else {
        None
    }
}

/// `s` names a floating-point number.
pub fn names_float(s: &str) -> (r: bool)
    ensures
        r == is_float(s@),
{
    let cs = text::chars_of(s);
    let start: usize = if cs.len() > 0 && (cs[0] == '+' || cs[0] == '-') { 1 } else { 0 };
    let t = vstd::string::StrSliceExecFns::substring_char(s, start, cs.len());
    assert(t@ =~= without_sign(s@));
    text::eq_ignoring_ascii_case(t, "inf") || text::eq_ignoring_ascii_case(t, "infinity")
        || text::eq_ignoring_ascii_case(t, "nan") || names_decimal(t)
}

/// `s` is a decimal number without a sign.
fn names_decimal(s: &str) -> (r: bool)
    ensures
        r == is_decimal(s@),
{
    let cs = text::chars_of(s);
    let n: usize = cs.len();
    let whole: usize = skip_digits(&cs, 0);
    let mut end: usize = whole;
    let mut count: usize = whole;
    if whole < n && cs[whole] == '.' {
        end = skip_digits(&cs, whole + 1);
        count = end - 1;
    }
    if count == 0 {
        return false;
    }
    if end == n {
        return true;
    }
    if cs[end] != 'e' && cs[end] != 'E' {
        return false;
    }
    let digits: usize = if end + 1 < n && (cs[end + 1] == '+' || cs[end + 1] == '-') {
        end + 2
    } else {
        end + 1
    };
    digits < n && skip_digits(&cs, digits) == n
}

/// A body is read the same however it is cut into pieces.
pub proof fn lemma_pushed_pieces(p: ParserView, a: Seq<u8>, b: Seq<u8>)
    ensures
        pushed(pushed(p, a), b) == pushed(p, a + b),
    decreases b.len(),
{
    if b.len() == 0 {
        assert(a + b =~= a);
    } else {
        lemma_pushed_pieces(p, a, b.drop_last());
        assert((a + b).drop_last() =~= a + b.drop_last());
        assert((a + b).last() == b.last());
    }
}

/// Carriage returns do not matter, wherever they stand.
pub proof fn lemma_carriage_returns_ignored(p: ParserView, s: Seq<u8>)
    ensures
        pushed(p, s) == pushed(p, s.filter(|b: u8| b != 0x0d)),
    decreases s.len(),
{
    reveal(Seq::filter);
    let keep = |b: u8| b != 0x0d;
    if s.len() > 0 {
        lemma_carriage_returns_ignored(p, s.drop_last());
        if keep(s.last()) {
            let rest = s.drop_last().filter(keep);
            assert(s.filter(keep) == rest.push(s.last()));
            assert(rest.push(s.last()).drop_last() =~= rest);
        }
    }
}

/// Within a line the bytes are kept as they come, up to the limit.
proof fn lemma_pushed_line(p: ParserView, s: Seq<u8>)
    requires
        p.line.len() == 0,
        forall|i: int| 0 <= i < s.len() ==> s[i] != 0x0a && s[i] != 0x0d,
    ensures
        pushed(p, s) == (ParserView {
            line: s.take(
                if s.len() < line_limit() {
                    s.len() as int
                } else {
                    line_limit()
                },
            ),
            ..p
        }),
    decreases s.len(),
{
    if s.len() == 0 {
        assert(s.take(0) =~= p.line);
    } else {
        lemma_pushed_line(p, s.drop_last());
        let n = if s.len() < line_limit() {
            s.len() as int
        } else {
            line_limit()
        };
        if s.len() <= line_limit() {
            assert(s.drop_last().take(s.len() - 1).push(s.last()) =~= s.take(n));
        } else {
            assert(s.drop_last().take(n) =~= s.take(n));
        }
    }
}

/// A line is read on its line feed, and only as far as the limit: what is behind it is dropped.
/// A line that is not valid UTF-8 gives nothing.
pub proof fn lemma_line_is_read(p: ParserView, line: Seq<u8>)
    requires
        p.line.len() == 0,
        forall|i: int| 0 <= i < line.len() ==> line[i] != 0x0a && line[i] != 0x0d,
    ensures
        ({
            let kept = kept_line(line);
            pushed(p, line.push(0x0a)) == ParserView {
                line: p.line,
                readings: if vstd::utf8::valid_utf8(kept) {
                    after_line(p.readings, vstd::utf8::decode_utf8(kept))
                } else {
                    p.readings
                },
            }
        }),
{
    lemma_pushed_line(p, line);
    assert(line.push(0x0a).drop_last() =~= line);
    assert(p.line =~= seq![]);
    if line.len() == 0 {
        let kept = line.take(0);
        assert(kept =~= seq![]);
        assert(vstd::utf8::decode_utf8(kept) =~= seq![]);
        assert(text::trimmed(Seq::<char>::empty()).len() == 0);
    }
}

/// The names of the metrics that are read.
pub open spec fn known_names() -> Seq<Seq<char>> {
    seq![
        "mon64_node_cpu_percent"@,
        "mon64_node_mem_used_percent"@,
        "mon64_node_reachable"@,
        "node_cpu_seconds_total"@,
        "node_memory_MemTotal_bytes"@,
        "node_memory_MemAvailable_bytes"@,
    ]
}

/// Whether a line says nothing to the gauge: it is blank, a comment, or of a metric that is not
/// read.
pub open spec fn is_ignored(line: Seq<char>) -> bool {
    let l = text::trimmed(line);
    ||| l.len() == 0
    ||| l[0] == '#'
    ||| forall|i: int|
        0 <= i < known_names().len() ==> text::after_prefix(l, #[trigger] known_names()[i]) is None
}

/// Blank lines, comments and other metrics give nothing.
pub proof fn lemma_ignored_line(r: ReadingsView, line: Seq<char>)
    requires
        is_ignored(line),
    ensures
        after_line(r, line) == r,
{
    let l = text::trimmed(line);
    let names = known_names();
    if l.len() > 0 && l[0] != '#' {
        assert(text::after_prefix(l, names[0]) is None);
        assert(text::after_prefix(l, names[1]) is None);
        assert(text::after_prefix(l, names[2]) is None);
        assert(text::after_prefix(l, names[3]) is None);
        assert(text::after_prefix(l, names[4]) is None);
        assert(text::after_prefix(l, names[5]) is None);
    }
}

/// What is kept of a line.
pub open spec fn kept_line(line: Seq<u8>) -> Seq<u8> {
    line.take(
        if line.len() < line_limit() {
            line.len() as int
        } else {
            line_limit()
        },
    )
}

/// Whether the bytes of a line say nothing to the gauge.
pub open spec fn is_ignored_line(line: Seq<u8>) -> bool {
    vstd::utf8::valid_utf8(kept_line(line)) ==> is_ignored(
        vstd::utf8::decode_utf8(kept_line(line)),
    )
}

/// A body made of these lines.
pub open spec fn body_of(lines: Seq<Seq<u8>>) -> Seq<u8>
    decreases lines.len(),
{
    if lines.len() == 0 {
        seq![]
    } else {
        body_of(lines.drop_last()) + lines.last().push(0x0a)
    }
}

/// The lines without those that say nothing to the gauge.
pub open spec fn told(lines: Seq<Seq<u8>>) -> Seq<Seq<u8>>
    decreases lines.len(),
{
    if lines.len() == 0 {
        seq![]
    } else if is_ignored_line(lines.last()) {
        told(lines.drop_last())
    } else {
        told(lines.drop_last()).push(lines.last())
    }
}

/// Lines that say nothing can be left out of a body, or be put anywhere into it: the parser has
/// read the same, so that the stats and the history are the same too.
pub proof fn lemma_ignored_lines_left_out(p: ParserView, lines: Seq<Seq<u8>>)
    requires
        p.line.len() == 0,
        forall|i: int, k: int|
            0 <= i < lines.len() && 0 <= k < lines[i].len() ==> (#[trigger] lines[i][k]) != 0x0a
                && lines[i][k] != 0x0d,
    ensures
        pushed(p, body_of(lines)) == pushed(p, body_of(told(lines))),
        pushed(p, body_of(lines)).line == p.line,
    decreases lines.len(),
{
    if lines.len() > 0 {
        let most = lines.drop_last();
        let line = lines.last();
        assert forall|i: int, k: int| 0 <= i < most.len() && 0 <= k < most[i].len() implies (
        #[trigger] most[i][k]) != 0x0a && most[i][k] != 0x0d by {
            assert(lines[i][k] == most[i][k]);
        }
        lemma_ignored_lines_left_out(p, most);
        let q = pushed(p, body_of(most));
        assert forall|k: int| 0 <= k < line.len() implies line[k] != 0x0a && line[k] != 0x0d by {
            assert(lines[lines.len() - 1][k] == line[k]);
        }
        lemma_line_is_read(q, line);
        lemma_pushed_pieces(p, body_of(most), line.push(0x0a));
        if is_ignored_line(line) {
            if vstd::utf8::valid_utf8(kept_line(line)) {
                lemma_ignored_line(q.readings, vstd::utf8::decode_utf8(kept_line(line)));
            }
        } else {
            let kept = told(most);
            assert(kept.push(line).drop_last() =~= kept);
            lemma_pushed_pieces(p, body_of(kept), line.push(0x0a));
        }
    }
}

/// `r` with the CPU counters of `taken` before its own.
pub open spec fn with_cpu(taken: Seq<(Seq<char>, bool)>, r: ReadingsView) -> ReadingsView {
    ReadingsView { cpu: taken + r.cpu, ..r }
}

/// Taking out the CPU counters as they come loses none and changes nothing else: those taken out
/// before and those found after are those of the whole body, in order.
pub proof fn lemma_cpu_taken(p: ParserView, s: Seq<u8>)
    ensures
        pushed(p, s).line == pushed(cpu_taken(p), s).line,
        pushed(p, s).readings == with_cpu(p.readings.cpu, pushed(cpu_taken(p), s).readings),
        flushed(p).readings == with_cpu(p.readings.cpu, flushed(cpu_taken(p)).readings),
    decreases s.len(),
{
    let taken = p.readings.cpu;
    lemma_after_line_apart(taken, cpu_taken(p).readings, vstd::utf8::decode_utf8(p.line));
    assert(taken + Seq::<(Seq<char>, bool)>::empty() =~= taken);
    assert(with_cpu(taken, cpu_taken(p).readings) == p.readings);
    if s.len() > 0 {
        lemma_cpu_taken(p, s.drop_last());
        let q = pushed(cpu_taken(p), s.drop_last());
        lemma_after_line_apart(taken, q.readings, vstd::utf8::decode_utf8(q.line));
    }
}

/// A line is read the same whatever CPU counters were read before.
proof fn lemma_after_line_apart(taken: Seq<(Seq<char>, bool)>, r: ReadingsView, line: Seq<char>)
    ensures
        after_line(with_cpu(taken, r), line) == with_cpu(taken, after_line(r, line)),
{
    assert forall|x: (Seq<char>, bool)| (taken + r.cpu).push(x) =~= taken + #[trigger] r.cpu.push(
        x,
    ) by {}
}

/// Labels as they are written: in braces, the last character closing them.
pub open spec fn is_labels(s: Seq<char>) -> bool {
    s.len() > 0 && s[0] == '{' && labels_end(s, 1, false) == Some(s.len() as int)
}

/// Labels end where they did when more is written behind them.
proof fn lemma_labels_end_stays(s: Seq<char>, t: Seq<char>, i: int, quoted: bool)
    requires
        0 <= i,
        labels_end(s, i, quoted) is Some,
    ensures
        labels_end(s + t, i, quoted) == labels_end(s, i, quoted),
    decreases s.len() - i + 1,
{
    assert((s + t)[i] == s[i]);
    if quoted && s[i] == '\\' {
        lemma_labels_end_stays(s, t, i + 2, true);
    } else if s[i] == '"' {
        lemma_labels_end_stays(s, t, i + 1, !quoted);
    } else if !quoted && s[i] == '}' {
    } else {
        lemma_labels_end_stays(s, t, i + 1, quoted);
    }
}

/// Whether a text is one word.
pub open spec fn is_word(s: Seq<char>) -> bool {
    s.len() > 0 && forall|i: int| 0 <= i < s.len() ==> !text::is_white_space(#[trigger] s[i])
}

/// The value of a sample is the word behind its labels or its name, whatever stands behind a
/// space after it: a timestamp is stripped.
pub proof fn lemma_value_behind_labels(labels: Seq<char>, value: Seq<char>, tail: Seq<char>)
    requires
        labels.len() == 0 || is_labels(labels),
        is_word(value),
        value[0] != '{',
        tail.len() > 0 ==> tail[0] == ' ',
    ensures
        prom_value(labels + seq![' '] + value + tail) == float_text(value),
{
    let rest = labels + seq![' '] + value + tail;
    let n = labels.len() as int;
    assert(text::is_white_space(' '));
    assert(rest[n] == ' ');
    assert(rest[n + 1] == value[0]);
    if n == 0 {
        assert(name_end(rest, 0) == 0);
        assert(text::skip_white(rest, 1) == 1);
        assert(text::skip_white(rest, 0) == 1);
        assert(rest.skip(1) =~= value + tail);
        text::lemma_first_word(Seq::empty(), value, tail);
        assert(Seq::<char>::empty() + value + tail =~= value + tail);
    } else {
        assert(rest[0] == '{');
        assert(!text::is_white_space('{'));
        assert(name_end(rest, 0) == 0);
        assert(text::skip_white(rest, 0) == 0);
        lemma_labels_end_stays(labels, seq![' '] + value + tail, 1, false);
        assert(labels + (seq![' '] + value + tail) =~= rest);
        assert(rest.skip(n) =~= seq![' '] + value + tail);
        text::lemma_first_word(seq![' '], value, tail);
    }
}

/// A line that begins with a metric's name is taken for that metric.
proof fn lemma_sample_line(name: Seq<char>, tail: Seq<char>)
    requires
        name.len() > 0,
        !text::is_white_space(name[0]),
        tail.len() > 0,
        !text::is_white_space(tail.last()),
    ensures
        text::trimmed(name + tail) == name + tail,
        text::after_prefix(name + tail, name) == Some(tail),
{
    let l = name + tail;
    assert(l[0] == name[0] && l.last() == tail.last());
    assert(text::skip_white(l, 0) == 0);
    assert(text::drop_white(l, 0, l.len() as int) == l.len());
    assert(l.subrange(0, l.len() as int) =~= l);
    assert(l.skip(name.len() as int) =~= tail);
    assert(name.is_prefix_of(l));
}

/// Where two names differ, a line with the one does not begin with the other.
proof fn lemma_other_name(other: Seq<char>, name: Seq<char>, tail: Seq<char>, i: int)
    requires
        0 <= i < other.len(),
        i < name.len(),
        other[i] != name[i],
    ensures
        text::after_prefix(name + tail, other) is None,
{
    assert((name + tail)[i] == name[i]);
}

/// Where the names of the known metrics differ.
proof fn lemma_names()
    ensures
        ({
            let a = "mon64_node_cpu_percent"@;
            let b = "mon64_node_mem_used_percent"@;
            let c = "mon64_node_reachable"@;
            let d = "node_cpu_seconds_total"@;
            let e = "node_memory_MemTotal_bytes"@;
            let f = "node_memory_MemAvailable_bytes"@;
            &&& a.len() > 15 && b.len() > 15 && c.len() > 15
            &&& d.len() > 15 && e.len() > 15 && f.len() > 15
            &&& a[0] == 'm' && b[0] == 'm' && c[0] == 'm'
            &&& d[0] == 'n' && e[0] == 'n' && f[0] == 'n'
            &&& a[11] == 'c' && b[11] == 'm' && c[11] == 'r'
            &&& d[5] == 'c' && e[5] == 'm' && f[5] == 'm'
            &&& e[15] == 'T' && f[15] == 'A'
        }),
{
    reveal_strlit("mon64_node_cpu_percent");
    reveal_strlit("mon64_node_mem_used_percent");
    reveal_strlit("mon64_node_reachable");
    reveal_strlit("node_cpu_seconds_total");
    reveal_strlit("node_memory_MemTotal_bytes");
    reveal_strlit("node_memory_MemAvailable_bytes");
}

/// What is written behind a metric's name: labels or none, the value, and a timestamp or none.
pub struct Sample {
    pub labels: Seq<char>,
    pub value: Seq<char>,
    pub timestamp: Seq<char>,
}

/// Whether a sample is written as it should be.
pub open spec fn is_sample(s: Sample) -> bool {
    &&& s.labels.len() == 0 || is_labels(s.labels)
    &&& is_word(s.value)
    &&& float_text(s.value) is Some
    &&& s.timestamp.len() == 0 || is_word(s.timestamp)
}

/// A sample as it is written behind its metric's name.
pub open spec fn written(s: Sample) -> Seq<char> {
    s.labels + seq![' '] + s.value + if s.timestamp.len() == 0 {
        seq![]
    } else {
        seq![' '] + s.timestamp
    }
}

/// A sample gives its value, behind a name that ends where it begins.
proof fn lemma_sample(s: Sample)
    requires
        is_sample(s),
    ensures
        prom_value(written(s)) == Some(s.value),
        name_ends(written(s)),
        !text::is_white_space(written(s).last()),
{
    let tail = if s.timestamp.len() == 0 {
        seq![]
    } else {
        seq![' '] + s.timestamp
    };
    let w = written(s);
    lemma_float_is_no_brace(s.value);
    lemma_value_behind_labels(s.labels, s.value, tail);
    assert(s.labels.len() == 0 ==> w[0] == ' ');
    assert(s.labels.len() > 0 ==> w[0] == s.labels[0]);
    if s.timestamp.len() == 0 {
        assert(w.last() == s.value.last());
        assert(!text::is_white_space(s.value[s.value.len() - 1]));
    } else {
        assert(w.last() == s.timestamp.last());
        assert(!text::is_white_space(s.timestamp[s.timestamp.len() - 1]));
    }
}

/// No number begins with a brace.
proof fn lemma_float_is_no_brace(s: Seq<char>)
    requires
        float_text(s) is Some,
        s.len() > 0,
    ensures
        s[0] != '{',
{
    reveal_strlit("inf");
    reveal_strlit("infinity");
    reveal_strlit("nan");
    if s[0] == '{' {
        assert(without_sign(s) == s);
        assert(digits_end(s, 0) == 0);
        assert(text::ascii_lower(s[0]) == '{');
    }
}

/// A CPU percentage of mon64 is read.
pub proof fn lemma_mon64_cpu_read(r: ReadingsView, s: Sample)
    requires
        is_sample(s),
    ensures
        after_line(r, "mon64_node_cpu_percent"@ + written(s)) == (ReadingsView {
            mon64_cpu: Some(s.value),
            ..r
        }),
{
    lemma_names();
    lemma_sample(s);
    lemma_sample_line("mon64_node_cpu_percent"@, written(s));
}

/// A memory percentage of mon64 is read.
pub proof fn lemma_mon64_mem_read(r: ReadingsView, s: Sample)
    requires
        is_sample(s),
    ensures
        after_line(r, "mon64_node_mem_used_percent"@ + written(s)) == (ReadingsView {
            mon64_mem: Some(s.value),
            ..r
        }),
{
    let name = "mon64_node_mem_used_percent"@;
    lemma_names();
    lemma_sample(s);
    lemma_sample_line(name, written(s));
    lemma_other_name("mon64_node_cpu_percent"@, name, written(s), 11);
}

/// Whether mon64 reaches the host is read.
pub proof fn lemma_mon64_reachable_read(r: ReadingsView, s: Sample)
    requires
        is_sample(s),
    ensures
        after_line(r, "mon64_node_reachable"@ + written(s)) == (ReadingsView {
            mon64_reachable: Some(s.value),
            ..r
        }),
{
    let name = "mon64_node_reachable"@;
    lemma_names();
    lemma_sample(s);
    lemma_sample_line(name, written(s));
    lemma_other_name("mon64_node_cpu_percent"@, name, written(s), 11);
    lemma_other_name("mon64_node_mem_used_percent"@, name, written(s), 11);
}

/// The names of mon64 are not those of node-exporter.
proof fn lemma_no_mon64_name(name: Seq<char>, tail: Seq<char>)
    requires
        name.len() > 0,
        name[0] == 'n',
    ensures
        text::after_prefix(name + tail, "mon64_node_cpu_percent"@) is None,
        text::after_prefix(name + tail, "mon64_node_mem_used_percent"@) is None,
        text::after_prefix(name + tail, "mon64_node_reachable"@) is None,
{
    lemma_names();
    lemma_other_name("mon64_node_cpu_percent"@, name, tail, 0);
    lemma_other_name("mon64_node_mem_used_percent"@, name, tail, 0);
    lemma_other_name("mon64_node_reachable"@, name, tail, 0);
}

/// A CPU counter of node-exporter is read, and whether it is that of the idle mode.
pub proof fn lemma_node_cpu_read(r: ReadingsView, s: Sample)
    requires
        is_sample(s),
    ensures
        after_line(r, "node_cpu_seconds_total"@ + written(s)) == (ReadingsView {
            cpu: r.cpu.push((s.value, mode_is_idle(written(s)))),
            cpu_seen: true,
            ..r
        }),
{
    let name = "node_cpu_seconds_total"@;
    lemma_names();
    lemma_sample(s);
    lemma_sample_line(name, written(s));
    lemma_no_mon64_name(name, written(s));
}

/// The total memory of node-exporter is read.
pub proof fn lemma_node_mem_total_read(r: ReadingsView, s: Sample)
    requires
        is_sample(s),
    ensures
        after_line(r, "node_memory_MemTotal_bytes"@ + written(s)) == (ReadingsView {
            mem_total: Some(s.value),
            ..r
        }),
{
    let name = "node_memory_MemTotal_bytes"@;
    lemma_names();
    lemma_sample(s);
    lemma_sample_line(name, written(s));
    lemma_no_mon64_name(name, written(s));
    lemma_other_name("node_cpu_seconds_total"@, name, written(s), 5);
}

/// The available memory of node-exporter is read.
pub proof fn lemma_node_mem_available_read(r: ReadingsView, s: Sample)
    requires
        is_sample(s),
    ensures
        after_line(r, "node_memory_MemAvailable_bytes"@ + written(s)) == (ReadingsView {
            mem_available: Some(s.value),
            ..r
        }),
{
    let name = "node_memory_MemAvailable_bytes"@;
    lemma_names();
    lemma_sample(s);
    lemma_sample_line(name, written(s));
    lemma_no_mon64_name(name, written(s));
    lemma_other_name("node_cpu_seconds_total"@, name, written(s), 5);
    lemma_other_name("node_memory_MemTotal_bytes"@, name, written(s), 15);
}

/// The CPU usage of a node-exporter host takes two scrapes: the first gives none but is kept,
/// and each one after it gives one where its counters are ahead of those before.
pub proof fn lemma_cpu_needs_two_scrapes(
    r1: ReadingsView,
    h: CpuHistory,
    f1: Figures,
    r2: ReadingsView,
    f2: Figures,
)
    requires
        !h.valid,
        r1.mon64_cpu is None,
        r2.mon64_cpu is None,
        r1.cpu_seen,
        r2.cpu_seen,
    ensures
        stats_of(r1, h, f1).cpu_percent is None,
        history_of(r1, h, f1) == (CpuHistory {
            idle: f1.cpu_idle,
            total: f1.cpu_total,
            valid: true,
        }),
        stats_of(r2, history_of(r1, h, f1), f2).cpu_percent is Some <==> binary32::less(
            binary32::ZERO,
            f2.cpu_step,
        ),
{
}

/// A mon64 percentage is preferred where it is present: it is used whatever else the body says,
/// and whether the other one is there or not.
pub proof fn lemma_mon64_preferred(r: ReadingsView, h: CpuHistory, f: Figures)
    ensures
        r.mon64_cpu is Some ==> stats_of(r, h, f).cpu_percent == Some(
            binary32::clamped_percent(f.mon64_cpu),
        ),
        r.mon64_mem is Some ==> stats_of(r, h, f).mem_percent == Some(
            binary32::clamped_percent(f.mon64_mem),
        ),
        r.mon64_cpu is Some != r.mon64_mem is Some ==> stats_of(r, h, f).reachable,
{
}

/// With both mon64 percentages nothing else of the body matters, but whether the host is
/// reachable, and the history stays as it is.
pub proof fn lemma_mon64_suffices(
    r: ReadingsView,
    other: ReadingsView,
    h: CpuHistory,
    g: CpuHistory,
    f: Figures,
)
    requires
        is_mon64(r),
        other.mon64_cpu == r.mon64_cpu,
        other.mon64_mem == r.mon64_mem,
        other.mon64_reachable == r.mon64_reachable,
    ensures
        stats_of(other, g, f) == stats_of(r, h, f),
        history_of(r, h, f) == h,
{
}

/// A percentage lies between 0 and 100, or is not a number.
pub open spec fn is_percent(v: Option<u32>) -> bool {
    v matches Some(p) ==> binary32::is_nan(p) || (binary32::at_most(binary32::ZERO, p)
        && binary32::at_most(p, binary32::HUNDRED))
}

/// Whatever the arithmetic gives, both percentages lie between 0 and 100 or are not numbers, and
/// a host without either is not reachable.
pub proof fn lemma_stats_in_range(r: ReadingsView, h: CpuHistory, f: Figures)
    ensures
        is_percent(stats_of(r, h, f).cpu_percent),
        is_percent(stats_of(r, h, f).mem_percent),
        stats_of(r, h, f).reachable ==> stats_of(r, h, f).cpu_percent is Some || stats_of(
            r,
            h,
            f,
        ).mem_percent is Some,
{
    binary32::lemma_named_encodings();
    binary32::lemma_clamped_percent_range(f.mon64_cpu);
    binary32::lemma_clamped_percent_range(f.mon64_mem);
    binary32::lemma_clamped_percent_range(f.cpu_used);
    binary32::lemma_clamped_percent_range(f.mem_used);
}

/// Whatever the history was, a body with CPU counters that is no mon64 export leaves its own sums
/// in it, so that each usage is measured from the scrape right before it. Any other body leaves the
/// history alone.
pub proof fn lemma_history_is_of_last_scrape(r: ReadingsView, h: CpuHistory, f: Figures)
    ensures
        (r.mon64_cpu is None || r.mon64_mem is None) && r.cpu_seen ==> {
            let after = history_of(r, h, f);
            after.idle == f.cpu_idle && after.total == f.cpu_total && after.valid
        },
        !r.cpu_seen || (r.mon64_cpu is Some && r.mon64_mem is Some) ==> history_of(r, h, f) == h,
{
}

/// Whether the label `mode` is written once in `rest`, at index `at`, with the value `m` in quotes.
pub open spec fn one_mode(rest: Seq<char>, at: int, q: char, m: Seq<char>) -> bool {
    &&& q == '"' || q == '\''
    &&& forall|i: int| 0 <= i < m.len() ==> m[i] != q
    &&& text::occurs_at(rest, "mode="@ + seq![q] + m + seq![q], at)
    &&& forall|i: int| #[trigger] text::occurs_at(rest, "mode="@, i) ==> i == at
}

/// A CPU counter is that of the idle mode where its label `mode` has the value `idle`, and is that
/// of another mode where it has any other value or where there is no such label.
pub proof fn lemma_idle_is_the_mode(rest: Seq<char>, at: int, q: char, m: Seq<char>, idle: bool)
    requires
        idle == mode_is_idle(rest),
    ensures
        one_mode(rest, at, q, m) ==> idle == (m == "idle"@),
        !text::occurs_in(rest, "mode="@) ==> !idle,
{
    reveal_strlit("mode=");
    reveal_strlit("idle");
    reveal_strlit("mode=\"idle\"");
    reveal_strlit("mode='idle'");
    let double = "mode=\"idle\""@;
    let single = "mode='idle'"@;
    assert forall|n: Seq<char>, i: int|
        (n == double || n == single) && #[trigger] text::occurs_at(rest, n, i) implies
        text::occurs_at(rest, "mode="@, i) by {
        assert(rest.subrange(i, i + n.len())[0] == n[0]);
        assert(rest.subrange(i, i + 5) =~= rest.subrange(i, i + n.len()).take(5));
        assert(n.take(5) =~= "mode="@);
    }
    if idle {
        let n = if text::occurs_in(rest, double) { double } else { single };
        let i = choose|i: int| text::occurs_at(rest, n, i);
        assert(text::occurs_at(rest, n, i));
        assert(text::occurs_at(rest, "mode="@, i));
    }
    if one_mode(rest, at, q, m) {
        let whole = "mode="@ + seq![q] + m + seq![q];
        let end = at + whole.len();
        assert forall|j: int| 0 <= j < whole.len() implies rest[at + j] == whole[j] by {
            assert(rest.subrange(at, end)[j] == whole[j]);
        }
        if idle {
            let n = if text::occurs_in(rest, double) { double } else { single };
            let i = choose|i: int| text::occurs_at(rest, n, i);
            assert(i == at);
            assert forall|j: int| 0 <= j < 11 implies rest[at + j] == n[j] by {
                assert(rest.subrange(at, at + 11)[j] == n[j]);
            }
            assert(whole[5] == q);
            assert(n[5] == q);
            assert forall|j: int| 0 <= j < m.len() && j < 4 implies m[j] == "idle"@[j] by {
                assert(whole[6 + j] == m[j]);
                assert(n[6 + j] == "idle"@[j]);
            }
            if m.len() < 4 {
                assert(whole[6 + m.len() as int] == q);
                assert(n[6 + m.len() as int] == "idle"@[m.len() as int]);
            }
            if m.len() > 4 {
                assert(whole[10] == m[4]);
                assert(n[10] == q);
            }
            assert(m =~= "idle"@);
        }
        if m == "idle"@ {
            let n = if q == '"' { double } else { single };
            assert(whole =~= n);
            assert(text::occurs_at(rest, n, at));
        }
    }
}

/// A CPU counter of node-exporter is read with its value, as idle exactly where its mode is `idle`:
/// user, system, iowait and every other mode is not.
pub proof fn lemma_cpu_counter_of_mode(
    r: ReadingsView,
    s: Sample,
    at: int,
    q: char,
    m: Seq<char>,
)
    requires
        is_sample(s),
        one_mode(written(s), at, q, m),
    ensures
        after_line(r, "node_cpu_seconds_total"@ + written(s)) == (ReadingsView {
            cpu: r.cpu.push((s.value, m == "idle"@)),
            cpu_seen: true,
            ..r
        }),
{
    lemma_node_cpu_read(r, s);
    lemma_idle_is_the_mode(written(s), at, q, m, mode_is_idle(written(s)));
}

/// Whether the rest of `t` from index `i` on can stand in quotes: a quote and a backslash only
/// behind a backslash.
pub open spec fn can_be_quoted(t: Seq<char>, i: int) -> bool
    decreases t.len() - i + 1,
{
    if i >= t.len() {
        i == t.len()
    } else if t[i] == '\\' {
        can_be_quoted(t, i + 2)
    } else {
        t[i] != '"' && can_be_quoted(t, i + 1)
    }
}

/// Whether a text can stand between the quoted values of labels: it has no quote and no closing
/// brace in it.
pub open spec fn is_between(s: Seq<char>) -> bool {
    forall|i: int| 0 <= i < s.len() ==> s[i] != '"' && s[i] != '}'
}

/// Labels as they are written behind the opening brace: what stands before each value, the value in
/// quotes, and in the end what stands before the closing brace.
pub open spec fn label_list(labels: Seq<(Seq<char>, Seq<char>)>, last: Seq<char>) -> Seq<char>
    decreases labels.len(),
{
    if labels.len() == 0 {
        last + seq!['}']
    } else {
        labels[0].0 + seq!['"'] + labels[0].1 + seq!['"'] + label_list(labels.drop_first(), last)
    }
}

/// Nothing between quoted values ends the labels.
proof fn lemma_between_passed(s: Seq<char>, i: int, k: int)
    requires
        0 <= i <= k <= s.len(),
        forall|j: int| i <= j < k ==> s[j] != '"' && s[j] != '}',
    ensures
        labels_end(s, i, false) == labels_end(s, k, false),
    decreases k - i,
{
    if i < k {
        lemma_between_passed(s, i + 1, k);
    }
}

/// Nothing in quotes ends the labels, nor does an escaped quote end the value.
proof fn lemma_quoted_passed(s: Seq<char>, at: int, t: Seq<char>, i: int)
    requires
        0 <= at,
        0 <= i <= t.len(),
        at + t.len() < s.len(),
        forall|j: int| 0 <= j < t.len() ==> s[at + j] == #[trigger] t[j],
        s[at + t.len()] == '"',
        can_be_quoted(t, i),
    ensures
        labels_end(s, at + i, true) == labels_end(s, at + t.len() + 1, false),
    decreases t.len() - i,
{
    if i < t.len() {
        assert(s[at + i] == t[i]);
        if t[i] == '\\' {
            assert(can_be_quoted(t, i + 2));
            lemma_quoted_passed(s, at, t, i + 2);
        } else {
            lemma_quoted_passed(s, at, t, i + 1);
        }
    }
}

/// Labels end where the list of them does.
proof fn lemma_label_list_ends(
    before: Seq<char>,
    labels: Seq<(Seq<char>, Seq<char>)>,
    last: Seq<char>,
)
    requires
        forall|i: int|
            0 <= i < labels.len() ==> is_between((#[trigger] labels[i]).0) && can_be_quoted(
                labels[i].1,
                0,
            ),
        is_between(last),
    ensures
        ({
            let s = before + label_list(labels, last);
            labels_end(s, before.len() as int, false) == Some(s.len() as int)
        }),
    decreases labels.len(),
{
    let list = label_list(labels, last);
    let s = before + list;
    let n = before.len() as int;
    if labels.len() == 0 {
        assert forall|j: int| n <= j < n + last.len() implies s[j] != '"' && s[j] != '}' by {
            assert(s[j] == last[j - n]);
        }
        lemma_between_passed(s, n, n + last.len());
        assert(s[n + last.len()] == '}');
    } else {
        let (name, value) = labels[0];
        let rest = labels.drop_first();
        assert(is_between(labels[0].0) && can_be_quoted(labels[0].1, 0));
        assert forall|i: int| 0 <= i < rest.len() implies is_between((#[trigger] rest[i]).0)
            && can_be_quoted(rest[i].1, 0) by {
            assert(is_between(labels[i + 1].0));
        }
        let front = before + name + seq!['"'] + value + seq!['"'];
        assert(s =~= front + label_list(rest, last));
        assert forall|j: int| n <= j < n + name.len() implies s[j] != '"' && s[j] != '}' by {
            assert(s[j] == name[j - n]);
        }
        lemma_between_passed(s, n, n + name.len());
        let at = n + name.len() + 1;
        assert(s[at - 1] == '"');
        assert forall|j: int| 0 <= j < value.len() implies s[at + j] == #[trigger] value[j] by {}
        assert(s[at + value.len()] == '"');
        lemma_quoted_passed(s, at, value, 0);
        lemma_label_list_ends(front, rest, last);
    }
}

/// Labels in braces are taken for labels, whatever their values are: a brace, a space or an escaped
/// quote in a value does not end them, and the closing brace does.
pub proof fn lemma_labels_written(labels: Seq<(Seq<char>, Seq<char>)>, last: Seq<char>)
    requires
        forall|i: int|
            0 <= i < labels.len() ==> is_between((#[trigger] labels[i]).0) && can_be_quoted(
                labels[i].1,
                0,
            ),
        is_between(last),
    ensures
        is_labels(seq!['{'] + label_list(labels, last)),
{
    lemma_label_list_ends(seq!['{'], labels, last);
}

/// Whether a text can stand between a metric's name and what ends it.
pub open spec fn is_name_part(s: Seq<char>) -> bool {
    forall|i: int| 0 <= i < s.len() ==> s[i] != '{' && !text::is_white_space(#[trigger] s[i])
}

/// A name ends with white space or with labels.
proof fn lemma_name_end_at(s: Seq<char>, i: int, k: int)
    requires
        0 <= i <= k <= s.len(),
        forall|j: int| i <= j < k ==> s[j] != '{' && !text::is_white_space(#[trigger] s[j]),
        k < s.len() ==> s[k] == '{' || text::is_white_space(s[k]),
    ensures
        name_end(s, i) == k,
    decreases k - i,
{
    if i < k {
        lemma_name_end_at(s, i + 1, k);
    }
}

/// White space behind a name ends where something else stands.
proof fn lemma_gap_end(s: Seq<char>, i: int, k: int)
    requires
        0 <= i <= k <= s.len(),
        forall|j: int| i <= j < k ==> text::is_white_space(#[trigger] s[j]),
        k < s.len() ==> !text::is_white_space(s[k]),
    ensures
        text::skip_white(s, i) == k,
    decreases k - i,
{
    if i < k {
        lemma_gap_end(s, i + 1, k);
    }
}

/// The value of a sample is the first word behind its labels, or behind its name where it has none.
/// White space of any kind may stand between the name, the labels and the value, and something more
/// behind it.
pub proof fn lemma_value_read(
    name: Seq<char>,
    gap: Seq<char>,
    labels: Seq<char>,
    before: Seq<char>,
    value: Seq<char>,
    tail: Seq<char>,
)
    requires
        is_name_part(name),
        text::is_blank(gap),
        labels.len() == 0 ==> gap.len() == 0,
        labels.len() == 0 || is_labels(labels),
        before.len() > 0,
        text::is_blank(before),
        is_word(value),
        value[0] != '{',
        tail.len() > 0 ==> text::is_white_space(tail[0]),
    ensures
        prom_value(name + gap + labels + before + value + tail) == float_text(value),
{
    let rest = name + gap + labels + before + value + tail;
    let n = name.len() as int;
    assert forall|j: int| 0 <= j < n implies rest[j] != '{' && !text::is_white_space(
        #[trigger] rest[j],
    ) by {
        assert(rest[j] == name[j]);
    }
    assert(!text::is_white_space('{'));
    text::lemma_leading_word(before, value, tail);
    if labels.len() > 0 {
        let at = n + gap.len();
        assert forall|j: int| n <= j < at implies text::is_white_space(#[trigger] rest[j]) by {
            assert(rest[j] == gap[j - n]);
        }
        assert(rest[at] == labels[0]);
        if gap.len() > 0 {
            assert(rest[n] == gap[0]);
        }
        lemma_name_end_at(rest, 0, n);
        lemma_gap_end(rest, n, at);
        let front = name + gap;
        let back = before + value + tail;
        lemma_labels_shifted(front, labels, 1, false);
        lemma_labels_end_stays(front + labels, back, at + 1, false);
        assert((front + labels) + back =~= rest);
        let k = at + labels.len();
        assert(rest[k] == before[0]);
        assert(rest.skip(k) =~= back);
    } else {
        let at = n + before.len();
        assert forall|j: int| n <= j < at implies text::is_white_space(#[trigger] rest[j]) by {
            assert(rest[j] == before[j - n]);
        }
        assert(rest[n] == before[0]);
        assert(rest[at] == value[0]);
        assert(!text::is_white_space(value[0]));
        lemma_name_end_at(rest, 0, n);
        lemma_gap_end(rest, n, at);
        let none = Seq::<char>::empty();
        text::lemma_leading_word(none, value, tail);
        assert(rest.skip(at) =~= none + value + tail);
    }
}

/// Labels end the same behind something else.
proof fn lemma_labels_shifted(front: Seq<char>, s: Seq<char>, i: int, quoted: bool)
    requires
        0 <= i,
    ensures
        match labels_end(s, i, quoted) {
            Some(k) => labels_end(front + s, front.len() + i, quoted) == Some(front.len() + k),
            None => labels_end(front + s, front.len() + i, quoted) is None,
        },
    decreases s.len() - i + 1,
{
    let n = front.len() as int;
    if i < s.len() {
        assert((front + s)[n + i] == s[i]);
        if quoted && s[i] == '\\' {
            lemma_labels_shifted(front, s, i + 2, true);
        } else if s[i] == '"' {
            lemma_labels_shifted(front, s, i + 1, !quoted);
        } else if !quoted && s[i] == '}' {
        } else {
            lemma_labels_shifted(front, s, i + 1, quoted);
        }
    }
}

/// Where labels are closed, a value needs white space before it: what stands right behind the brace
/// is none. Where they are not closed, the value is the word behind the last space. What has
/// neither a brace nor white space in it is all value.
pub proof fn lemma_odd_samples(
    name: Seq<char>,
    labels: Seq<char>,
    tail: Seq<char>,
    open: Seq<char>,
    value: Seq<char>,
)
    requires
        is_name_part(name),
        is_word(value),
    ensures
        is_labels(labels) && (tail.len() > 0 ==> !text::is_white_space(tail[0])) ==> prom_value(
            name + labels + tail,
        ) is None,
        open.len() > 0 && open[0] == '{' && labels_end(
            open + seq![' '] + value,
            1,
            false,
        ) is None ==> prom_value(name + open + seq![' '] + value) == float_text(value),
        is_name_part(value) ==> prom_value(value) == float_text(value),
{
    let none = Seq::<char>::empty();
    let n = name.len() as int;
    assert(!text::is_white_space('{'));
    if is_labels(labels) && (tail.len() > 0 ==> !text::is_white_space(tail[0])) {
        let rest = name + labels + tail;
        assert(rest[n] == '{');
        assert forall|j: int| 0 <= j < n implies rest[j] != '{' && !text::is_white_space(
            #[trigger] rest[j],
        ) by {
            assert(rest[j] == name[j]);
        }
        lemma_name_end_at(rest, 0, n);
        lemma_gap_end(rest, n, n);
        lemma_labels_shifted(name, labels, 1, false);
        lemma_labels_end_stays(name + labels, tail, n + 1, false);
        let k = n + labels.len();
        if tail.len() > 0 {
            assert(rest[k] == tail[0]);
        }
        assert(behind_labels(rest) == none);
        text::lemma_trimmed(none, none, none);
        assert(none + none + none =~= none);
    }
    if open.len() > 0 && open[0] == '{' && labels_end(open + seq![' '] + value, 1, false) is None {
        let inner = open + seq![' '] + value;
        let rest = name + open + seq![' '] + value;
        assert(rest =~= name + inner);
        assert(rest[n] == '{');
        assert forall|j: int| 0 <= j < n implies rest[j] != '{' && !text::is_white_space(
            #[trigger] rest[j],
        ) by {
            assert(rest[j] == name[j]);
        }
        lemma_name_end_at(rest, 0, n);
        lemma_gap_end(rest, n, n);
        lemma_labels_shifted(name, inner, 1, false);
        let before = name + open + seq![' '];
        assert(before.last() == ' ');
        assert(text::is_white_space(' '));
        text::lemma_behind_last(before, ' ', value);
        assert(behind_labels(rest) == value);
        text::lemma_leading_word(none, value, none);
        assert(none + value + none =~= value);
    }
    if is_name_part(value) {
        lemma_name_end_at(value, 0, value.len() as int);
        text::lemma_leading_word(none, value, none);
        assert(none + value + none =~= value);
    }
}

/// Whether a text is made of decimal digits.
pub open spec fn are_digits(s: Seq<char>) -> bool {
    forall|i: int| 0 <= i < s.len() ==> '0' <= #[trigger] s[i] && s[i] <= '9'
}

/// Whether a text is an exponent: the letter, a sign or none, and digits; or nothing.
pub open spec fn is_exponent(s: Seq<char>) -> bool {
    s.len() == 0 || {
        &&& s[0] == 'e' || s[0] == 'E'
        &&& {
            let digits = if s.len() > 1 && (s[1] == '+' || s[1] == '-') {
                s.skip(2)
            } else {
                s.skip(1)
            };
            digits.len() > 0 && are_digits(digits)
        }
    }
}

/// Digits end where something else stands.
proof fn lemma_digits_end_at(s: Seq<char>, i: int, k: int)
    requires
        0 <= i <= k <= s.len(),
        forall|j: int| i <= j < k ==> '0' <= #[trigger] s[j] && s[j] <= '9',
        k < s.len() ==> !('0' <= s[k] && s[k] <= '9'),
    ensures
        digits_end(s, i) == k,
    decreases k - i,
{
    if i < k {
        lemma_digits_end_at(s, i + 1, k);
    }
}

/// Digits are all that stands before their end.
proof fn lemma_digits_end_stops(s: Seq<char>, i: int)
    requires
        0 <= i <= s.len(),
    ensures
        i <= digits_end(s, i) <= s.len(),
        forall|j: int| i <= j < digits_end(s, i) ==> '0' <= #[trigger] s[j] && s[j] <= '9',
        digits_end(s, i) < s.len() ==> !('0' <= s[digits_end(s, i)] && s[digits_end(s, i)] <= '9'),
    decreases s.len() - i,
{
    if i < s.len() && is_digit(s[i]) {
        lemma_digits_end_stops(s, i + 1);
    }
}

/// An exponent stands at the end of a number where it is one.
proof fn lemma_exponent_at(s: Seq<char>, i: int)
    requires
        0 <= i <= s.len(),
    ensures
        is_exponent_at(s, i) <==> is_exponent(s.skip(i)),
{
    let e = s.skip(i);
    if i < s.len() {
        assert(e[0] == s[i]);
        if i + 1 < s.len() {
            assert(e[1] == s[i + 1]);
        }
        let from = if i + 1 < s.len() && (s[i + 1] == '+' || s[i + 1] == '-') {
            2int
        } else {
            1int
        };
        let digits = e.skip(from);
        if i + from <= s.len() {
            lemma_digits_end_stops(s, i + from);
            if digits_end(s, i + from) == s.len() {
                assert forall|j: int| 0 <= j < digits.len() implies '0' <= #[trigger] digits[j]
                    && digits[j] <= '9' by {
                    assert(digits[j] == s[i + from + j]);
                }
            }
            if digits.len() > 0 && are_digits(digits) {
                assert forall|j: int| i + from <= j < s.len() implies '0' <= #[trigger] s[j]
                    && s[j] <= '9' by {
                    assert(digits[j - i - from] == s[j]);
                }
                lemma_digits_end_at(s, i + from, s.len() as int);
            }
        }
    }
}

/// A decimal number is digits, with or without a point among, before or behind them, and an
/// exponent or none. What is made so is a number, and a number is made so.
pub proof fn lemma_decimal(
    whole: Seq<char>,
    point: bool,
    fraction: Seq<char>,
    exponent: Seq<char>,
    s: Seq<char>,
)
    ensures
        are_digits(whole) && are_digits(fraction) && is_exponent(exponent) && (!point
            ==> fraction.len() == 0) && whole.len() + fraction.len() > 0 ==> is_decimal(
            whole + if point {
                seq!['.']
            } else {
                seq![]
            } + fraction + exponent,
        ),
        is_decimal(s) ==> exists|w: Seq<char>, p: Seq<char>, f: Seq<char>, e: Seq<char>|
            {
                &&& s == #[trigger] (w + p + f + e)
                &&& are_digits(w) && are_digits(f) && is_exponent(e)
                &&& p == seq!['.'] || (p == Seq::<char>::empty() && f == Seq::<char>::empty())
                &&& w.len() + f.len() > 0
            },
{
    if are_digits(whole) && are_digits(fraction) && is_exponent(exponent) && (!point
        ==> fraction.len() == 0) && whole.len() + fraction.len() > 0 {
        let dot = if point {
            seq!['.']
        } else {
            seq![]
        };
        let t = whole + dot + fraction + exponent;
        let n = whole.len() as int;
        assert forall|j: int| 0 <= j < n implies '0' <= #[trigger] t[j] && t[j] <= '9' by {
            assert(t[j] == whole[j]);
        }
        if point {
            assert(t[n] == '.');
            lemma_digits_end_at(t, 0, n);
            let end = n + 1 + fraction.len();
            assert forall|j: int| n + 1 <= j < end implies '0' <= #[trigger] t[j] && t[j]
                <= '9' by {
                assert(t[j] == fraction[j - n - 1]);
            }
            if exponent.len() > 0 {
                assert(t[end] == exponent[0]);
            }
            lemma_digits_end_at(t, n + 1, end);
            assert(t.skip(end) =~= exponent);
            lemma_exponent_at(t, end);
        } else {
            if exponent.len() > 0 {
                assert(t[n] == exponent[0]);
            }
            lemma_digits_end_at(t, 0, n);
            assert(t.skip(n) =~= exponent);
            lemma_exponent_at(t, n);
        }
    }
    if is_decimal(s) {
        let n = digits_end(s, 0);
        lemma_digits_end_stops(s, 0);
        let w = s.take(n);
        assert forall|j: int| 0 <= j < w.len() implies '0' <= #[trigger] w[j] && w[j] <= '9' by {
            assert(w[j] == s[j]);
        }
        if n < s.len() && s[n] == '.' {
            let end = digits_end(s, n + 1);
            lemma_digits_end_stops(s, n + 1);
            let f = s.subrange(n + 1, end);
            assert forall|j: int| 0 <= j < f.len() implies '0' <= #[trigger] f[j] && f[j]
                <= '9' by {
                assert(f[j] == s[n + 1 + j]);
            }
            lemma_exponent_at(s, end);
            assert(s =~= w + seq!['.'] + f + s.skip(end));
            assert(s == w + seq!['.'] + f + s.skip(end));
        } else {
            let none = Seq::<char>::empty();
            lemma_exponent_at(s, n);
            assert(s =~= w + none + none + s.skip(n));
            assert(s == w + none + none + s.skip(n));
        }
    }
}

/// A value is the text itself where it is a decimal number or a name of infinity without `Inf` in
/// it, with a sign or none. `NaN` is none in any case, `Inf` is none with a sign or without, and
/// whatever is no number is none either.
pub proof fn lemma_float(s: Seq<char>, sign: char)
    requires
        sign == '+' || sign == '-',
    ensures
        is_decimal(s) ==> float_text(s) == Some(s),
        is_decimal(s) ==> float_text(seq![sign] + s) == Some(seq![sign] + s),
        text::same_ignoring_ascii_case(s, "nan"@) ==> float_text(s) is None,
        text::occurs_in(s, "Inf"@) ==> float_text(s) is None,
        float_text(s) is Some ==> float_text(s) == Some(s),
        !text::same_ignoring_ascii_case(s, "nan"@) && !text::occurs_in(s, "Inf"@) ==> (float_text(
            s,
        ) is Some <==> {
            let t = if s.len() > 0 && (s[0] == '+' || s[0] == '-') {
                s.skip(1)
            } else {
                s
            };
            is_decimal(t) || text::same_ignoring_ascii_case(t, "inf"@)
                || text::same_ignoring_ascii_case(t, "infinity"@)
                || text::same_ignoring_ascii_case(t, "nan"@)
        }),
{
    if is_decimal(s) {
        lemma_decimal_is_plain(s);
        reveal_strlit("nan");
        reveal_strlit("Inf");
        let t = seq![sign] + s;
        assert(t.skip(1) =~= s);
        assert(without_sign(s) == s);
        if text::same_ignoring_ascii_case(s, "nan"@) {
            assert(text::ascii_lower(s[0]) == text::ascii_lower("nan"@[0]));
        }
        if text::same_ignoring_ascii_case(t, "nan"@) {
            assert(text::ascii_lower(t[0]) == text::ascii_lower("nan"@[0]));
        }
        if text::occurs_in(s, "Inf"@) {
            let i = choose|i: int| text::occurs_at(s, "Inf"@, i);
            assert(s.subrange(i, i + 3)[0] == 'I');
            assert(s[i] == 'I');
        }
        if text::occurs_in(t, "Inf"@) {
            let i = choose|i: int| text::occurs_at(t, "Inf"@, i);
            assert(t.subrange(i, i + 3)[0] == 'I');
            assert(t[i] == 'I');
            assert(i > 0);
            assert(s[i - 1] == 'I');
        }
    }
}

/// A decimal number has no letter in it but that of the exponent, and begins with a digit or the
/// point.
proof fn lemma_decimal_is_plain(s: Seq<char>)
    requires
        is_decimal(s),
    ensures
        s.len() > 0,
        s[0] == '.' || ('0' <= s[0] && s[0] <= '9'),
        forall|i: int| 0 <= i < s.len() ==> s[i] != 'I',
{
    let n = digits_end(s, 0);
    lemma_digits_end_stops(s, 0);
    let end = if n < s.len() && s[n] == '.' {
        lemma_digits_end_stops(s, n + 1);
        digits_end(s, n + 1)
    } else {
        n
    };
    if end < s.len() {
        let digits = if end + 1 < s.len() && (s[end + 1] == '+' || s[end + 1] == '-') {
            end + 2
        } else {
            end + 1
        };
        lemma_digits_end_stops(s, digits);
        assert forall|i: int| 0 <= i < s.len() implies s[i] != 'I' by {
            if i < n {
                assert('0' <= s[i] && s[i] <= '9');
            } else if n < i < end {
                assert('0' <= s[i] && s[i] <= '9');
            } else if i >= digits {
                assert('0' <= s[i] && s[i] <= '9');
            }
        }
    } else {
        assert forall|i: int| 0 <= i < s.len() implies s[i] != 'I' by {
            if i < n {
                assert('0' <= s[i] && s[i] <= '9');
            } else if n < i < end {
                assert('0' <= s[i] && s[i] <= '9');
            }
        }
    }
}

/// White space around a line does not matter.
pub proof fn lemma_line_trimmed(
    r: ReadingsView,
    before: Seq<char>,
    line: Seq<char>,
    behind: Seq<char>,
)
    requires
        text::is_blank(before),
        text::is_blank(behind),
    ensures
        after_line(r, before + line + behind) == after_line(r, line),
{
    text::lemma_trimmed_again(before, line, behind);
}

/// A CPU line of mon64 gives its value, the last line prevailing. One without a value gives
/// nothing: what was read before stays.
pub proof fn lemma_mon64_cpu_line(r: ReadingsView, tail: Seq<char>)
    requires
        tail.len() > 0,
        !text::is_white_space(tail.last()),
    ensures
        after_line(r, "mon64_node_cpu_percent"@ + tail) == (ReadingsView {
            mon64_cpu: if prom_value(tail) is Some {
                prom_value(tail)
            } else {
                r.mon64_cpu
            },
            ..r
        }),
{
    lemma_names();
    lemma_sample_line("mon64_node_cpu_percent"@, tail);
}

/// A memory line of mon64 does so too.
pub proof fn lemma_mon64_mem_line(r: ReadingsView, tail: Seq<char>)
    requires
        tail.len() > 0,
        !text::is_white_space(tail.last()),
    ensures
        after_line(r, "mon64_node_mem_used_percent"@ + tail) == (ReadingsView {
            mon64_mem: if prom_value(tail) is Some {
                prom_value(tail)
            } else {
                r.mon64_mem
            },
            ..r
        }),
{
    let name = "mon64_node_mem_used_percent"@;
    lemma_names();
    lemma_sample_line(name, tail);
    lemma_other_name("mon64_node_cpu_percent"@, name, tail, 11);
}

/// A line of mon64 on whether the host is reachable does so too.
pub proof fn lemma_mon64_reachable_line(r: ReadingsView, tail: Seq<char>)
    requires
        tail.len() > 0,
        !text::is_white_space(tail.last()),
    ensures
        after_line(r, "mon64_node_reachable"@ + tail) == (ReadingsView {
            mon64_reachable: if prom_value(tail) is Some {
                prom_value(tail)
            } else {
                r.mon64_reachable
            },
            ..r
        }),
{
    let name = "mon64_node_reachable"@;
    lemma_names();
    lemma_sample_line(name, tail);
    lemma_other_name("mon64_node_cpu_percent"@, name, tail, 11);
    lemma_other_name("mon64_node_mem_used_percent"@, name, tail, 11);
}

/// A line of the CPU counters adds one counter behind those before it, and nothing where it has no
/// value.
pub proof fn lemma_node_cpu_lines(r: ReadingsView, tail: Seq<char>)
    requires
        tail.len() > 0,
        !text::is_white_space(tail.last()),
    ensures
        prom_value(tail) is None ==> after_line(r, "node_cpu_seconds_total"@ + tail) == r,
        prom_value(tail) matches Some(v) ==> {
            let q = after_line(r, "node_cpu_seconds_total"@ + tail);
            &&& q.cpu.len() == r.cpu.len() + 1
            &&& q.cpu.drop_last() == r.cpu
            &&& q.cpu.last() == (v, mode_is_idle(tail))
            &&& q == ReadingsView { cpu: q.cpu, cpu_seen: true, ..r }
        },
{
    let d = "node_cpu_seconds_total"@;
    lemma_names();
    lemma_sample_line(d, tail);
    lemma_no_mon64_name(d, tail);
    if let Some(v) = prom_value(tail) {
        let q = after_line(r, d + tail);
        assert(q.cpu.drop_last() =~= r.cpu);
    }
}

/// A line of the total memory gives its value, and takes the one before away where it has none. A
/// metric whose name only begins with that one is another.
pub proof fn lemma_mem_total_line(r: ReadingsView, tail: Seq<char>)
    requires
        tail.len() > 0,
        !text::is_white_space(tail.last()),
    ensures
        ({
            let after = after_line(r, "node_memory_MemTotal_bytes"@ + tail);
            if tail[0] == '{' || tail[0] == ' ' || tail[0] == '\t' {
                after == ReadingsView { mem_total: prom_value(tail), ..r }
            } else {
                after == r
            }
        }),
{
    let name = "node_memory_MemTotal_bytes"@;
    lemma_names();
    lemma_sample_line(name, tail);
    lemma_no_mon64_name(name, tail);
    lemma_other_name("node_cpu_seconds_total"@, name, tail, 5);
}

/// A line of the available memory does so too.
pub proof fn lemma_mem_available_line(r: ReadingsView, tail: Seq<char>)
    requires
        tail.len() > 0,
        !text::is_white_space(tail.last()),
    ensures
        ({
            let after = after_line(r, "node_memory_MemAvailable_bytes"@ + tail);
            if tail[0] == '{' || tail[0] == ' ' || tail[0] == '\t' {
                after == ReadingsView { mem_available: prom_value(tail), ..r }
            } else {
                after == r
            }
        }),
{
    let name = "node_memory_MemAvailable_bytes"@;
    lemma_names();
    lemma_sample_line(name, tail);
    lemma_no_mon64_name(name, tail);
    lemma_other_name("node_cpu_seconds_total"@, name, tail, 5);
    lemma_other_name("node_memory_MemTotal_bytes"@, name, tail, 15);
}

/// A line is kept up to 256 bytes, and a body may end without a line feed. Before the first line
/// nothing has been read.
pub proof fn lemma_line_kept(line: Seq<u8>, p: ParserView)
    ensures
        line.len() <= 256 ==> kept_line(line) == line,
        line.len() > 256 ==> kept_line(line) == line.take(256),
        flushed(p) == pushed_byte(p, 0x0a),
        flushed(p).line.len() == 0,
        p.line.len() == 0 ==> flushed(p) == p,
        no_readings().cpu.len() == 0 && !no_readings().cpu_seen,
        no_readings().mon64_cpu is None && no_readings().mon64_mem is None,
        no_readings().mon64_reachable is None,
        no_readings().mem_total is None && no_readings().mem_available is None,
{
    assert(line.take(line.len() as int) =~= line);
}

/// The percentages of a body, and whether its host is reachable. The share of memory in use is
/// shown where both amounts are known and the total is above zero, and the CPU usage where the body
/// has counters, there was a scrape before and the counters are ahead of its own; both are held
/// between 0 and 100. Without mon64 a host is reachable where one of them is shown; with both
/// percentages of mon64 it is, unless a value below a half, or none that is a number, says that it
/// is not.
pub proof fn lemma_stats(r: ReadingsView, h: CpuHistory, f: Figures)
    ensures
        ({
            let s = stats_of(r, h, f);
            let mem = r.mem_total is Some && r.mem_available is Some && !binary32::is_nan(
                f.mem_total,
            ) && binary32::units(f.mem_total) > 0;
            let cpu = r.cpu_seen && h.valid && !binary32::is_nan(f.cpu_step) && binary32::units(
                f.cpu_step,
            ) > 0;
            &&& r.mon64_mem is None && mem ==> s.mem_percent == Some(
                binary32::clamped_percent(f.mem_used),
            )
            &&& r.mon64_mem is None && !mem ==> s.mem_percent is None
            &&& r.mon64_cpu is None && cpu ==> s.cpu_percent == Some(
                binary32::clamped_percent(f.cpu_used),
            )
            &&& r.mon64_cpu is None && !cpu ==> s.cpu_percent is None
            &&& r.mon64_cpu is None || r.mon64_mem is None ==> s.reachable == (s.cpu_percent is Some
                || s.mem_percent is Some)
            &&& r.mon64_cpu is Some && r.mon64_mem is Some ==> s.reachable == (r.mon64_reachable
                is None || (!binary32::is_nan(f.mon64_reachable) && 2 * binary32::units(
                f.mon64_reachable,
            ) >= vstd::arithmetic::power2::pow2(149)))
        }),
{
    binary32::lemma_named_encodings();
}

/// The histories that scrapes leave one after the other.
pub open spec fn histories(h: CpuHistory, scrapes: Seq<(ReadingsView, Figures)>) -> CpuHistory
    decreases scrapes.len(),
{
    if scrapes.len() == 0 {
        h
    } else {
        let (r, f) = scrapes.last();
        history_of(r, histories(h, scrapes.drop_last()), f)
    }
}

/// A usage is always measured from the scrape right before: after any number of scrapes of
/// node-exporter the history holds the sums of the last one, however many there were and whatever
/// the history was at first.
pub proof fn lemma_history_follows(h: CpuHistory, scrapes: Seq<(ReadingsView, Figures)>)
    requires
        scrapes.len() > 0,
        scrapes.last().0.cpu_seen,
        scrapes.last().0.mon64_cpu is None || scrapes.last().0.mon64_mem is None,
    ensures
        histories(h, scrapes).idle == scrapes.last().1.cpu_idle,
        histories(h, scrapes).total == scrapes.last().1.cpu_total,
        histories(h, scrapes).valid,
{
    let (r, f) = scrapes.last();
    lemma_history_is_of_last_scrape(r, histories(h, scrapes.drop_last()), f);
}

/// A sample without a value gives none: nothing but white space behind the labels, or behind the
/// name.
pub proof fn lemma_no_value(name: Seq<char>, gap: Seq<char>, labels: Seq<char>, behind: Seq<char>)
    requires
        is_name_part(name),
        text::is_blank(gap),
        is_labels(labels),
        text::is_blank(behind),
    ensures
        prom_value(name + gap + labels + behind) is None,
        behind.len() > 0 ==> prom_value(name + behind) is None,
        prom_value(Seq::empty()) is None,
{
    let none = Seq::<char>::empty();
    let n = name.len() as int;
    assert(!text::is_white_space('{'));
    text::lemma_trimmed(none, none, none);
    assert(none + none + none =~= none);
    assert(name_end(none, 0) == 0);
    text::lemma_trimmed(behind, none, none);
    assert(behind + none + none =~= behind);
    let rest = name + gap + labels + behind;
    let at = n + gap.len();
    assert forall|j: int| 0 <= j < n implies rest[j] != '{' && !text::is_white_space(
        #[trigger] rest[j],
    ) by {
        assert(rest[j] == name[j]);
    }
    assert forall|j: int| n <= j < at implies text::is_white_space(#[trigger] rest[j]) by {
        assert(rest[j] == gap[j - n]);
    }
    assert(rest[at] == labels[0]);
    if gap.len() > 0 {
        assert(rest[n] == gap[0]);
    }
    lemma_name_end_at(rest, 0, n);
    lemma_gap_end(rest, n, at);
    lemma_labels_shifted(name + gap, labels, 1, false);
    lemma_labels_end_stays(name + gap + labels, behind, at + 1, false);
    let k = at + labels.len();
    if behind.len() > 0 {
        assert(rest.skip(k) =~= behind);
        let bare = name + behind;
        assert forall|j: int| 0 <= j < n implies bare[j] != '{' && !text::is_white_space(
            #[trigger] bare[j],
        ) by {
            assert(bare[j] == name[j]);
        }
        assert forall|j: int| n <= j < bare.len() implies text::is_white_space(
            #[trigger] bare[j],
        ) by {
            assert(bare[j] == behind[j - n]);
        }
        lemma_name_end_at(bare, 0, n);
        lemma_gap_end(bare, n, bare.len() as int);
        assert(bare.skip(bare.len() as int) =~= none);
    }
}

/// A name on its own gives nothing, whichever metric it is of.
pub proof fn lemma_bare_name(r: ReadingsView, i: int)
    requires
        0 <= i < known_names().len(),
    ensures
        after_line(r, known_names()[i]) == r,
{
    let none = Seq::<char>::empty();
    let name = known_names()[i];
    let names = known_names();
    lemma_names();
    lemma_names_end();
    assert(name + none =~= name);
    text::lemma_trimmed(none, name, none);
    assert(none + name + none =~= name);
    text::lemma_trimmed(none, none, none);
    assert(none + none + none =~= none);
    assert(name_end(none, 0) == 0);
    assert(prom_value(none) is None);
    assert(!name_ends(none));
    text::lemma_after_prefix(name, name, none);
    if i >= 3 {
        lemma_no_mon64_name(name, none);
    }
    if i == 1 {
        lemma_other_name(names[0], name, none, 11);
    } else if i == 2 {
        lemma_other_name(names[0], name, none, 11);
        lemma_other_name(names[1], name, none, 11);
    } else if i == 4 {
        lemma_other_name(names[3], name, none, 5);
    } else if i == 5 {
        lemma_other_name(names[3], name, none, 5);
        lemma_other_name(names[4], name, none, 15);
    }
}

/// The names of the known metrics do not end with white space.
proof fn lemma_names_end()
    ensures
        forall|i: int|
            0 <= i < known_names().len() ==> text::is_tight(#[trigger] known_names()[i])
                && known_names()[i][0] != '#',
{
    reveal_strlit("mon64_node_cpu_percent");
    reveal_strlit("mon64_node_mem_used_percent");
    reveal_strlit("mon64_node_reachable");
    reveal_strlit("node_cpu_seconds_total");
    reveal_strlit("node_memory_MemTotal_bytes");
    reveal_strlit("node_memory_MemAvailable_bytes");
}

/// A label with the value `idle` makes a CPU counter idle whatever labels stand beside it, in
/// quotes of either kind, and nothing else does.
pub proof fn lemma_idle_anywhere(before: Seq<char>, q: char, behind: Seq<char>, rest: Seq<char>)
    requires
        q == '"' || q == '\'',
    ensures
        mode_is_idle(before + ("mode="@ + seq![q] + "idle"@ + seq![q]) + behind),
        mode_is_idle(rest) ==> exists|c: char|
            (c == '"' || c == '\'') && text::occurs_in(
                rest,
                "mode="@ + #[trigger] seq![c] + "idle"@ + seq![c],
            ),
{
    reveal_strlit("mode=");
    reveal_strlit("idle");
    reveal_strlit("mode=\"idle\"");
    reveal_strlit("mode='idle'");
    let w = "mode="@ + seq![q] + "idle"@ + seq![q];
    text::lemma_occurs(before + w + behind, w, before, behind);
    if q == '"' {
        assert(w =~= "mode=\"idle\""@);
    } else {
        assert(w =~= "mode='idle'"@);
    }
    if mode_is_idle(rest) {
        let c = if text::occurs_in(rest, "mode=\"idle\""@) {
            '"'
        } else {
            '\''
        };
        let n = "mode="@ + seq![c] + "idle"@ + seq![c];
        if c == '"' {
            assert(n =~= "mode=\"idle\""@);
        } else {
            assert(n =~= "mode='idle'"@);
        }
        assert(text::occurs_in(rest, n));
    }
}

} // verus!
