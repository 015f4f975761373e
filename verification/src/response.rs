//! Reading an HTTP response as it arrives.
//!
//! The caller reads from the connection and hands over what came; the reader
//! finds the head, decodes the body and feeds it to a `MetricsParser`.

use vstd::prelude::*;

use crate::bounded;
use crate::bounded::Items;
use crate::http;
use crate::http::BodyKind;
use crate::metrics;
use crate::metrics::{
    CpuHistory, CpuSample, Figures, GaugeStats, MetricsParser, ParserView, Readings,
};

verus! {

/// The most bytes that are read from a connection at a time.
pub const READ_SIZE: usize = 512;

/// Where in a response the reader is.
#[derive(Clone, Copy, PartialEq, Eq, Structural)]
pub enum Phase {
    /// In the head.
    Head,
    /// In a body of which this many bytes are missing.
    Length(usize),
    /// In the line with a chunk's size.
    ChunkSize,
    /// In a chunk of which this many bytes are missing.
    ChunkData(usize),
    /// At the line ending behind a chunk; its carriage return has come or not.
    ChunkEnd(bool),
    /// Behind the last chunk, where trailer lines may follow up to an empty one. A line is
    /// empty while nothing but carriage returns has come of it.
    Trailer {
        /// The line is not empty.
        started: bool,
        /// A trailer line stands before it.
        behind: bool,
        /// The last byte was a carriage return.
        cr: bool,
    },
    /// In a body that ends with the connection.
    UntilEof,
    /// The response is complete.
    Done,
    /// The response cannot be used.
    Failed,
}

/// What the caller does next.
#[derive(Clone, Copy, PartialEq, Eq, Structural)]
pub enum Progress {
    /// Read on.
    More,
    /// The response is complete.
    Done,
    /// The response cannot be used.
    Failed,
}

/// What came of one request.
#[derive(Clone, Copy)]
pub struct HttpResult {
    pub stats: GaugeStats,
    /// Peer left the connection usable for another request.
    pub keep_alive: bool,
}

/// The result of a request that brought no usable response.
pub open spec fn no_result() -> HttpResult {
    HttpResult { stats: metrics::no_stats(), keep_alive: false }
}

/// A reader as a mathematical value. `head` is what has come of the head while
/// that is being read, `line` what has come of a size line.
pub struct ReaderView {
    pub phase: Phase,
    pub head: Seq<u8>,
    pub line: Seq<u8>,
    pub keep_alive: bool,
    pub parser: ParserView,
}

/// The most bytes that may have come when the head is complete.
pub open spec fn head_limit() -> int {
    1536
}

/// The most bytes on a size line.
pub open spec fn size_line_limit() -> int {
    64
}

/// What the caller does next in this phase.
pub open spec fn progress_of(phase: Phase) -> Progress {
    match phase {
        Phase::Done => Progress::Done,
        Phase::Failed => Progress::Failed,
        _ => Progress::More,
    }
}

/// A reader before the first byte.
pub open spec fn fresh() -> ReaderView {
    ReaderView {
        phase: Phase::Head,
        head: seq![],
        line: seq![],
        keep_alive: false,
        parser: ParserView { line: seq![], readings: metrics::no_readings() },
    }
}

/// The reader after a failure.
pub open spec fn failed(v: ReaderView) -> ReaderView {
    ReaderView { phase: Phase::Failed, head: seq![], line: seq![], keep_alive: false, ..v }
}

/// The reader in another phase, with an empty size line.
pub open spec fn in_phase(v: ReaderView, phase: Phase) -> ReaderView {
    ReaderView { phase, line: seq![], ..v }
}

/// `line` without a carriage return at its end.
pub open spec fn size_text(line: Seq<u8>) -> Seq<u8> {
    if line.len() > 0 && line.last() == 0x0d {
        line.drop_last()
    } else {
        line
    }
}

/// Behind the last chunk, before any byte.
pub open spec fn first_trailer() -> Phase {
    Phase::Trailer { started: false, behind: false, cr: false }
}

/// Where one more byte behind the last chunk leads: the end of an empty line is the end of the
/// response, that of another line is the end of a trailer.
pub open spec fn trailer_step(started: bool, behind: bool, cr: bool, b: u8) -> Phase {
    if cr && b == 0x0a {
        if started {
            Phase::Trailer { started: false, behind: true, cr: false }
        } else {
            Phase::Done
        }
    } else {
        Phase::Trailer { started: started || b != 0x0d, behind, cr: b == 0x0d }
    }
}

/// The reader of a chunked body after one more byte. A byte behind the response belongs to no
/// request, so that the connection cannot be used for another one.
pub open spec fn chunk_step(v: ReaderView, b: u8) -> ReaderView {
    match v.phase {
        Phase::ChunkSize => if b == 0x0a {
            match http::chunk_size(size_text(v.line)) {
                None => failed(v),
                Some(n) => if n == 0 {
                    in_phase(v, first_trailer())
                } else {
                    in_phase(v, Phase::ChunkData(n))
                },
            }
        } else if v.line.len() < size_line_limit() {
            ReaderView { line: v.line.push(b), ..v }
        } else {
            failed(v)
        },
        Phase::ChunkData(left) => ReaderView {
            phase: if left == 1 {
                Phase::ChunkEnd(false)
            } else {
                Phase::ChunkData((left - 1) as usize)
            },
            parser: metrics::pushed_byte(v.parser, b),
            ..v
        },
        Phase::ChunkEnd(cr) => if !cr && b == 0x0d {
            in_phase(v, Phase::ChunkEnd(true))
        } else if cr && b == 0x0a {
            in_phase(v, Phase::ChunkSize)
        } else {
            failed(v)
        },
        Phase::Trailer { started, behind, cr } => in_phase(v, trailer_step(started, behind, cr, b)),
        Phase::Done => ReaderView { keep_alive: false, ..v },
        _ => v,
    }
}

/// The reader of a chunked body after the bytes `s`.
pub open spec fn chunk_run(v: ReaderView, s: Seq<u8>) -> ReaderView
    decreases s.len(),
{
    if s.len() == 0 {
        v
    } else {
        chunk_run(chunk_step(v, s[0]), s.drop_first())
    }
}

/// The reader of a body of known length, `left` bytes of which are missing,
/// after the bytes `s`. What is behind the body is not looked at, but belongs to no request, so
/// that the connection cannot be used for another one.
pub open spec fn length_run(v: ReaderView, left: usize, s: Seq<u8>) -> ReaderView {
    let n = if s.len() < left {
        s.len() as int
    } else {
        left as int
    };
    ReaderView {
        phase: if n == left {
            Phase::Done
        } else {
            Phase::Length((left - n) as usize)
        },
        keep_alive: v.keep_alive && s.len() <= left,
        parser: metrics::pushed(v.parser, s.take(n)),
        ..v
    }
}

/// The reader that has just got the whole head, and the bytes `rest` behind it.
pub open spec fn after_head(v: ReaderView, head: Seq<u8>, rest: Seq<u8>) -> ReaderView {
    if !http::status_ok(head) {
        failed(v)
    } else {
        let w = ReaderView {
            head: seq![],
            line: seq![],
            keep_alive: !http::asks_to_close(http::head_lines(head)),
            ..v
        };
        match http::body_kind(head) {
            BodyKind::Length(n) => length_run(w, n, rest),
            BodyKind::Chunked => chunk_run(in_phase(w, Phase::ChunkSize), rest),
            BodyKind::UntilEof => ReaderView {
                phase: Phase::UntilEof,
                keep_alive: false,
                parser: metrics::pushed(w.parser, rest),
                ..w
            },
        }
    }
}

/// The reader after the bytes `s` came in one read.
pub open spec fn fed(v: ReaderView, s: Seq<u8>) -> ReaderView {
    match v.phase {
        Phase::Head => {
            let h = v.head + s;
            if h.len() > head_limit() {
                failed(v)
            } else {
                match http::header_end(h) {
                    Some(p) => after_head(v, h.take(p), h.skip(p)),
                    None => ReaderView { head: h, ..v },
                }
            }
        },
        Phase::Length(left) => length_run(v, left, s),
        Phase::UntilEof => ReaderView { parser: metrics::pushed(v.parser, s), ..v },
        _ => chunk_run(v, s),
    }
}

/// The reader after the connection ended or, where `broken`, failed. A connection that ends
/// behind a trailer line ends the response.
pub open spec fn ended(v: ReaderView, broken: bool) -> ReaderView {
    match v.phase {
        Phase::UntilEof => ReaderView { phase: Phase::Done, ..v },
        Phase::Done => v,
        Phase::Trailer { started: false, behind: true, .. } if !broken => ReaderView {
            keep_alive: false,
            ..in_phase(v, Phase::Done)
        },
        _ => failed(v),
    }
}

/// The reader whose body has come to the end of its last line.
pub open spec fn body_flushed(v: ReaderView) -> ReaderView {
    ReaderView { parser: metrics::flushed(v.parser), ..v }
}

/// The result of the response that the reader has read.
pub open spec fn result_of(v: ReaderView, h: CpuHistory, f: Figures) -> HttpResult {
    if v.phase == Phase::Done {
        HttpResult {
            stats: metrics::stats_of(metrics::flushed(v.parser).readings, h, f),
            keep_alive: v.keep_alive,
        }
    } else {
        no_result()
    }
}

/// A chunk is decoded the same whether its bytes come one by one or at once.
proof fn lemma_chunk_data_run(v: ReaderView, s: Seq<u8>, left: usize, n: int)
    requires
        v.phase == Phase::ChunkData(left),
        0 < n <= left,
        n <= s.len(),
    ensures
        chunk_run(v, s) == chunk_run(
            ReaderView {
                phase: if n == left {
                    Phase::ChunkEnd(false)
                } else {
                    Phase::ChunkData((left - n) as usize)
                },
                parser: metrics::pushed(v.parser, s.take(n)),
                ..v
            },
            s.skip(n),
        ),
    decreases n,
{
    if n == 1 {
        assert(s.take(1).drop_last() =~= seq![]);
        assert(s.take(1).last() == s[0]);
        assert(metrics::pushed(v.parser, s.take(1).drop_last()) == v.parser);
        assert(s.skip(1) =~= s.drop_first());
    } else {
        lemma_chunk_data_run(v, s, left, n - 1);
        assert(s.take(n).drop_last() =~= s.take(n - 1));
        assert(s.take(n).last() == s[n - 1]);
        assert(s.skip(n - 1)[0] == s[n - 1]);
        assert(s.skip(n - 1).drop_first() =~= s.skip(n));
    }
}

/// A reader that is done or has failed stays as it is, but that a byte behind the response spoils
/// the connection.
proof fn lemma_finished_run(v: ReaderView, s: Seq<u8>)
    requires
        v.phase == Phase::Done || v.phase == Phase::Failed,
    ensures
        v.phase == Phase::Failed ==> chunk_run(v, s) == v,
        v.phase == Phase::Done ==> chunk_run(v, s) == (ReaderView {
            keep_alive: v.keep_alive && s.len() == 0,
            ..v
        }),
    decreases s.len(),
{
    if s.len() > 0 {
        lemma_finished_run(chunk_step(v, s[0]), s.drop_first());
    }
}

/// Takes the first byte out of the stash.
pub fn stash_pop_front(stash: &mut heapless::Vec<u8, 1024>) -> (r: Option<u8>)
    ensures
        old(stash).items().len() == 0 ==> r is None && final(stash).items() == old(stash).items(),
        old(stash).items().len() > 0 ==> r == Some(old(stash).items()[0]) && final(stash).items()
            == old(stash).items().drop_first(),
{
    let len: usize = bounded::stash_slice(stash).len();
    if len == 0 {
        return None;
    }
    let b: u8 = bounded::stash_slice(stash)[0];
    stash_pop_front_n(stash, 1);
    assert(stash.items() =~= old(stash).items().drop_first());
    Some(b)
}

/// Takes the first `n` bytes out of the stash, or all of them.
pub fn stash_pop_front_n(stash: &mut heapless::Vec<u8, 1024>, n: usize)
    ensures
        n <= old(stash).items().len() ==> final(stash).items() == old(stash).items().skip(n as int),
        n > old(stash).items().len() ==> final(stash).items() == Seq::<u8>::empty(),
{
    let ghost before = stash.items();
    let len: usize = bounded::stash_slice(stash).len();
    let n: usize = if n < len { n } else { len };
    let mut i: usize = n;
    while i < len
        invariant
            n <= i <= len,
            len == before.len(),
            stash.items().len() == len,
            forall|j: int| 0 <= j < i - n ==> stash.items()[j] == before[j + n],
            forall|j: int| i - n <= j < len ==> stash.items()[j] == before[j],
        decreases len - i,
    {
        let b: u8 = bounded::stash_slice(stash)[i];
        bounded::set_byte(stash, i - n, b);
        i += 1;
    }
    let mut k: usize = 0;
    while k < n
        invariant
            k <= n <= len,
            len == before.len(),
            stash.items().len() == len - k,
            forall|j: int| 0 <= j < len - n ==> stash.items()[j] == before[j + n],
        decreases n - k,
    {
        let _ = bounded::pop_byte(stash);
        k += 1;
    }
    assert(stash.items() =~= before.skip(n as int));
}

/// Reads one response.
pub struct ResponseReader {
    head: heapless::Vec<u8, 1536>,
    stash: heapless::Vec<u8, 1024>,
    line: heapless::Vec<u8, 64>,
    phase: Phase,
    keep_alive: bool,
    parser: MetricsParser,
}

impl View for ResponseReader {
    type V = ReaderView;

    closed spec fn view(&self) -> ReaderView {
        ReaderView {
            phase: self.phase,
            head: if self.phase == Phase::Head {
                self.head.items()
            } else {
                seq![]
            },
            line: if self.phase == Phase::ChunkSize {
                self.line.items()
            } else {
                seq![]
            },
            keep_alive: self.keep_alive,
            parser: self.parser@,
        }
    }
}

impl ResponseReader {
    /// The reader is between two reads.
    pub closed spec fn wf(&self) -> bool {
        &&& progress_of(self.phase) == Progress::More ==> self.stash.items().len() == 0
        &&& self.phase == Phase::Head ==> http::header_end(self.head.items()) is None
        &&& self.phase == Phase::Head ==> self.head.items().len() <= head_limit()
        &&& self.phase matches Phase::Length(left) ==> left > 0
        &&& self.phase matches Phase::ChunkData(left) ==> left > 0
    }

    /// A reader before the first byte.
    pub fn new() -> (r: Self)
        ensures
            r.wf(),
            r@ == fresh(),
    {
        let r = ResponseReader {
            head: bounded::new_bytes(),
            stash: bounded::new_bytes(),
            line: bounded::new_bytes(),
            phase: Phase::Head,
            keep_alive: false,
            parser: MetricsParser::new(),
        };
        assert(r@.head =~= seq![]);
        r
    }

    /// What the caller does next.
    pub fn progress(&self) -> (r: Progress)
        ensures
            r == progress_of(self@.phase),
    {
        match self.phase {
            Phase::Done => Progress::Done,
            Phase::Failed => Progress::Failed,
            _ => Progress::More,
        }
    }

    /// Gives up on the response.
    fn fail(&mut self)
        ensures
            final(self)@ == failed(old(self)@),
            final(self).wf(),
    {
        self.phase = Phase::Failed;
        self.keep_alive = false;
        assert(self@.head =~= seq![]);
    }

    /// Takes over the bytes of one read.
    pub fn feed(&mut self, bytes: &[u8]) -> (r: Progress)
        requires
            old(self).wf(),
            bytes@.len() <= READ_SIZE,
        ensures
            final(self).wf(),
            final(self)@ == fed(old(self)@, bytes@),
            r == progress_of(final(self)@.phase),
    {
        match self.phase {
            Phase::Head => {
                self.feed_head(bytes);
            },
            Phase::Length(left) => {
                self.take_length(left, bytes);
            },
            Phase::UntilEof => {
                self.parser.push(bytes);
            },
            Phase::ChunkData(left) => {
                self.feed_chunk(left, bytes);
            },
            Phase::Done | Phase::Failed => {
                proof {
                    lemma_finished_run(self@, bytes@);
                }
                if let Phase::Done = self.phase {
                    if bytes.len() > 0 {
                        self.keep_alive = false;
                    }
                }
            },
            _ => {
                self.stash_all(bytes);
                self.run_stash();
            },
        }
        self.progress()
    }

    /// Puts all of `bytes` into the empty stash.
    fn stash_all(&mut self, bytes: &[u8])
        requires
            old(self).stash.items().len() == 0,
            bytes@.len() <= READ_SIZE,
        ensures
            final(self).stash.items() == bytes@,
            final(self)@ == old(self)@,
            final(self).phase == old(self).phase,
    {
        let n: usize = bytes.len();
        let mut i: usize = 0;
        while i < n
            invariant
                i <= n <= READ_SIZE,
                n == bytes@.len(),
                self.stash.items() =~= bytes@.take(i as int),
                self@ == old(self)@,
                self.phase == old(self).phase,
            decreases n - i,
        {
            let _ = bounded::push_byte(&mut self.stash, bytes[i]);
            i += 1;
        }
        assert(bytes@.take(n as int) =~= bytes@);
    }

    /// Takes bytes of the body, of which `left` are missing.
    fn take_length(&mut self, left: usize, bytes: &[u8])
        requires
            old(self).stash.items().len() == 0,
            old(self).phase != Phase::Head,
            old(self).phase != Phase::ChunkSize,
        ensures
            final(self)@ == length_run(old(self)@, left, bytes@),
            final(self).wf(),
    {
        let n: usize = if bytes.len() < left { bytes.len() } else { left };
        self.parser.push(vstd::slice::slice_subrange(bytes, 0, n));
        if bytes.len() > left {
            // Extra bytes would be a pipelined next response: not expected.
            self.keep_alive = false;
        }
        if n == left {
            self.phase = Phase::Done;
        } else {
            self.phase = Phase::Length(left - n);
        }
    }

    /// Takes bytes of the head.
    fn feed_head(&mut self, bytes: &[u8])
        requires
            old(self).wf(),
            old(self).phase == Phase::Head,
            bytes@.len() <= READ_SIZE,
        ensures
            final(self).wf(),
            final(self)@ == fed(old(self)@, bytes@),
    {
        let n: usize = bytes.len();
        let ghost before = self.head.items();
        let ghost all = before + bytes@;
        let mut i: usize = 0;
        while i < n
            invariant
                i <= n,
                n == bytes@.len(),
                before.len() <= head_limit(),
                before.len() + i <= head_limit(),
                self.head.items() =~= before + bytes@.take(i as int),
                self.phase == Phase::Head,
                self.keep_alive == old(self).keep_alive,
                self.parser == old(self).parser,
                self.stash.items().len() == 0,
                all == before + bytes@,
                old(self)@.phase == Phase::Head,
                old(self)@.head == before,
                old(self)@.parser == old(self).parser@,
                old(self)@.line == Seq::<u8>::empty(),
            decreases n - i,
        {
            if bounded::push_byte(&mut self.head, bytes[i]).is_err() {
                self.fail();
                assert(all.len() > head_limit());
                return;
            }
            i += 1;
        }
        assert(self.head.items() =~= all);
        let head = bounded::head_slice(&self.head);
        let end: usize = match http::find_header_end(head) {
            Some(p) => p,
            None => {
                return;
            },
        };
        proof {
            http::lemma_header_end_from(all, 0);
            http::lemma_header_end_from(before, 0);
            if end <= before.len() {
                assert(http::blank_line_at(before, end - 4));
            }
        }
        let mut rest: Vec<u8> = Vec::new();
        let len: usize = head.len();
        let mut k: usize = end;
        while k < len
            invariant
                end <= k <= len,
                len == head@.len(),
                rest@ =~= head@.subrange(end as int, k as int),
            decreases len - k,
        {
            rest.push(head[k]);
            k += 1;
        }
        let ghost cut = all.take(end as int);
        assert(rest@ =~= all.skip(end as int));
        let fields = vstd::slice::slice_subrange(head, 0, end);
        assert(fields@ =~= cut);
        if !http::parse_status_ok(fields) {
            self.fail();
            return;
        }
        let peer_close = http::header_has_connection_close(fields);
        let kind = http::parse_body_kind(fields, peer_close);
        self.keep_alive = !peer_close;
        match kind {
            BodyKind::Length(length) => {
                self.phase = Phase::Done;
                self.take_length(length, rest.as_slice());
            },
            BodyKind::Chunked => {
                self.phase = Phase::ChunkSize;
                bounded::clear_bytes(&mut self.line);
                self.stash_all(rest.as_slice());
                self.run_stash();
            },
            BodyKind::UntilEof => {
                self.phase = Phase::UntilEof;
                self.keep_alive = false;
                self.parser.push(rest.as_slice());
            },
        }
    }

    /// Takes bytes of a chunk, of which `left` are missing, and what follows.
    fn feed_chunk(&mut self, left: usize, bytes: &[u8])
        requires
            old(self).wf(),
            old(self).phase == Phase::ChunkData(left),
            bytes@.len() <= READ_SIZE,
        ensures
            final(self).wf(),
            final(self)@ == chunk_run(old(self)@, bytes@),
    {
        if bytes.len() == 0 {
            return;
        }
        let len: usize = bytes.len();
        let n: usize = if len < left { len } else { left };
        proof {
            lemma_chunk_data_run(self@, bytes@, left, n as int);
        }
        self.parser.push(vstd::slice::slice_subrange(bytes, 0, n));
        if n == left {
            self.phase = Phase::ChunkEnd(false);
            let more = vstd::slice::slice_subrange(bytes, n, len);
            assert(more@ =~= bytes@.skip(n as int));
            self.stash_all(more);
            self.run_stash();
        } else {
            self.phase = Phase::ChunkData(left - n);
            assert(bytes@.skip(n as int) =~= seq![]);
        }
    }

    /// Decodes the bytes in the stash.
    fn run_stash(&mut self)
        requires
            old(self).phase != Phase::Head,
            !(old(self).phase is Length),
            old(self).phase != Phase::UntilEof,
            old(self).phase matches Phase::ChunkData(left) ==> left > 0,
        ensures
            final(self).wf(),
            final(self)@ == chunk_run(old(self)@, old(self).stash.items()),
    {
        let ghost goal = chunk_run(self@, self.stash.items());
        loop
            invariant
                chunk_run(self@, self.stash.items()) == goal,
                self.phase != Phase::Head,
                !(self.phase is Length),
                self.phase != Phase::UntilEof,
                self.phase matches Phase::ChunkData(left) ==> left > 0,
            ensures
                self@ == goal,
                self.wf(),
            decreases self.stash.items().len(),
        {
            let ghost s = self.stash.items();
            if let Phase::ChunkData(left) = self.phase {
                let held = bounded::stash_slice(&self.stash);
                let len: usize = held.len();
                if len == 0 {
                    break;
                }
                let n: usize = if len < left { len } else { left };
                proof {
                    lemma_chunk_data_run(self@, s, left, n as int);
                }
                self.parser.push(vstd::slice::slice_subrange(held, 0, n));
                stash_pop_front_n(&mut self.stash, n);
                if n == left {
                    self.phase = Phase::ChunkEnd(false);
                } else {
                    self.phase = Phase::ChunkData(left - n);
                }
                continue;
            }
            match self.phase {
                Phase::Done | Phase::Failed => {
                    proof {
                        lemma_finished_run(self@, s);
                    }
                    if let Phase::Done = self.phase {
                        if bounded::stash_slice(&self.stash).len() > 0 {
                            self.keep_alive = false;
                        }
                    }
                    break;
                },
                _ => {},
            }
            match stash_pop_front(&mut self.stash) {
                None => {
                    break;
                },
                Some(b) => {
                    self.take_byte(b);
                },
            }
        }
    }

    /// Takes one byte that is not part of a chunk.
    fn take_byte(&mut self, b: u8)
        requires
            old(self).phase != Phase::Head,
            !(old(self).phase is ChunkData),
            !(old(self).phase is Length),
            old(self).phase != Phase::UntilEof,
            old(self).phase != Phase::Done,
        ensures
            final(self)@ == chunk_step(old(self)@, b),
            final(self).stash.items() == old(self).stash.items(),
            final(self).phase != Phase::Head,
            !(final(self).phase is Length),
            final(self).phase != Phase::UntilEof,
            final(self).phase matches Phase::ChunkData(left) ==> left > 0,
    {
        match self.phase {
            Phase::ChunkSize => {
                if b == 0x0a {
                    let line = bounded::size_line_slice(&self.line);
                    let len: usize = line.len();
                    let end: usize = if len > 0 && line[len - 1] == 0x0d { len - 1 } else { len };
                    let size = http::parse_hex_size(vstd::slice::slice_subrange(line, 0, end));
                    assert(line@.subrange(0, end as int) =~= size_text(line@));
                    bounded::clear_bytes(&mut self.line);
                    match size {
                        None => {
                            self.phase = Phase::Failed;
                            self.keep_alive = false;
                        },
                        Some(n) => {
                            if n == 0 {
                                self.phase = Phase::Trailer {
                                    started: false,
                                    behind: false,
                                    cr: false,
                                };
                            } else {
                                self.phase = Phase::ChunkData(n);
                            }
                        },
                    }
                } else if bounded::push_byte(&mut self.line, b).is_err() {
                    self.phase = Phase::Failed;
                    self.keep_alive = false;
                }
            },
            Phase::ChunkEnd(cr) => {
                if !cr && b == 0x0d {
                    self.phase = Phase::ChunkEnd(true);
                } else if cr && b == 0x0a {
                    self.phase = Phase::ChunkSize;
                    bounded::clear_bytes(&mut self.line);
                } else {
                    self.phase = Phase::Failed;
                    self.keep_alive = false;
                }
            },
            Phase::Trailer { started, behind, cr } => {
                // An empty line right behind the last chunk (no trailers) is enough.
                if cr && b == 0x0a {
                    if started {
                        self.phase = Phase::Trailer { started: false, behind: true, cr: false };
                    } else {
                        self.phase = Phase::Done;
                    }
                } else {
                    self.phase = Phase::Trailer {
                        started: started || b != 0x0d,
                        behind,
                        cr: b == 0x0d,
                    };
                }
            },
            _ => {},
        }
    }

    /// Takes note that the connection ended or, where `broken`, failed.
    pub fn end(&mut self, broken: bool) -> (r: Progress)
        requires
            old(self).wf(),
        ensures
            final(self).wf(),
            final(self)@ == ended(old(self)@, broken),
            r == progress_of(final(self)@.phase),
    {
        match self.phase {
            Phase::UntilEof => {
                self.phase = Phase::Done;
            },
            Phase::Done => {},
            Phase::Trailer { started: false, behind: true, .. } if !broken => {
                self.phase = Phase::Done;
                self.keep_alive = false;
            },
            _ => {
                self.fail();
            },
        }
        self.progress()
    }

    /// Takes out the CPU counters that the body gave so far.
    pub fn take_cpu(&mut self) -> (r: Vec<CpuSample>)
        requires
            old(self).wf(),
        ensures
            final(self).wf(),
            r@.map_values(|s: CpuSample| s@) == old(self)@.parser.readings.cpu,
            final(self)@ == (ReaderView {
                parser: metrics::cpu_taken(old(self)@.parser),
                ..old(self)@
            }),
    {
        self.parser.take_cpu()
    }

    /// What the body gave, its last line included.
    pub fn readings(&mut self) -> (r: &Readings)
        requires
            old(self).wf(),
        ensures
            final(self).wf(),
            final(self)@ == body_flushed(old(self)@),
            r@ == final(self)@.parser.readings,
    {
        self.parser.flush_line();
        self.parser.readings()
    }

    /// The result of the request, with the history brought up to date where the
    /// response is complete.
    pub fn finish(&mut self, history: &mut CpuHistory, figures: &Figures) -> (r: HttpResult)
        requires
            old(self).wf(),
        ensures
            final(self).wf(),
            r == result_of(old(self)@, *old(history), *figures),
            old(self)@.phase == Phase::Done ==> *final(history) == metrics::history_of(
                metrics::flushed(old(self)@.parser).readings,
                *old(history),
                *figures,
            ),
            old(self)@.phase != Phase::Done ==> *final(history) == *old(history),
    {
        match self.phase {
            Phase::Done => {
                let stats = self.parser.finish(history, figures);
                HttpResult { stats, keep_alive: self.keep_alive }
            },
            _ => HttpResult { stats: GaugeStats::default(), keep_alive: false },
        }
    }
}

/// A chunked body is decoded the same however it is cut into pieces.
pub proof fn lemma_chunk_run_pieces(v: ReaderView, a: Seq<u8>, b: Seq<u8>)
    ensures
        chunk_run(chunk_run(v, a), b) == chunk_run(v, a + b),
    decreases a.len(),
{
    if a.len() == 0 {
        assert(a + b =~= b);
    } else {
        lemma_chunk_run_pieces(chunk_step(v, a[0]), a.drop_first(), b);
        assert((a + b).drop_first() =~= a.drop_first() + b);
        assert((a + b)[0] == a[0]);
    }
}

/// A chunked body keeps to its own phases, and makes no connection worth keeping.
proof fn lemma_chunk_run_phases(v: ReaderView, s: Seq<u8>)
    requires
        v.phase != Phase::Head,
        !(v.phase is Length),
        v.phase != Phase::UntilEof,
    ensures
        chunk_run(v, s).phase != Phase::Head,
        !(chunk_run(v, s).phase is Length),
        chunk_run(v, s).phase != Phase::UntilEof,
        chunk_run(v, s).keep_alive ==> v.keep_alive,
    decreases s.len(),
{
    if s.len() > 0 {
        lemma_chunk_run_phases(chunk_step(v, s[0]), s.drop_first());
    }
}

/// A body of known length is read the same however it is cut into pieces.
proof fn lemma_length_run_pieces(v: ReaderView, left: usize, a: Seq<u8>, b: Seq<u8>)
    ensures
        fed(length_run(v, left, a), b) == length_run(v, left, a + b),
{
    let u = length_run(v, left, a);
    let all = a + b;
    if a.len() < left {
        let more = (left - a.len()) as usize;
        assert(u.phase == Phase::Length(more));
        let n = if b.len() < more {
            b.len() as int
        } else {
            more as int
        };
        assert(a.take(a.len() as int) =~= a);
        assert(all.take(a.len() + n) =~= a + b.take(n));
        metrics::lemma_pushed_pieces(v.parser, a, b.take(n));
    } else {
        assert(all.take(left as int) =~= a.take(left as int));
        lemma_finished_run(u, b);
    }
}

/// The reader after the bytes `s`, in however many reads they come: a head of any length is
/// waited for.
pub open spec fn taken(v: ReaderView, s: Seq<u8>) -> ReaderView {
    match v.phase {
        Phase::Head => {
            let h = v.head + s;
            match http::header_end(h) {
                Some(p) => after_head(v, h.take(p), h.skip(p)),
                None => ReaderView { head: h, ..v },
            }
        },
        _ => fed(v, s),
    }
}

/// Whether a reader that is in the head has not got all of it yet.
pub open spec fn awaits(v: ReaderView) -> bool {
    v.phase == Phase::Head ==> http::header_end(v.head) is None
}

/// A response is read the same however its bytes are cut into pieces.
#[verifier::rlimit(40)]
pub proof fn lemma_taken_pieces(v: ReaderView, a: Seq<u8>, b: Seq<u8>)
    requires
        awaits(v),
    ensures
        taken(taken(v, a), b) == taken(v, a + b),
        awaits(taken(v, a)),
        taken(v, a).phase == Phase::Head ==> v.phase == Phase::Head && taken(v, a).head == v.head
            + a,
{
    match v.phase {
        Phase::Head => {
            let h = v.head + a;
            let w = v.head + (a + b);
            assert(h + b =~= w);
            match http::header_end(h) {
                None => {},
                Some(p) => {
                    http::lemma_header_end_from(h, 0);
                    lemma_header_end_stays(h, b);
                    assert(w.take(p) =~= h.take(p));
                    assert(w.skip(p) =~= h.skip(p) + b);
                    lemma_after_head_pieces(v, h.take(p), h.skip(p), b);
                },
            }
        },
        Phase::Length(left) => {
            lemma_length_run_pieces(v, left, a, b);
        },
        Phase::UntilEof => {
            metrics::lemma_pushed_pieces(v.parser, a, b);
        },
        _ => {
            lemma_chunk_run_pieces(v, a, b);
            lemma_chunk_run_phases(v, a);
        },
    }
}

/// What is behind the head is read the same however it is cut into reads.
proof fn lemma_after_head_pieces(v: ReaderView, head: Seq<u8>, a: Seq<u8>, b: Seq<u8>)
    ensures
        after_head(v, head, a).phase != Phase::Head,
        fed(after_head(v, head, a), b) == after_head(v, head, a + b),
{
    if !http::status_ok(head) {
        lemma_finished_run(failed(v), b);
    } else {
        let w = ReaderView {
            head: seq![],
            line: seq![],
            keep_alive: !http::asks_to_close(http::head_lines(head)),
            ..v
        };
        match http::body_kind(head) {
            BodyKind::Length(n) => {
                lemma_length_run_pieces(w, n, a, b);
            },
            BodyKind::Chunked => {
                lemma_chunk_run_pieces(in_phase(w, Phase::ChunkSize), a, b);
                lemma_chunk_run_phases(in_phase(w, Phase::ChunkSize), a);
            },
            BodyKind::UntilEof => {
                metrics::lemma_pushed_pieces(w.parser, a, b);
            },
        }
    }
}

/// The head ends where it did when more bytes come behind it.
proof fn lemma_header_end_stays(h: Seq<u8>, b: Seq<u8>)
    requires
        http::header_end(h) is Some,
    ensures
        http::header_end(h + b) == http::header_end(h),
{
    let w = h + b;
    let p = http::header_end(h)->0;
    http::lemma_header_end_from(h, 0);
    assert(http::blank_line_at(w, p - 4));
    assert forall|j: int| 0 <= j < p - 4 implies !http::blank_line_at(w, j) by {
        assert(!http::blank_line_at(h, j));
    }
    http::lemma_header_end_at(w, p);
}

/// The reader after several reads.
pub open spec fn fed_all(v: ReaderView, reads: Seq<Seq<u8>>) -> ReaderView
    decreases reads.len(),
{
    if reads.len() == 0 {
        v
    } else {
        fed(fed_all(v, reads.drop_last()), reads.last())
    }
}

/// The bytes of several reads, one behind the other.
pub open spec fn joined(reads: Seq<Seq<u8>>) -> Seq<u8>
    decreases reads.len(),
{
    if reads.len() == 0 {
        seq![]
    } else {
        joined(reads.drop_last()) + reads.last()
    }
}

/// The longest head that fits whatever the reads are.
pub open spec fn sure_head() -> int {
    head_limit() - READ_SIZE
}

/// Whether the head in the bytes `h` fits: it is complete in time, or all of them fit.
pub open spec fn head_fits(h: Seq<u8>) -> bool {
    match http::header_end(h) {
        Some(p) => p <= sure_head(),
        None => h.len() <= head_limit(),
    }
}

/// A response is read the same in whatever reads it comes, and however long its body is, as long
/// as its head fits.
#[verifier::rlimit(40)]
pub proof fn lemma_reads_joined(v: ReaderView, reads: Seq<Seq<u8>>)
    requires
        awaits(v),
        forall|i: int| 0 <= i < reads.len() ==> (#[trigger] reads[i]).len() <= READ_SIZE,
        v.phase == Phase::Head ==> head_fits(v.head + joined(reads)),
    ensures
        reads.len() > 0 ==> fed_all(v, reads) == taken(v, joined(reads)),
        awaits(fed_all(v, reads)),
    decreases reads.len(),
{
    if reads.len() > 0 {
        let most = reads.drop_last();
        let a = joined(most);
        let b = reads.last();
        let h = v.head + a;
        assert(b == reads[reads.len() - 1]);
        if v.phase == Phase::Head {
            assert(v.head + (a + b) =~= h + b);
            if http::header_end(h) is Some {
                lemma_header_end_stays(h, b);
            } else if http::header_end(h + b) is Some {
                let p = http::header_end(h + b)->0;
                http::lemma_header_end_from(h, 0);
                http::lemma_header_end_from(h + b, 0);
                if p <= h.len() {
                    assert(http::blank_line_at(h, p - 4));
                }
            }
            assert(head_fits(h));
        }
        lemma_reads_joined(v, most);
        if most.len() == 0 {
            assert(a =~= seq![]);
            assert(joined(reads) =~= b);
            assert(h =~= v.head);
            assert(fed_all(v, most) == v);
            assert(fed(v, b) == taken(v, b));
            lemma_taken_pieces(v, b, seq![]);
        } else {
            let u = taken(v, a);
            lemma_taken_pieces(v, a, b);
            lemma_taken_pieces(v, a + b, seq![]);
            assert(fed_all(v, most) == u);
            if u.phase == Phase::Head {
                assert(u.head == h);
                assert((h + b).len() <= head_limit());
            }
            assert(fed(u, b) == taken(u, b));
        }
    }
}

/// The same bytes in other reads leave the same reader.
pub proof fn lemma_reads_do_not_matter(v: ReaderView, one: Seq<Seq<u8>>, other: Seq<Seq<u8>>)
    requires
        awaits(v),
        one.len() > 0,
        other.len() > 0,
        joined(one) == joined(other),
        forall|i: int| 0 <= i < one.len() ==> (#[trigger] one[i]).len() <= READ_SIZE,
        forall|i: int| 0 <= i < other.len() ==> (#[trigger] other[i]).len() <= READ_SIZE,
        v.phase == Phase::Head ==> head_fits(v.head + joined(one)),
    ensures
        fed_all(v, one) == fed_all(v, other),
{
    lemma_reads_joined(v, one);
    lemma_reads_joined(v, other);
}

/// A chunk as it is sent: its size line and its bytes.
pub struct Chunk {
    pub size_line: Seq<u8>,
    pub data: Seq<u8>,
}

/// A line ending.
pub open spec fn crlf() -> Seq<u8> {
    seq![0x0du8, 0x0au8]
}

/// Whether a size line can be read: it fits, and has no line feed in it.
pub open spec fn is_size_line(line: Seq<u8>) -> bool {
    line.len() < size_line_limit() && forall|i: int| 0 <= i < line.len() ==> line[i] != 0x0a
}

/// Whether a chunk is sent as it should be: with its size before it.
pub open spec fn is_chunk(c: Chunk) -> bool {
    &&& is_size_line(c.size_line)
    &&& c.data.len() > 0
    &&& http::chunk_size(c.size_line) == Some(c.data.len() as usize)
    &&& c.data.len() <= usize::MAX
}

/// The bytes of a chunk as it is sent.
pub open spec fn sent_chunk(c: Chunk) -> Seq<u8> {
    c.size_line + crlf() + c.data + crlf()
}

/// The bytes of the chunks, one behind the other.
pub open spec fn sent_chunks(chunks: Seq<Chunk>) -> Seq<u8>
    decreases chunks.len(),
{
    if chunks.len() == 0 {
        seq![]
    } else {
        sent_chunks(chunks.drop_last()) + sent_chunk(chunks.last())
    }
}

/// The body that chunks carry.
pub open spec fn carried(chunks: Seq<Chunk>) -> Seq<u8>
    decreases chunks.len(),
{
    if chunks.len() == 0 {
        seq![]
    } else {
        carried(chunks.drop_last()) + chunks.last().data
    }
}

/// A size line is gathered byte by byte.
proof fn lemma_size_line_run(v: ReaderView, line: Seq<u8>)
    requires
        v.phase == Phase::ChunkSize,
        v.line.len() == 0,
        line.len() <= size_line_limit(),
        forall|i: int| 0 <= i < line.len() ==> line[i] != 0x0a,
    ensures
        chunk_run(v, line) == (ReaderView { line: line, ..v }),
    decreases line.len(),
{
    if line.len() == 0 {
        assert(line =~= v.line);
    } else {
        let most = line.drop_last();
        lemma_size_line_run(v, most);
        lemma_chunk_run_pieces(v, most, seq![line.last()]);
        assert(most + seq![line.last()] =~= line);
        assert(seq![line.last()].drop_first() =~= seq![]);
        let w = ReaderView { line: most, ..v };
        assert(chunk_run(w, seq![line.last()]) == chunk_run(chunk_step(w, line.last()), seq![]));
        assert(most.push(line.last()) =~= line);
    }
}

/// A size line with its ending leads to what the size asks for.
proof fn lemma_size_line_done(v: ReaderView, line: Seq<u8>)
    requires
        v.phase == Phase::ChunkSize,
        v.line.len() == 0,
        is_size_line(line),
        http::chunk_size(line) is Some,
    ensures
        chunk_run(v, line + crlf()) == in_phase(
            v,
            if http::chunk_size(line)->0 == 0 {
                first_trailer()
            } else {
                Phase::ChunkData(http::chunk_size(line)->0)
            },
        ),
{
    let with_cr = line.push(0x0d);
    lemma_size_line_run(v, with_cr);
    assert(with_cr + seq![0x0au8] =~= line + crlf());
    lemma_chunk_run_pieces(v, with_cr, seq![0x0au8]);
    let w = ReaderView { line: with_cr, ..v };
    assert(size_text(with_cr) =~= line);
    assert(seq![0x0au8].drop_first() =~= seq![]);
    assert(chunk_run(w, seq![0x0au8]) == chunk_run(chunk_step(w, 0x0a), seq![]));
}

/// One chunk gives its data to the parser.
proof fn lemma_chunk_decoded(v: ReaderView, c: Chunk)
    requires
        v.phase == Phase::ChunkSize,
        v.line.len() == 0,
        is_chunk(c),
    ensures
        chunk_run(v, sent_chunk(c)) == (ReaderView {
            parser: metrics::pushed(v.parser, c.data),
            ..v
        }),
{
    let n = c.data.len() as usize;
    let start = in_phase(v, Phase::ChunkData(n));
    let tail = c.data + crlf();
    lemma_size_line_done(v, c.size_line);
    lemma_chunk_run_pieces(v, c.size_line + crlf(), tail);
    assert((c.size_line + crlf()) + tail =~= sent_chunk(c));
    lemma_chunk_data_run(start, tail, n, n as int);
    assert(tail.take(n as int) =~= c.data);
    assert(tail.skip(n as int) =~= crlf());
    let behind = ReaderView {
        phase: Phase::ChunkEnd(false),
        parser: metrics::pushed(v.parser, c.data),
        ..start
    };
    let half = chunk_step(behind, 0x0d);
    assert(crlf().drop_first() =~= seq![0x0au8]);
    assert(seq![0x0au8].drop_first() =~= seq![]);
    assert(chunk_run(behind, crlf()) == chunk_run(half, seq![0x0au8]));
    assert(chunk_run(half, seq![0x0au8]) == chunk_run(chunk_step(half, 0x0a), seq![]));
    assert(v.line =~= seq![]);
}

/// Chunks one behind the other give their data to the parser.
proof fn lemma_chunks_decoded(v: ReaderView, chunks: Seq<Chunk>)
    requires
        v.phase == Phase::ChunkSize,
        v.line.len() == 0,
        forall|i: int| 0 <= i < chunks.len() ==> is_chunk(#[trigger] chunks[i]),
    ensures
        chunk_run(v, sent_chunks(chunks)) == (ReaderView {
            parser: metrics::pushed(v.parser, carried(chunks)),
            ..v
        }),
    decreases chunks.len(),
{
    if chunks.len() > 0 {
        let most = chunks.drop_last();
        lemma_chunks_decoded(v, most);
        lemma_chunk_run_pieces(v, sent_chunks(most), sent_chunk(chunks.last()));
        let w = ReaderView { parser: metrics::pushed(v.parser, carried(most)), ..v };
        lemma_chunk_decoded(w, chunks.last());
        metrics::lemma_pushed_pieces(v.parser, carried(most), chunks.last().data);
    }
}

/// Whether a line is a trailer: it is not empty, and has no line feed in it.
pub open spec fn is_trailer(line: Seq<u8>) -> bool {
    &&& exists|i: int| 0 <= i < line.len() && line[i] != 0x0d
    &&& forall|i: int| 0 <= i < line.len() ==> line[i] != 0x0a
}

/// The trailer lines as they are sent, one behind the other.
pub open spec fn sent_trailers(lines: Seq<Seq<u8>>) -> Seq<u8>
    decreases lines.len(),
{
    if lines.len() == 0 {
        seq![]
    } else {
        sent_trailers(lines.drop_last()) + lines.last() + crlf()
    }
}

/// A trailer line is passed over byte by byte.
proof fn lemma_trailer_run(v: ReaderView, behind: bool, s: Seq<u8>)
    requires
        v.phase == (Phase::Trailer { started: false, behind, cr: false }),
        v.line.len() == 0,
        forall|i: int| 0 <= i < s.len() ==> s[i] != 0x0a,
    ensures
        chunk_run(v, s) == in_phase(
            v,
            Phase::Trailer {
                started: exists|i: int| 0 <= i < s.len() && s[i] != 0x0d,
                behind,
                cr: s.len() > 0 && s.last() == 0x0d,
            },
        ),
    decreases s.len(),
{
    if s.len() == 0 {
        assert(v.line =~= seq![]);
    } else {
        let most = s.drop_last();
        lemma_trailer_run(v, behind, most);
        lemma_chunk_run_pieces(v, most, seq![s.last()]);
        assert(most + seq![s.last()] =~= s);
        assert(seq![s.last()].drop_first() =~= seq![]);
        let w = chunk_run(v, most);
        assert(chunk_run(w, seq![s.last()]) == chunk_run(chunk_step(w, s.last()), seq![]));
        let before = exists|i: int| 0 <= i < most.len() && most[i] != 0x0d;
        let now = exists|i: int| 0 <= i < s.len() && s[i] != 0x0d;
        if before {
            let k = choose|i: int| 0 <= i < most.len() && most[i] != 0x0d;
            assert(s[k] == most[k]);
        }
        if s.last() != 0x0d {
            assert(s[s.len() - 1] != 0x0d);
        }
        if now && s.last() == 0x0d {
            let k = choose|i: int| 0 <= i < s.len() && s[i] != 0x0d;
            assert(most[k] == s[k]);
        }
        assert(now == (before || s.last() != 0x0d));
    }
}

/// A line ending behind a trailer line, or behind nothing.
proof fn lemma_trailer_line_end(v: ReaderView, behind: bool, line: Seq<u8>)
    requires
        v.phase == (Phase::Trailer { started: false, behind, cr: false }),
        v.line.len() == 0,
        line.len() == 0 || is_trailer(line),
    ensures
        chunk_run(v, line + crlf()) == in_phase(
            v,
            if line.len() == 0 {
                Phase::Done
            } else {
                Phase::Trailer { started: false, behind: true, cr: false }
            },
        ),
{
    let with_cr = line.push(0x0d);
    lemma_trailer_run(v, behind, with_cr);
    lemma_chunk_run_pieces(v, with_cr, seq![0x0au8]);
    assert(with_cr + seq![0x0au8] =~= line + crlf());
    assert(seq![0x0au8].drop_first() =~= seq![]);
    let w = chunk_run(v, with_cr);
    assert(chunk_run(w, seq![0x0au8]) == chunk_run(chunk_step(w, 0x0a), seq![]));
    if line.len() > 0 {
        let k = choose|i: int| 0 <= i < line.len() && line[i] != 0x0d;
        assert(with_cr[k] != 0x0d);
    }
}

/// Trailer lines one behind the other are passed over.
proof fn lemma_trailers_passed(v: ReaderView, lines: Seq<Seq<u8>>)
    requires
        v.phase == first_trailer(),
        v.line.len() == 0,
        forall|i: int| 0 <= i < lines.len() ==> is_trailer(#[trigger] lines[i]),
    ensures
        chunk_run(v, sent_trailers(lines)) == in_phase(
            v,
            Phase::Trailer { started: false, behind: lines.len() > 0, cr: false },
        ),
    decreases lines.len(),
{
    if lines.len() == 0 {
        assert(v.line =~= seq![]);
    } else {
        let most = lines.drop_last();
        lemma_trailers_passed(v, most);
        lemma_chunk_run_pieces(v, sent_trailers(most), lines.last() + crlf());
        assert(sent_trailers(most) + (lines.last() + crlf()) =~= sent_trailers(lines));
        let w = chunk_run(v, sent_trailers(most));
        lemma_trailer_line_end(w, most.len() > 0, lines.last());
    }
}

/// Chunked transfer is undone: chunks sent with their sizes, an empty one behind them, trailer
/// lines or none and an empty line give the parser the body that the chunks carry, and complete
/// the response. Nothing of it is left over.
pub proof fn lemma_chunked_body(
    v: ReaderView,
    chunks: Seq<Chunk>,
    last: Seq<u8>,
    trailers: Seq<Seq<u8>>,
)
    requires
        v.phase == Phase::ChunkSize,
        v.line.len() == 0,
        forall|i: int| 0 <= i < chunks.len() ==> is_chunk(#[trigger] chunks[i]),
        is_size_line(last),
        http::chunk_size(last) == Some(0usize),
        forall|i: int| 0 <= i < trailers.len() ==> is_trailer(#[trigger] trailers[i]),
    ensures
        chunk_run(
            v,
            sent_chunks(chunks) + last + crlf() + sent_trailers(trailers) + crlf(),
        ) == (ReaderView {
            phase: Phase::Done,
            parser: metrics::pushed(v.parser, carried(chunks)),
            ..v
        }),
{
    let w = ReaderView { parser: metrics::pushed(v.parser, carried(chunks)), ..v };
    let end = last + crlf();
    let more = sent_trailers(trailers);
    lemma_chunks_decoded(v, chunks);
    lemma_chunk_run_pieces(v, sent_chunks(chunks), end + more + crlf());
    assert(sent_chunks(chunks) + (end + more + crlf()) =~= sent_chunks(chunks) + last + crlf()
        + more + crlf());
    lemma_size_line_done(w, last);
    lemma_chunk_run_pieces(w, end, more + crlf());
    assert(end + (more + crlf()) =~= end + more + crlf());
    let t = in_phase(w, first_trailer());
    lemma_trailers_passed(t, trailers);
    lemma_chunk_run_pieces(t, more, crlf());
    let u = chunk_run(t, more);
    lemma_trailer_line_end(u, trailers.len() > 0, seq![]);
    assert(Seq::<u8>::empty() + crlf() =~= crlf());
    assert(v.line =~= seq![]);
}

/// Bytes behind a complete response, in the same read or a later one, spoil the connection and
/// change nothing else.
pub proof fn lemma_surplus_spoils(v: ReaderView, s: Seq<u8>, surplus: Seq<u8>)
    requires
        awaits(v),
        taken(v, s).phase == Phase::Done,
        surplus.len() > 0,
    ensures
        taken(v, s + surplus) == (ReaderView { keep_alive: false, ..taken(v, s) }),
{
    lemma_taken_pieces(v, s, surplus);
    lemma_finished_run(taken(v, s), surplus);
}

/// A connection is kept only where the head does not ask to close it and says where the body
/// ends.
pub proof fn lemma_kept_only_if_framed(v: ReaderView, head: Seq<u8>, rest: Seq<u8>)
    ensures
        after_head(v, head, rest).keep_alive ==> {
            &&& http::status_ok(head)
            &&& !http::asks_to_close(http::head_lines(head))
            &&& http::body_kind(head) != BodyKind::UntilEof
        },
{
    let w = ReaderView {
        head: seq![],
        line: seq![],
        keep_alive: !http::asks_to_close(http::head_lines(head)),
        ..v
    };
    lemma_chunk_run_phases(in_phase(w, Phase::ChunkSize), rest);
}

/// Whether a reader is at the beginning of a response.
pub open spec fn at_start(v: ReaderView) -> bool {
    v.phase == Phase::Head && v.head.len() == 0 && v.line.len() == 0
}

/// Whether bytes are those of a head: they end with an empty line, the first one in them.
pub open spec fn is_head(head: Seq<u8>) -> bool {
    http::header_end(head) == Some(head.len() as int)
}

/// Whether a head is that of a success that says nothing of chunks.
pub open spec fn is_plain_success(head: Seq<u8>) -> bool {
    let lines = http::head_lines(head);
    &&& is_head(head)
    &&& http::status_ok(head)
    &&& forall|j: int| 0 <= j < lines.len() ==> !http::names_chunked(#[trigger] lines[j])
}

/// What follows a head is read as the body that the head announces.
proof fn lemma_behind_head(v: ReaderView, head: Seq<u8>, rest: Seq<u8>)
    requires
        at_start(v),
        is_head(head),
    ensures
        taken(v, head + rest) == after_head(v, head, rest),
{
    let h = v.head + (head + rest);
    assert(h =~= head + rest);
    lemma_header_end_stays(head, rest);
    assert(h.take(head.len() as int) =~= head);
    assert(h.skip(head.len() as int) =~= rest);
}

/// A body of a declared length: exactly as many bytes as the head says are given to the parser, and
/// the response is complete when the last of them has come, not before. The connection is worth
/// keeping then unless the head asks to close it or more has come.
#[verifier::rlimit(40)]
pub proof fn lemma_length_response(
    v: ReaderView,
    head: Seq<u8>,
    k: int,
    n: nat,
    body: Seq<u8>,
    surplus: Seq<u8>,
)
    requires
        at_start(v),
        is_plain_success(head),
        0 <= k < http::head_lines(head).len(),
        http::declares(http::head_lines(head)[k], n),
        forall|j: int|
            k < j < http::head_lines(head).len() ==> !http::is_length_field(
                #[trigger] http::head_lines(head)[j],
            ),
        body.len() <= n <= usize::MAX,
    ensures
        taken(v, head + body).parser == metrics::pushed(v.parser, body),
        body.len() < n ==> taken(v, head + body).phase == Phase::Length((n - body.len()) as usize),
        body.len() == n ==> {
            let w = taken(v, head + body + surplus);
            &&& w.phase == Phase::Done
            &&& w.parser == metrics::pushed(v.parser, body)
            &&& w.keep_alive == (surplus.len() == 0 && !http::asks_to_close(
                http::head_lines(head),
            ))
        },
{
    let lines = http::head_lines(head);
    http::lemma_body_kind(head, k, n);
    lemma_behind_head(v, head, body);
    lemma_behind_head(v, head, body + surplus);
    assert(head + (body + surplus) =~= head + body + surplus);
    assert(body.take(body.len() as int) =~= body);
    assert((body + surplus).take(body.len() as int) =~= body);
}

/// A chunked response: what the chunks carry is given to the parser, and the response is complete
/// behind the empty line after the last one, whatever length the head declares. The connection is
/// worth keeping then unless the head asks to close it.
pub proof fn lemma_chunked_response(
    v: ReaderView,
    head: Seq<u8>,
    k: int,
    chunks: Seq<Chunk>,
    last: Seq<u8>,
    trailers: Seq<Seq<u8>>,
)
    requires
        at_start(v),
        is_head(head),
        http::status_ok(head),
        0 <= k < http::head_lines(head).len(),
        http::names_chunked(http::head_lines(head)[k]),
        forall|i: int| 0 <= i < chunks.len() ==> is_chunk(#[trigger] chunks[i]),
        is_size_line(last),
        http::chunk_size(last) == Some(0usize),
        forall|i: int| 0 <= i < trailers.len() ==> is_trailer(#[trigger] trailers[i]),
    ensures
        ({
            let w = taken(
                v,
                head + (sent_chunks(chunks) + last + crlf() + sent_trailers(trailers) + crlf()),
            );
            &&& w.phase == Phase::Done
            &&& w.parser == metrics::pushed(v.parser, carried(chunks))
            &&& w.keep_alive == !http::asks_to_close(http::head_lines(head))
        }),
{
    let lines = http::head_lines(head);
    let rest = sent_chunks(chunks) + last + crlf() + sent_trailers(trailers) + crlf();
    assert(http::names_chunked(lines[k]));
    http::lemma_body_kind(head, k, 0);
    lemma_behind_head(v, head, rest);
    let w = ReaderView {
        phase: Phase::ChunkSize,
        head: seq![],
        line: seq![],
        keep_alive: !http::asks_to_close(lines),
        ..v
    };
    lemma_chunked_body(w, chunks, last, trailers);
}

/// A response that says nothing of its length: all that follows the head is given to the parser, in
/// the end the response is complete however the connection ended, and the connection is not worth
/// keeping.
pub proof fn lemma_eof_response(v: ReaderView, head: Seq<u8>, body: Seq<u8>, broken: bool)
    requires
        at_start(v),
        is_plain_success(head),
        forall|j: int|
            0 <= j < http::head_lines(head).len() ==> !http::is_length_field(
                #[trigger] http::head_lines(head)[j],
            ),
    ensures
        ({
            let w = taken(v, head + body);
            let u = ended(w, broken);
            &&& w.phase == Phase::UntilEof
            &&& !w.keep_alive
            &&& w.parser == metrics::pushed(v.parser, body)
            &&& u.phase == Phase::Done
            &&& !u.keep_alive
            &&& u.parser == w.parser
        }),
{
    http::lemma_body_kind(head, 0, 0);
    lemma_behind_head(v, head, body);
}

/// Whether a reader has given up: nothing of the response is used, nor is the connection.
pub open spec fn gave_up(v: ReaderView) -> bool {
    v.phase == Phase::Failed && !v.keep_alive
}

/// A response that is no success is given up, whatever follows its head, and so is one with a head
/// that is too long for its buffer.
pub proof fn lemma_no_success_given_up(v: ReaderView, head: Seq<u8>, rest: Seq<u8>, s: Seq<u8>)
    requires
        at_start(v),
        is_head(head),
        !http::status_ok(head),
    ensures
        gave_up(taken(v, head + rest)),
        taken(v, head + rest).parser == v.parser,
        s.len() > 1536 ==> gave_up(fed(v, s)),
{
    lemma_behind_head(v, head, rest);
    assert(v.head + s =~= s);
}

/// A reader that has given up stays so, and one that is done stays done: neither gives the parser
/// anything more.
pub proof fn lemma_end_is_final(v: ReaderView, s: Seq<u8>, broken: bool)
    requires
        v.phase == Phase::Done || v.phase == Phase::Failed,
    ensures
        fed(v, s).phase == v.phase,
        fed(v, s).parser == v.parser,
        fed(v, s).keep_alive ==> v.keep_alive && (v.phase == Phase::Done ==> s.len() == 0),
        ended(v, broken).phase == v.phase,
        ended(v, broken).parser == v.parser,
{
    lemma_finished_run(v, s);
}

/// A connection that ends in the head, in a body of known length or in a chunk, or before the empty
/// line behind the last chunk where no trailer stands before, leaves a response that is given up.
/// One that fails behind the last chunk does so too.
pub proof fn lemma_cut_off_given_up(v: ReaderView, broken: bool)
    ensures
        v.phase == Phase::Head || v.phase is Length || v.phase == Phase::ChunkSize
            || v.phase is ChunkData || v.phase is ChunkEnd ==> gave_up(ended(v, broken)),
        v.phase is Trailer && broken ==> gave_up(ended(v, broken)),
        v.phase == (Phase::Trailer { started: false, behind: false, cr: false }) ==> gave_up(
            ended(v, broken),
        ),
        (v.phase matches Phase::Trailer { started, behind, cr } && started) ==> gave_up(
            ended(v, broken),
        ),
        (v.phase matches Phase::Trailer { started, behind, cr } && !started && behind && !broken)
            ==> ended(v, broken).phase == Phase::Done && !ended(v, broken).keep_alive,
        ended(v, broken).parser == v.parser,
        ended(v, broken).keep_alive ==> v.keep_alive,
{
}

/// A size line may end with a line feed alone.
pub proof fn lemma_size_line_feed(v: ReaderView, line: Seq<u8>)
    requires
        v.phase == Phase::ChunkSize,
        v.line.len() == 0,
        is_size_line(line),
        line.len() > 0 ==> line.last() != 0x0d,
        http::chunk_size(line) is Some,
    ensures
        chunk_run(v, line + seq![0x0au8]) == chunk_run(v, line + crlf()),
{
    lemma_size_line_done(v, line);
    lemma_size_line_run(v, line);
    lemma_chunk_run_pieces(v, line, seq![0x0au8]);
    let w = ReaderView { line, ..v };
    assert(size_text(line) =~= line);
    assert(seq![0x0au8].drop_first() =~= seq![]);
    assert(chunk_run(w, seq![0x0au8]) == chunk_run(chunk_step(w, 0x0a), seq![]));
}

/// A size line without a size, or one that is too long, is given up on, and so is a chunk without a
/// line ending behind it. What follows does not matter.
pub proof fn lemma_bad_chunk_given_up(v: ReaderView, line: Seq<u8>, b: u8, rest: Seq<u8>)
    requires
        v.line.len() == 0,
    ensures
        v.phase == Phase::ChunkSize && is_size_line(line) && http::chunk_size(line) is None
            ==> gave_up(chunk_run(v, line + crlf() + rest)),
        v.phase == Phase::ChunkSize && line.len() == 64 && (forall|i: int|
            0 <= i < line.len() ==> line[i] != 0x0a) && b != 0x0a ==> gave_up(
            chunk_run(v, line.push(b) + rest),
        ),
        v.phase == Phase::ChunkEnd(false) && b != 0x0d ==> gave_up(chunk_run(v, seq![b] + rest)),
        v.phase == Phase::ChunkEnd(true) && b != 0x0a ==> gave_up(chunk_run(v, seq![b] + rest)),
{
    if v.phase == Phase::ChunkSize && is_size_line(line) && http::chunk_size(line) is None {
        let with_cr = line.push(0x0d);
        let tail = seq![0x0au8] + rest;
        lemma_size_line_run(v, with_cr);
        lemma_chunk_run_pieces(v, with_cr, tail);
        assert(with_cr + tail =~= line + crlf() + rest);
        let w = ReaderView { line: with_cr, ..v };
        assert(size_text(with_cr) =~= line);
        assert(tail[0] == 0x0a);
        assert(tail.drop_first() =~= rest);
        lemma_finished_run(chunk_step(w, 0x0a), rest);
    }
    if v.phase == Phase::ChunkSize && line.len() == 64 && (forall|i: int|
        0 <= i < line.len() ==> line[i] != 0x0a) && b != 0x0a {
        let tail = seq![b] + rest;
        lemma_size_line_run(v, line);
        lemma_chunk_run_pieces(v, line, tail);
        assert(line + tail =~= line.push(b) + rest);
        let w = ReaderView { line, ..v };
        assert(tail.drop_first() =~= rest);
        lemma_finished_run(chunk_step(w, b), rest);
    }
    let tail = seq![b] + rest;
    assert(tail.drop_first() =~= rest);
    if (v.phase == Phase::ChunkEnd(false) && b != 0x0d) || (v.phase == Phase::ChunkEnd(true) && b
        != 0x0a) {
        lemma_finished_run(chunk_step(v, b), rest);
    }
}

/// Only a complete response has a result: the stats that its body gives, its last line included,
/// and whether its connection is worth keeping. Any other gives no stats, and its connection is
/// not.
pub proof fn lemma_result(v: ReaderView, h: CpuHistory, f: Figures)
    ensures
        progress_of(v.phase) == Progress::Done <==> v.phase == Phase::Done,
        progress_of(v.phase) == Progress::Failed <==> v.phase == Phase::Failed,
        v.phase == Phase::Done ==> result_of(v, h, f).keep_alive == v.keep_alive && result_of(
            v,
            h,
            f,
        ).stats == metrics::stats_of(metrics::pushed_byte(v.parser, 0x0a).readings, h, f),
        v.phase != Phase::Done ==> {
            let r = result_of(v, h, f);
            &&& !r.keep_alive
            &&& r.stats.cpu_percent is None
            &&& r.stats.mem_percent is None
            &&& !r.stats.reachable
        },
{
}

/// A head may take 1536 bytes with what came in the same read behind it; as long as it does, a read
/// is taken over whole.
pub proof fn lemma_head_limit(v: ReaderView, s: Seq<u8>)
    requires
        v.phase == Phase::Head,
    ensures
        v.head.len() + s.len() > 1536 ==> gave_up(fed(v, s)),
        v.head.len() + s.len() <= 1536 ==> fed(v, s) == taken(v, s),
{
}

} // verus!
