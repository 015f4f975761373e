//! One scrape as a state machine.
//!
//! Two scrape slots keep a connection alive across the scrape loop when the
//! peer speaks HTTP/1.1 keep-alive. The machine says what to do with the
//! connection; the caller does it and reports what came of it.

use vstd::prelude::*;

use crate::bounded;
use crate::bounded::Text;
use crate::http;
use crate::metrics;
use crate::metrics::GaugeStats;
use crate::response::HttpResult;
use crate::text;

verus! {

/// The number of scrape slots.
pub const SLOT_COUNT: usize = 2;

/// How long a request may take, in seconds.
pub const HTTP_SECS: u64 = 45;

/// How long it may take to open a TCP connection, in seconds.
pub const CONNECT_SECS: u64 = 15;

/// How long it may take to open a TLS session, in seconds.
pub const TLS_SECS: u64 = 20;

/// The pause after a connection was aborted, in milliseconds.
pub const ABORT_PAUSE_MS: u64 = 50;

/// What is known of the connection that a slot keeps.
pub struct Slot {
    host: heapless::String<64>,
    use_tls: bool,
    live: bool,
}

/// A slot as a mathematical value.
pub struct SlotView {
    pub host: Seq<char>,
    pub use_tls: bool,
    pub live: bool,
}

impl View for Slot {
    type V = SlotView;

    closed spec fn view(&self) -> SlotView {
        SlotView { host: self.host.text(), use_tls: self.use_tls, live: self.live }
    }
}

/// A slot that keeps no connection.
pub open spec fn empty_slot() -> SlotView {
    SlotView { host: seq![], use_tls: false, live: false }
}

/// The slot's connection serves a request to `host`.
pub open spec fn serves(s: SlotView, host: Seq<char>, use_tls: bool) -> bool {
    s.live && s.host == host && s.use_tls == use_tls
}

/// The slot without its connection.
pub open spec fn dropped(s: SlotView) -> SlotView {
    SlotView { host: seq![], live: false, ..s }
}

/// The slot that keeps a connection to `host`. A host name that does not fit
/// is not kept, so that the slot serves no request.
pub open spec fn remembered(host: Seq<char>, use_tls: bool) -> SlotView {
    SlotView { host: bounded::appended(seq![], host, 64), use_tls, live: true }
}

impl Slot {
    /// A slot that keeps no connection.
    pub fn new() -> (r: Self)
        ensures
            r@ == empty_slot(),
    {
        Slot { host: bounded::new_text(), use_tls: false, live: false }
    }

    /// The slot's connection serves a request to `host`.
    pub fn can_serve(&self, host: &str, use_tls: bool) -> (r: bool)
        ensures
            r == serves(self@, host@, use_tls),
    {
        self.live && self.use_tls == use_tls && text::same_text(bounded::host_str(&self.host), host)
    }

    /// Notes that the slot keeps a connection to `host`.
    fn remember(&mut self, host: &str, use_tls: bool)
        ensures
            final(self)@ == remembered(host@, use_tls),
    {
        bounded::clear_text(&mut self.host);
        let _ = bounded::push_text(&mut self.host, host);
        self.use_tls = use_tls;
        self.live = true;
    }

    /// Notes that the slot keeps no connection; tells whether it kept one.
    fn drop_conn(&mut self) -> (r: bool)
        ensures
            final(self)@ == dropped(old(self)@),
            r == old(self)@.live,
    {
        let live = self.live;
        self.live = false;
        bounded::clear_text(&mut self.host);
        live
    }
}

/// The slots, one for each gauge.
pub struct Slots {
    first: Slot,
    second: Slot,
}

impl View for Slots {
    type V = Seq<SlotView>;

    closed spec fn view(&self) -> Seq<SlotView> {
        seq![self.first@, self.second@]
    }
}

/// There are always two slots.
pub proof fn lemma_two_slots(slots: Slots)
    ensures
        slots@.len() == SLOT_COUNT,
{
}

impl Slots {
    /// Slots that keep no connection.
    pub fn new() -> (r: Self)
        ensures
            r@ == seq![empty_slot(), empty_slot()],
    {
        Slots { first: Slot::new(), second: Slot::new() }
    }

    /// The slot at `i`, where `i` is below the number of slots.
    fn at(&mut self, i: usize) -> (r: &mut Slot)
        requires
            i < SLOT_COUNT,
        ensures
            r@ == old(self)@[i as int],
            final(self)@ == old(self)@.update(i as int, final(r)@),
    {
        if i == 0 {
            &mut self.first
        } else {
            &mut self.second
        }
    }
}

/// Where a scrape is.
#[derive(Clone, Copy, PartialEq, Eq, Structural)]
pub enum Stage {
    /// A request is under way on the connection that the slot keeps.
    Reuse,
    /// The connection that the slot kept is being aborted.
    Drop,
    /// The host name is being resolved.
    Resolve,
    /// A TCP connection is being opened.
    Connect,
    /// A TLS session is being opened.
    Open,
    /// A request is under way on the new connection.
    Request,
    /// The new connection is being aborted.
    Close,
    /// The scrape is over.
    Over,
}

/// What the caller does next.
#[derive(Clone, Copy)]
pub enum Action {
    /// Send the request on the connection in hand and read the response, within
    /// so many seconds.
    Request { secs: u64 },
    /// Abort the connection in hand, then pause.
    Abort { pause_ms: u64 },
    /// Resolve the host name.
    Resolve,
    /// Open a TCP connection, within so many seconds.
    Connect { port: u16, secs: u64 },
    /// Open a TLS session on the new connection, within so many seconds.
    OpenTls { secs: u64 },
    /// Nothing: these are the stats.
    Finish(GaugeStats),
    /// Keep the connection in hand in the slot; these are the stats.
    Keep(GaugeStats),
}

/// What came of an action.
#[derive(Clone, Copy)]
pub enum Event {
    /// The request came to an end.
    Response(HttpResult),
    /// The connection is aborted.
    Aborted,
    /// The host name is resolved.
    Resolved,
    /// The TCP connection is open.
    Connected,
    /// The TLS session is open.
    Opened,
    /// The action failed.
    Failed,
    /// The action took too long.
    TimedOut,
}

/// A scrape under way.
pub struct Fetch {
    slot: usize,
    host: String,
    path: String,
    use_tls: bool,
    stage: Stage,
    outcome: GaugeStats,
}

/// A scrape as a mathematical value. `outcome` are the stats that are handed
/// out once the new connection is aborted.
pub struct FetchView {
    pub slot: int,
    pub host: Seq<char>,
    pub path: Seq<char>,
    pub use_tls: bool,
    pub stage: Stage,
    pub outcome: GaugeStats,
}

impl View for Fetch {
    type V = FetchView;

    closed spec fn view(&self) -> FetchView {
        FetchView {
            slot: self.slot as int,
            host: self.host@,
            path: self.path@,
            use_tls: self.use_tls,
            stage: self.stage,
            outcome: self.outcome,
        }
    }
}

/// The scrape in another stage.
pub open spec fn at_stage(f: FetchView, stage: Stage) -> FetchView {
    FetchView { stage, ..f }
}

/// The scrape that aborts its connection and then hands out `outcome`.
pub open spec fn closing(f: FetchView, outcome: GaugeStats) -> FetchView {
    FetchView { stage: Stage::Close, outcome, ..f }
}

/// The response is a success, and the connection is usable afterwards.
pub open spec fn worth_keeping(r: HttpResult) -> bool {
    r.keep_alive && r.stats.reachable
}

/// The stats that are reported for a response: those that it gave where they
/// say that the host is reachable, else none.
pub open spec fn reported(s: GaugeStats) -> GaugeStats {
    if s.reachable {
        s
    } else {
        metrics::no_stats()
    }
}

/// What the scrape `f`, its slot being `s`, makes of `e`: where it is then, what
/// the slot is then, and what is done next.
pub open spec fn fetch_step(f: FetchView, s: SlotView, e: Event) -> (
    FetchView,
    SlotView,
    Action,
) {
    let no_stats = metrics::no_stats();
    match (f.stage, e) {
        (Stage::Reuse, Event::Response(r)) => if worth_keeping(r) {
            (at_stage(f, Stage::Over), s, Action::Finish(r.stats))
        } else {
            (at_stage(f, Stage::Drop), dropped(s), Action::Abort { pause_ms: ABORT_PAUSE_MS })
        },
        (Stage::Reuse, _) => (
            at_stage(f, Stage::Drop),
            dropped(s),
            Action::Abort { pause_ms: ABORT_PAUSE_MS },
        ),
        (Stage::Drop, _) => (at_stage(f, Stage::Resolve), s, Action::Resolve),
        (Stage::Resolve, Event::Resolved) => (
            at_stage(f, Stage::Connect),
            s,
            Action::Connect {
                port: if f.use_tls {
                    443
                } else {
                    80
                },
                secs: CONNECT_SECS,
            },
        ),
        (Stage::Connect, Event::Connected) => if f.use_tls {
            (at_stage(f, Stage::Open), s, Action::OpenTls { secs: TLS_SECS })
        } else {
            (at_stage(f, Stage::Request), s, Action::Request { secs: HTTP_SECS })
        },
        (Stage::Connect, Event::TimedOut) => (
            closing(f, no_stats),
            s,
            Action::Abort { pause_ms: 0 },
        ),
        (Stage::Open, Event::Opened) => (
            at_stage(f, Stage::Request),
            s,
            Action::Request { secs: HTTP_SECS },
        ),
        (Stage::Open, _) => (closing(f, no_stats), s, Action::Abort { pause_ms: 0 }),
        (Stage::Request, Event::Response(r)) => if worth_keeping(r) {
            (at_stage(f, Stage::Over), remembered(f.host, f.use_tls), Action::Keep(r.stats))
        } else {
            (closing(f, reported(r.stats)), s, Action::Abort { pause_ms: ABORT_PAUSE_MS })
        },
        (Stage::Request, _) => (
            closing(f, no_stats),
            s,
            Action::Abort { pause_ms: ABORT_PAUSE_MS },
        ),
        (Stage::Close, _) => (at_stage(f, Stage::Over), s, Action::Finish(f.outcome)),
        _ => (at_stage(f, Stage::Over), s, Action::Finish(no_stats)),
    }
}

/// The slot that a scrape asked for uses: the last one where there are fewer.
pub open spec fn slot_index(slot: int) -> int {
    if slot < SLOT_COUNT {
        slot
    } else {
        SLOT_COUNT - 1
    }
}

/// How a scrape of `url` begins, its slot being `s`.
pub open spec fn fetch_start(slot: int, url: Seq<char>, s: SlotView) -> (
    FetchView,
    SlotView,
    Action,
) {
    let nothing = FetchView {
        slot: slot_index(slot),
        host: seq![],
        path: seq![],
        use_tls: false,
        stage: Stage::Over,
        outcome: metrics::no_stats(),
    };
    match http::url_parts(url) {
        None => (nothing, s, Action::Finish(metrics::no_stats())),
        Some(u) => {
            let f = FetchView { host: u.host, path: u.path, use_tls: u.use_tls, ..nothing };
            if serves(s, u.host, u.use_tls) {
                (at_stage(f, Stage::Reuse), s, Action::Request { secs: HTTP_SECS })
            } else if s.live {
                (at_stage(f, Stage::Drop), dropped(s), Action::Abort { pause_ms: ABORT_PAUSE_MS })
            } else {
                (at_stage(f, Stage::Resolve), dropped(s), Action::Resolve)
            }
        },
    }
}

/// How a scrape of `url` begins, with one of the slots.
pub open spec fn scrape_start(slots: Seq<SlotView>, slot: int, url: Seq<char>) -> (
    FetchView,
    Seq<SlotView>,
    Action,
) {
    let i = slot_index(slot);
    let (f, s, a) = fetch_start(slot, url, slots[i]);
    (f, slots.update(i, s), a)
}

/// What a scrape makes of `e`, with the slot that it uses.
pub open spec fn scrape_step(f: FetchView, slots: Seq<SlotView>, e: Event) -> (
    FetchView,
    Seq<SlotView>,
    Action,
) {
    let (g, s, a) = fetch_step(f, slots[f.slot], e);
    (g, slots.update(f.slot, s), a)
}

impl Fetch {
    /// The slot is one that exists.
    pub open spec fn wf(&self) -> bool {
        0 <= self@.slot < SLOT_COUNT
    }

    /// The host that is scraped.
    pub fn host(&self) -> (r: &str)
        ensures
            r@ == self@.host,
    {
        self.host.as_str()
    }

    /// The path that is asked for.
    pub fn path(&self) -> (r: &str)
        ensures
            r@ == self@.path,
    {
        self.path.as_str()
    }

    /// The slot in use.
    pub fn slot(&self) -> (r: usize)
        requires
            self.wf(),
        ensures
            r == self@.slot,
            r < SLOT_COUNT,
    {
        self.slot
    }

    /// Begins a scrape of `url` with the given slot.
    pub fn start(slots: &mut Slots, slot: usize, url: &str) -> (r: (Fetch, Action))
        ensures
            r.0.wf(),
            (r.0@, final(slots)@, r.1) == scrape_start(old(slots)@, slot as int, url@),
            final(slots)@.len() == SLOT_COUNT,
    {
        let slot: usize = if slot < SLOT_COUNT { slot } else { SLOT_COUNT - 1 };
        let (host, path, use_tls) = match http::parse_url(url) {
            Some(parts) => parts,
            None => {
                let f = Fetch {
                    slot,
                    host: String::new(),
                    path: String::new(),
                    use_tls: false,
                    stage: Stage::Over,
                    outcome: GaugeStats::default(),
                };
                assert(slots@ =~= slots@.update(slot as int, slots@[slot as int]));
                return (f, Action::Finish(GaugeStats::default()));
            },
        };
        let mut f = Fetch {
            slot,
            host: host.to_owned(),
            path: path.to_owned(),
            use_tls,
            stage: Stage::Reuse,
            outcome: GaugeStats::default(),
        };
        let ghost before = slots@;
        let s = slots.at(slot);
        if s.can_serve(host, use_tls) {
            assert(slots@ =~= before.update(slot as int, before[slot as int]));
            return (f, Action::Request { secs: HTTP_SECS });
        }
        if s.drop_conn() {
            f.stage = Stage::Drop;
            (f, Action::Abort { pause_ms: ABORT_PAUSE_MS })
        } else {
            f.stage = Stage::Resolve;
            (f, Action::Resolve)
        }
    }

    /// Aborts the new connection, then hands out `outcome`.
    fn close(&mut self, outcome: GaugeStats, pause_ms: u64) -> (r: Action)
        requires
            old(self).wf(),
        ensures
            final(self).wf(),
            final(self)@ == closing(old(self)@, outcome),
            r == (Action::Abort { pause_ms }),
    {
        self.stage = Stage::Close;
        self.outcome = outcome;
        Action::Abort { pause_ms }
    }

    /// Takes note of what came of the last action; tells the next one.
    pub fn step(&mut self, slots: &mut Slots, event: Event) -> (r: Action)
        requires
            old(self).wf(),
        ensures
            final(self).wf(),
            (final(self)@, final(slots)@, r) == scrape_step(old(self)@, old(slots)@, event),
            final(slots)@.len() == SLOT_COUNT,
    {
        let ghost before = slots@;
        let ghost i = self.slot as int;
        assert(slots@ =~= before.update(i, before[i]));
        match self.stage {
            Stage::Reuse => {
                if let Event::Response(result) = event {
                    if result.keep_alive && result.stats.reachable {
                        self.stage = Stage::Over;
                        return Action::Finish(result.stats);
                    }
                }
                let _ = slots.at(self.slot).drop_conn();
                self.stage = Stage::Drop;
                Action::Abort { pause_ms: ABORT_PAUSE_MS }
            },
            Stage::Drop => {
                self.stage = Stage::Resolve;
                Action::Resolve
            },
            Stage::Resolve => {
                if let Event::Resolved = event {
                    self.stage = Stage::Connect;
                    let port: u16 = if self.use_tls { 443 } else { 80 };
                    return Action::Connect { port, secs: CONNECT_SECS };
                }
                self.stage = Stage::Over;
                Action::Finish(GaugeStats::default())
            },
            Stage::Connect => {
                if let Event::Connected = event {
                    if self.use_tls {
                        self.stage = Stage::Open;
                        return Action::OpenTls { secs: TLS_SECS };
                    }
                    self.stage = Stage::Request;
                    return Action::Request { secs: HTTP_SECS };
                }
                if let Event::TimedOut = event {
                    return self.close(GaugeStats::default(), 0);
                }
                self.stage = Stage::Over;
                Action::Finish(GaugeStats::default())
            },
            Stage::Open => {
                if let Event::Opened = event {
                    self.stage = Stage::Request;
                    return Action::Request { secs: HTTP_SECS };
                }
                self.close(GaugeStats::default(), 0)
            },
            Stage::Request => {
                if let Event::Response(result) = event {
                    if result.keep_alive && result.stats.reachable {
                        slots.at(self.slot).remember(self.host.as_str(), self.use_tls);
                        self.stage = Stage::Over;
                        return Action::Keep(result.stats);
                    }
                    if result.stats.reachable {
                        return self.close(result.stats, ABORT_PAUSE_MS);
                    }
                }
                self.close(GaugeStats::default(), ABORT_PAUSE_MS)
            },
            Stage::Close => {
                self.stage = Stage::Over;
                Action::Finish(self.outcome)
            },
            Stage::Over => Action::Finish(GaugeStats::default()),
        }
    }
}

/// How many steps a scrape has before it at most.
pub open spec fn steps_left(stage: Stage) -> int {
    match stage {
        Stage::Reuse => 7,
        Stage::Drop => 6,
        Stage::Resolve => 5,
        Stage::Connect => 4,
        Stage::Open => 3,
        Stage::Request => 2,
        Stage::Close => 1,
        Stage::Over => 0,
    }
}

/// Whether an action is the last one of a scrape.
pub open spec fn is_last(a: Action) -> bool {
    a is Finish || a is Keep
}

/// A scrape comes to an end, whatever happens: each step leads to a later stage, and the last
/// one hands out the stats.
pub proof fn lemma_scrape_ends(f: FetchView, s: SlotView, e: Event)
    ensures
        f.stage != Stage::Over ==> steps_left(fetch_step(f, s, e).0.stage) < steps_left(f.stage),
        fetch_step(f, s, e).0.stage == Stage::Over <==> is_last(fetch_step(f, s, e).2),
{
}

/// Whether stats can be reported: a host that is not reachable has no percentages.
pub open spec fn reportable(s: GaugeStats) -> bool {
    s.reachable || s == metrics::no_stats()
}

/// What is handed out says that the host is reachable, or says nothing: stats of a host that is
/// not reachable are never shown.
pub proof fn lemma_reported_stats(f: FetchView, s: SlotView, e: Event)
    requires
        reportable(f.outcome),
    ensures
        reportable(fetch_step(f, s, e).0.outcome),
        fetch_step(f, s, e).2 matches Action::Finish(stats) ==> reportable(stats),
        fetch_step(f, s, e).2 matches Action::Keep(stats) ==> reportable(stats),
{
}

/// The same of how a scrape begins.
pub proof fn lemma_reported_at_once(slot: int, url: Seq<char>, s: SlotView)
    ensures
        reportable(fetch_start(slot, url, s).0.outcome),
        fetch_start(slot, url, s).2 matches Action::Finish(stats) ==> stats == metrics::no_stats(),
        !(fetch_start(slot, url, s).2 is Keep),
{
}

/// A connection that is kept serves the next request to its host, unless the host name is longer
/// than a slot holds.
pub proof fn lemma_kept_connection_serves(f: FetchView, s: SlotView, e: Event)
    requires
        bounded::utf8_len(f.host) <= 64,
    ensures
        fetch_step(f, s, e).2 is Keep ==> serves(fetch_step(f, s, e).1, f.host, f.use_tls),
{
    let none = Seq::<char>::empty();
    bounded::lemma_utf8_len_adds(none, f.host);
    assert(none + f.host =~= f.host);
}

/// Whether a slot agrees with the stage of its scrape: from the moment that the old connection is
/// given up until a new one is kept, the slot has none.
pub open spec fn agrees(f: FetchView, s: SlotView) -> bool {
    &&& f.stage == Stage::Reuse ==> serves(s, f.host, f.use_tls)
    &&& f.stage != Stage::Reuse && f.stage != Stage::Over ==> !s.live
}

/// The slot agrees with its scrape from the beginning.
pub proof fn lemma_agrees_at_once(slot: int, url: Seq<char>, s: SlotView)
    ensures
        ({
            let (f, t, a) = fetch_start(slot, url, s);
            &&& agrees(f, t)
            &&& s.live && !t.live ==> a is Abort
        }),
{
}

/// The slot goes on agreeing with its scrape. No connection is lost: a slot gives up the one it
/// has only for it to be aborted, and takes a new one only while it has none.
pub proof fn lemma_no_connection_lost(f: FetchView, s: SlotView, e: Event)
    requires
        agrees(f, s),
    ensures
        ({
            let (g, t, a) = fetch_step(f, s, e);
            &&& agrees(g, t)
            &&& s.live && !t.live ==> a is Abort
            &&& a is Keep ==> !s.live && t.live
        }),
{
}

/// The scrape and the slots after these events.
pub open spec fn after_events(f: FetchView, slots: Seq<SlotView>, events: Seq<Event>) -> (
    FetchView,
    Seq<SlotView>,
)
    decreases events.len(),
{
    if events.len() == 0 {
        (f, slots)
    } else {
        let (g, t) = after_events(f, slots, events.drop_last());
        let (h, u, a) = scrape_step(g, t, events.last());
        (h, u)
    }
}

/// A scrape keeps to its slot.
proof fn lemma_keeps_to_slot(f: FetchView, slots: Seq<SlotView>, events: Seq<Event>)
    requires
        0 <= f.slot < slots.len(),
    ensures
        after_events(f, slots, events).0.slot == f.slot,
        after_events(f, slots, events).1.len() == slots.len(),
        forall|j: int|
            0 <= j < slots.len() && j != f.slot ==> (#[trigger] after_events(
                f,
                slots,
                events,
            ).1[j]) == slots[j],
    decreases events.len(),
{
    if events.len() > 0 {
        lemma_keeps_to_slot(f, slots, events.drop_last());
    }
}

/// Each slot has its own connection: a scrape with one slot, from its beginning on and whatever
/// happens, leaves the connection, the host and the TLS flag of the other slot alone.
pub proof fn lemma_other_slot_kept(
    slots: Seq<SlotView>,
    slot: int,
    url: Seq<char>,
    events: Seq<Event>,
)
    requires
        slots.len() == SLOT_COUNT,
        0 <= slot,
    ensures
        ({
            let (f, t, a) = scrape_start(slots, slot, url);
            let other = 1 - slot_index(slot);
            after_events(f, t, events).1[other] == slots[other]
        }),
{
    let (f, t, a) = scrape_start(slots, slot, url);
    lemma_keeps_to_slot(f, t, events);
}

/// The stats of a response are handed out as they came. On the connection that the slot keeps they
/// are finished with at once where the connection can go on being used, and on a new one they are
/// handed out with it; a new connection that cannot be kept is closed first, and what is finished
/// with then are the same stats where they say that the host is reachable, and none otherwise.
pub proof fn lemma_stats_handed_out_unchanged(
    f: FetchView,
    s: SlotView,
    r: HttpResult,
    t: SlotView,
    e: Event,
)
    ensures
        fetch_step(f, s, Event::Response(r)).2 matches Action::Keep(stats) ==> stats == r.stats,
        f.stage == Stage::Reuse && r.keep_alive && r.stats.reachable ==> fetch_step(
            f,
            s,
            Event::Response(r),
        ).2 == Action::Finish(r.stats),
        f.stage == Stage::Request && r.keep_alive && r.stats.reachable ==> fetch_step(
            f,
            s,
            Event::Response(r),
        ).2 == Action::Keep(r.stats),
        f.stage == Stage::Request && !(r.keep_alive && r.stats.reachable) ==> ({
            let (g, u, a) = fetch_step(f, s, Event::Response(r));
            &&& a is Abort
            &&& r.stats.reachable ==> fetch_step(g, t, e).2 == Action::Finish(r.stats)
            &&& !r.stats.reachable ==> fetch_step(g, t, e).2 == Action::Finish(
                GaugeStats { cpu_percent: None, mem_percent: None, reachable: false },
            )
        }),
{
}

/// A scrape uses its own slot: the first or the second one, and the second one where there is no
/// such slot. What it does with that slot is what is done next.
pub proof fn lemma_scrape_uses_its_slot(
    slots: Seq<SlotView>,
    slot: int,
    url: Seq<char>,
    f: FetchView,
    e: Event,
)
    requires
        slots.len() == 2,
        0 <= slot,
        0 <= f.slot < 2,
    ensures
        ({
            let i = if slot == 0 {
                0int
            } else {
                1int
            };
            let (g, after, a) = scrape_start(slots, slot, url);
            &&& g.slot == i
            &&& (g, after[i], a) == fetch_start(slot, url, slots[i])
            &&& after[1 - i] == slots[1 - i]
            &&& after.len() == 2
        }),
        ({
            let (g, after, a) = scrape_step(f, slots, e);
            &&& g.slot == f.slot
            &&& (g, after[f.slot], a) == fetch_step(f, slots[f.slot], e)
            &&& after[1 - f.slot] == slots[1 - f.slot]
            &&& after.len() == 2
        }),
{
}

/// A scrape goes on asking for the same host and path, with or without TLS as its URL says.
pub proof fn lemma_scrape_keeps_to_its_url(f: FetchView, s: SlotView, e: Event)
    ensures
        fetch_step(f, s, e).0.host == f.host,
        fetch_step(f, s, e).0.path == f.path,
        fetch_step(f, s, e).0.use_tls == f.use_tls,
        fetch_step(f, s, e).0.slot == f.slot,
{
}

/// How a scrape begins. One of something that is no URL is over at once and has no stats. Any other
/// is of the host and the path of its URL: it asks on the connection that the slot keeps where that
/// one is to the same host and of the same kind. Where it is not, the connection is aborted before
/// the host name is resolved, and where there is none the name is resolved at once.
pub proof fn lemma_scrape_begins(slot: int, url: Seq<char>, s: SlotView)
    ensures
        ({
            let (f, t, a) = fetch_start(slot, url, s);
            match http::url_parts(url) {
                None => {
                    &&& a == Action::Finish(
                        GaugeStats { cpu_percent: None, mem_percent: None, reachable: false },
                    )
                    &&& f.stage == Stage::Over
                    &&& t == s
                },
                Some(u) => {
                    let same = s.live && s.host == u.host && s.use_tls == u.use_tls;
                    &&& f.host == u.host && f.path == u.path && f.use_tls == u.use_tls
                    &&& same ==> a == (Action::Request { secs: 45 }) && f.stage == Stage::Reuse
                        && t == s
                    &&& !same ==> !t.live
                    &&& !same && s.live ==> a == (Action::Abort { pause_ms: 50 }) && f.stage
                        == Stage::Drop
                    &&& !same && !s.live ==> a == Action::Resolve && f.stage == Stage::Resolve
                },
            }
        }),
{
}

/// The way to a request on a new connection: once the old one is aborted, the host name is
/// resolved, a TCP connection is opened on the port of HTTP or HTTPS, with TLS a session on it, and
/// then the request is made. Each step has its time, and the slot has no part in it.
pub proof fn lemma_new_connection(f: FetchView, s: SlotView, e: Event)
    requires
        f.stage == Stage::Drop,
    ensures
        ({
            let (a, s1, resolve) = fetch_step(f, s, e);
            let (b, s2, connect) = fetch_step(a, s1, Event::Resolved);
            let (c, s3, third) = fetch_step(b, s2, Event::Connected);
            let (d, s4, fourth) = fetch_step(c, s3, Event::Opened);
            &&& resolve == Action::Resolve
            &&& a.stage == Stage::Resolve
            &&& f.use_tls ==> connect == (Action::Connect { port: 443, secs: 15 })
            &&& !f.use_tls ==> connect == (Action::Connect { port: 80, secs: 15 })
            &&& f.use_tls ==> third == (Action::OpenTls { secs: 20 }) && fourth == (
            Action::Request { secs: 45 }) && d.stage == Stage::Request
            &&& !f.use_tls ==> third == (Action::Request { secs: 45 }) && c.stage == Stage::Request
            &&& s1 == s && s2 == s && s3 == s
            &&& f.use_tls ==> s4 == s
        }),
{
}

/// A scrape whose connection cannot be used any more, or whose request on it took too long, aborts
/// it, and begins anew: the slot is without a connection, and the host name is resolved next.
pub proof fn lemma_reuse_given_up(f: FetchView, s: SlotView, e: Event, t: SlotView, done: Event)
    requires
        f.stage == Stage::Reuse,
        e matches Event::Response(r) ==> !(r.keep_alive && r.stats.reachable),
    ensures
        ({
            let (g, u, a) = fetch_step(f, s, e);
            &&& a == (Action::Abort { pause_ms: 50 })
            &&& !u.live && u.host.len() == 0
            &&& fetch_step(g, t, done).2 == Action::Resolve
        }),
{
}

/// Whether a scrape ends without stats: at once, or once its connection is aborted.
pub open spec fn ends_without_stats(f: FetchView, s: SlotView, e: Event) -> bool {
    let none = GaugeStats { cpu_percent: None, mem_percent: None, reachable: false };
    let (g, t, a) = fetch_step(f, s, e);
    &&& t == s
    &&& a == Action::Finish(none) || (a is Abort && forall|u: SlotView, x: Event|
        (#[trigger] fetch_step(g, u, x)).2 == Action::Finish(none) && fetch_step(g, u, x).1 == u)
}

/// A new connection that fails gives no stats, at whatever step it fails: a name that is not
/// resolved, a connection or a TLS session that is not opened, and a request that fails or takes
/// too long. A connection that is half open is aborted first, without a pause, and one that a
/// request was made on with one.
pub proof fn lemma_failures(f: FetchView, s: SlotView, e: Event)
    ensures
        f.stage == Stage::Resolve && !(e is Resolved) ==> ends_without_stats(f, s, e)
            && fetch_step(f, s, e).2 is Finish,
        f.stage == Stage::Connect && !(e is Connected) ==> ends_without_stats(f, s, e),
        f.stage == Stage::Connect && e is TimedOut ==> fetch_step(f, s, e).2 == (Action::Abort {
            pause_ms: 0,
        }),
        f.stage == Stage::Open && !(e is Opened) ==> ends_without_stats(f, s, e) && fetch_step(
            f,
            s,
            e,
        ).2 == (Action::Abort { pause_ms: 0 }),
        f.stage == Stage::Request && !(e is Response) ==> ends_without_stats(f, s, e)
            && fetch_step(f, s, e).2 == (Action::Abort { pause_ms: 50 }),
        f.stage == Stage::Request && (e matches Event::Response(r) && !(r.keep_alive
            && r.stats.reachable)) ==> fetch_step(f, s, e).2 == (Action::Abort { pause_ms: 50 })
            && fetch_step(f, s, e).1 == s,
        f.stage == Stage::Over ==> ends_without_stats(f, s, e),
{
}

/// A connection that was kept is used again by the next scrape of the same URL, and by none of
/// another host or of the other kind, unless the host name is longer than a slot holds.
pub proof fn lemma_connection_used_again(
    slot: int,
    url: Seq<char>,
    f: FetchView,
    s: SlotView,
    e: Event,
)
    requires
        fetch_step(f, s, e).2 is Keep,
        bounded::utf8_len(f.host) <= 64,
    ensures
        http::url_parts(url) matches Some(u) ==> {
            let t = fetch_step(f, s, e).1;
            fetch_start(slot, url, t).2 is Request <==> u.host == f.host && u.use_tls == f.use_tls
        },
        fetch_step(f, s, e).1 == (SlotView { host: f.host, use_tls: f.use_tls, live: true }),
{
    lemma_kept_connection_serves(f, s, e);
}

/// A slot changes only where its connection is given up, which is then aborted, or where a new one
/// is kept. A scrape that finishes on the connection that the slot keeps leaves the slot as it is.
pub proof fn lemma_slot_changes(f: FetchView, s: SlotView, e: Event)
    ensures
        ({
            let (g, t, a) = fetch_step(f, s, e);
            &&& t != s ==> (f.stage == Stage::Reuse && a is Abort) || (f.stage == Stage::Request
                && a is Keep)
            &&& a is Finish ==> t == s
            &&& a is Keep ==> f.stage == Stage::Request && t.live && t.use_tls == f.use_tls
        }),
{
}

/// A host name that is longer than a slot holds is not remembered, so that no scrape uses the
/// connection again.
pub proof fn lemma_long_name_not_remembered(
    slot: int,
    url: Seq<char>,
    f: FetchView,
    s: SlotView,
    e: Event,
)
    requires
        fetch_step(f, s, e).2 is Keep,
        bounded::utf8_len(f.host) > 64,
    ensures
        fetch_step(f, s, e).1.host.len() == 0,
        !(fetch_start(slot, url, fetch_step(f, s, e).1).2 is Request),
{
    let none = Seq::<char>::empty();
    assert(bounded::utf8_len(none) == 0);
    let t = fetch_step(f, s, e).1;
    assert(t.host =~= none);
    if let Some(u) = http::url_parts(url) {
        assert(u.host.len() > 0);
    }
}

} // verus!
