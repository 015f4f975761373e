use metric_gauge::metrics::GaugeStats;
use metric_gauge::resolver::{parse_ipv4, Ipv4, Lookup, Resolver, ATTEMPTS, RETRY_MS};
use metric_gauge::response::HttpResult;
use metric_gauge::session::{
    Action, Event, Fetch, Slot, Slots, ABORT_PAUSE_MS, CONNECT_SECS, HTTP_SECS, TLS_SECS,
};

const URL: &str = "https://node1.homin.dev:8443/metrics";

fn good() -> GaugeStats {
    GaugeStats { cpu_percent: Some(1.0f32.to_bits()), mem_percent: None, reachable: true }
}

fn response(stats: GaugeStats, keep_alive: bool) -> Event {
    Event::Response(HttpResult { stats, keep_alive })
}

fn is_request(a: Action) -> bool {
    matches!(a, Action::Request { secs } if secs == HTTP_SECS)
}

fn is_abort(a: Action, pause: u64) -> bool {
    matches!(a, Action::Abort { pause_ms } if pause_ms == pause)
}

fn finishes_with_nothing(a: Action) -> bool {
    matches!(a, Action::Finish(s)
        if !s.reachable && s.cpu_percent.is_none() && s.mem_percent.is_none())
}

fn finishes_with_good(a: Action) -> bool {
    matches!(a, Action::Finish(s) if s.reachable && s.cpu_percent == Some(1.0f32.to_bits()))
}

/// Scrapes over a new connection up to the request.
fn connected(slots: &mut Slots, slot: usize, url: &str, tls: bool) -> Fetch {
    let (mut f, a) = Fetch::start(slots, slot, url);
    assert!(matches!(a, Action::Resolve));
    let a = f.step(slots, Event::Resolved);
    let port: u16 = if tls { 443 } else { 80 };
    assert!(matches!(a, Action::Connect { port: p, secs } if p == port && secs == CONNECT_SECS));
    let a = f.step(slots, Event::Connected);
    if tls {
        assert!(matches!(a, Action::OpenTls { secs } if secs == TLS_SECS));
        assert!(is_request(f.step(slots, Event::Opened)));
    } else {
        assert!(is_request(a));
    }
    f
}

fn kept(slots: &mut Slots, slot: usize, url: &str, tls: bool) {
    let mut f = connected(slots, slot, url, tls);
    let a = f.step(slots, response(good(), true));
    assert!(matches!(a, Action::Keep(s) if s.reachable));
}

#[test]
fn a_scrape_over_tls_keeps_its_connection() {
    let mut slots = Slots::new();
    let f = connected(&mut slots, 0, URL, true);
    assert_eq!(f.host(), "node1.homin.dev");
    assert_eq!(f.path(), "/metrics");
    assert_eq!(f.slot(), 0);
    kept(&mut Slots::new(), 1, URL, true);
    kept(&mut Slots::new(), 1, "http://h/", false);
}

#[test]
fn a_kept_connection_serves_its_host_again() {
    let mut slots = Slots::new();
    kept(&mut slots, 0, URL, true);
    let (mut f, a) = Fetch::start(&mut slots, 0, URL);
    assert!(is_request(a));
    assert!(finishes_with_good(f.step(&mut slots, response(good(), true))));
    let (_, a) = Fetch::start(&mut slots, 0, URL);
    assert!(is_request(a));
    // Another slot has its own connection.
    let (_, a) = Fetch::start(&mut slots, 1, URL);
    assert!(matches!(a, Action::Resolve));
}

#[test]
fn another_host_or_scheme_needs_another_connection() {
    for url in ["https://node2/metrics", "http://node1.homin.dev/metrics"] {
        let mut slots = Slots::new();
        kept(&mut slots, 0, URL, true);
        let (mut f, a) = Fetch::start(&mut slots, 0, url);
        assert!(is_abort(a, ABORT_PAUSE_MS));
        assert!(matches!(f.step(&mut slots, Event::Aborted), Action::Resolve));
    }
}

#[test]
fn a_failed_reuse_leads_to_a_new_connection() {
    for e in [
        Event::TimedOut,
        Event::Failed,
        response(good(), false),
        response(GaugeStats::default(), true),
    ] {
        let mut slots = Slots::new();
        kept(&mut slots, 0, URL, true);
        let (mut f, a) = Fetch::start(&mut slots, 0, URL);
        assert!(is_request(a));
        assert!(is_abort(f.step(&mut slots, e), ABORT_PAUSE_MS));
        assert!(matches!(f.step(&mut slots, Event::Aborted), Action::Resolve));
        // The slot keeps nothing any more.
        let (_, a) = Fetch::start(&mut slots, 0, URL);
        assert!(matches!(a, Action::Resolve));
    }
}

#[test]
fn bad_urls_give_nothing() {
    for url in ["", "ftp://h/", "http://"] {
        let mut slots = Slots::new();
        let (_, a) = Fetch::start(&mut slots, 0, url);
        assert!(finishes_with_nothing(a));
    }
}

#[test]
fn failures_on_the_way_give_nothing() {
    let mut slots = Slots::new();
    let (mut f, _) = Fetch::start(&mut slots, 0, URL);
    assert!(finishes_with_nothing(f.step(&mut slots, Event::Failed)));

    let (mut f, _) = Fetch::start(&mut slots, 0, URL);
    f.step(&mut slots, Event::Resolved);
    assert!(finishes_with_nothing(f.step(&mut slots, Event::Failed)));

    let (mut f, _) = Fetch::start(&mut slots, 0, URL);
    f.step(&mut slots, Event::Resolved);
    assert!(is_abort(f.step(&mut slots, Event::TimedOut), 0));
    assert!(finishes_with_nothing(f.step(&mut slots, Event::Aborted)));

    for e in [Event::Failed, Event::TimedOut] {
        let (mut f, _) = Fetch::start(&mut slots, 0, URL);
        f.step(&mut slots, Event::Resolved);
        f.step(&mut slots, Event::Connected);
        assert!(is_abort(f.step(&mut slots, e), 0));
        assert!(finishes_with_nothing(f.step(&mut slots, Event::Aborted)));
    }

    let mut f = connected(&mut slots, 0, URL, true);
    assert!(is_abort(f.step(&mut slots, Event::TimedOut), ABORT_PAUSE_MS));
    assert!(finishes_with_nothing(f.step(&mut slots, Event::Aborted)));
}

#[test]
fn good_stats_are_reported_though_the_peer_closes() {
    let mut slots = Slots::new();
    let mut f = connected(&mut slots, 0, URL, true);
    assert!(is_abort(f.step(&mut slots, response(good(), false)), ABORT_PAUSE_MS));
    assert!(finishes_with_good(f.step(&mut slots, Event::Aborted)));
    let (_, a) = Fetch::start(&mut slots, 0, URL);
    assert!(matches!(a, Action::Resolve));
}

#[test]
fn stats_of_an_unreachable_host_are_not_reported() {
    let half = GaugeStats { reachable: false, ..good() };
    let mut slots = Slots::new();
    let mut f = connected(&mut slots, 0, URL, true);
    assert!(is_abort(f.step(&mut slots, response(half, true)), ABORT_PAUSE_MS));
    assert!(finishes_with_nothing(f.step(&mut slots, Event::Aborted)));
}

#[test]
fn every_scrape_ends() {
    for e in [Event::Resolved, Event::Connected, Event::Opened, Event::Failed, Event::TimedOut] {
        let mut slots = Slots::new();
        kept(&mut slots, 0, URL, true);
        let (mut f, _) = Fetch::start(&mut slots, 0, URL);
        let mut last = false;
        for _ in 0..7 {
            last = matches!(f.step(&mut slots, e), Action::Finish(_));
        }
        assert!(last);
    }
}

#[test]
fn a_scrape_leaves_the_other_slot_alone() {
    for events in [
        vec![Event::Failed],
        vec![Event::Resolved, Event::TimedOut, Event::Aborted],
        vec![Event::Resolved, Event::Connected, response(good(), true)],
    ] {
        let mut slots = Slots::new();
        kept(&mut slots, 1, URL, true);
        let (mut f, _) = Fetch::start(&mut slots, 0, "http://node2/metrics");
        for e in events {
            f.step(&mut slots, e);
        }
        let (_, a) = Fetch::start(&mut slots, 1, URL);
        assert!(is_request(a));
    }
}

#[test]
fn slots_beyond_the_last_are_the_last() {
    let mut slots = Slots::new();
    kept(&mut slots, 9, URL, true);
    let (f, a) = Fetch::start(&mut slots, 1, URL);
    assert_eq!(f.slot(), 1);
    assert!(is_request(a));
}

#[test]
fn a_host_that_is_too_long_is_never_served() {
    let url = format!("http://{}/", "h".repeat(65));
    let mut slots = Slots::new();
    kept(&mut slots, 0, &url, false);
    let (_, a) = Fetch::start(&mut slots, 0, &url);
    assert!(is_abort(a, ABORT_PAUSE_MS));
    let url = format!("http://{}/", "h".repeat(64));
    let mut slots = Slots::new();
    kept(&mut slots, 0, &url, false);
    let (_, a) = Fetch::start(&mut slots, 0, &url);
    assert!(is_request(a));
    assert!(!Slot::new().can_serve("h", false));
}

#[test]
fn dotted_addresses() {
    assert_eq!(parse_ipv4("192.168.0.1"), Some(Ipv4(192, 168, 0, 1)));
    for s in [
        "0.0.0.0", "255.255.255.255", "256.1.1.1", "1.2.3", "1.2.3.4.5", "01.2.3.4", "1.2.3.",
        ".1.2.3", "1..2.3", "+1.2.3.4", " 1.2.3.4", "a.b.c.d", "", "1.2.3.0004", "1.2.3.00",
        "node.homin.dev.x",
    ] {
        let expected = s.parse::<core::net::Ipv4Addr>().ok().map(|a| a.octets());
        assert_eq!(parse_ipv4(s).map(|a| [a.0, a.1, a.2, a.3]), expected, "{}", s);
    }
    let mut r = Resolver::new();
    assert_eq!(r.start("10.0.0.7"), Lookup::Found(Ipv4(10, 0, 0, 7)));
    r.answer("x", 0, Some(Ipv4(1, 2, 3, 4)));
    assert_eq!(r.start("10.0.0.7"), Lookup::Found(Ipv4(10, 0, 0, 7)));
}

#[test]
fn names_are_resolved_once() {
    let mut r = Resolver::new();
    assert_eq!(r.start("a"), Lookup::Query(0));
    assert_eq!(r.answer("a", 0, Some(Ipv4(1, 1, 1, 1))), Lookup::Found(Ipv4(1, 1, 1, 1)));
    assert_eq!(r.start("a"), Lookup::Found(Ipv4(1, 1, 1, 1)));
    assert_eq!(r.start("b"), Lookup::Query(0));
    r.answer("b", 2, Some(Ipv4(2, 2, 2, 2)));
    assert_eq!(r.start("a"), Lookup::Found(Ipv4(1, 1, 1, 1)));
    assert_eq!(r.start("b"), Lookup::Found(Ipv4(2, 2, 2, 2)));
    // A third name takes the place of the first.
    r.answer("c", 0, Some(Ipv4(3, 3, 3, 3)));
    assert_eq!(r.start("a"), Lookup::Query(0));
    assert_eq!(r.start("b"), Lookup::Found(Ipv4(2, 2, 2, 2)));
    assert_eq!(r.start("c"), Lookup::Found(Ipv4(3, 3, 3, 3)));
}

#[test]
fn lookups_are_tried_again_and_fall_back() {
    let mut r = Resolver::new();
    assert_eq!(ATTEMPTS, 3);
    assert_eq!(RETRY_MS, 200);
    assert_eq!(r.answer("a", 0, None), Lookup::Pause(1));
    assert_eq!(r.resume(1), Lookup::Query(1));
    assert_eq!(r.answer("a", 1, None), Lookup::Pause(2));
    assert_eq!(r.resume(2), Lookup::Query(2));
    assert_eq!(r.answer("a", 2, None), Lookup::Pause(3));
    assert_eq!(r.resume(3), Lookup::NotFound);
    r.answer("b", 0, Some(Ipv4(2, 2, 2, 2)));
    assert_eq!(r.resume(3), Lookup::Found(Ipv4(2, 2, 2, 2)));
}

#[test]
fn names_that_are_too_long_are_not_cached() {
    let long = "h".repeat(65);
    let mut r = Resolver::new();
    r.answer(&long, 0, Some(Ipv4(9, 9, 9, 9)));
    assert_eq!(r.start(&long), Lookup::Query(0));
    let fits = "h".repeat(64);
    r.answer(&fits, 0, Some(Ipv4(8, 8, 8, 8)));
    assert_eq!(r.start(&fits), Lookup::Found(Ipv4(8, 8, 8, 8)));
}
