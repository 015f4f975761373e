use metric_gauge::metrics::{
    label_mode_is_idle, names_float, parse_float, parse_prom_value, parse_prometheus_chunk,
    CpuHistory, Figures, GaugeStats, MetricsParser, Readings,
};

fn number(text: &Option<String>) -> f32 {
    match text {
        Some(t) => t.parse::<f32>().unwrap(),
        None => 0.0,
    }
}

fn figures(r: &Readings, h: &CpuHistory) -> Figures {
    let mut idle = 0.0f32;
    let mut total = 0.0f32;
    for s in &r.cpu {
        let v = s.seconds.parse::<f32>().unwrap();
        total += v;
        if s.idle {
            idle += v;
        }
    }
    let mem_total = number(&r.mem_total);
    let available = number(&r.mem_available);
    let step = total - f32::from_bits(h.total);
    Figures {
        mon64_cpu: number(&r.mon64_cpu).to_bits(),
        mon64_mem: number(&r.mon64_mem).to_bits(),
        mon64_reachable: number(&r.mon64_reachable).to_bits(),
        mem_total: mem_total.to_bits(),
        mem_used: ((mem_total - available) / mem_total * 100.0).to_bits(),
        cpu_idle: idle.to_bits(),
        cpu_total: total.to_bits(),
        cpu_step: step.to_bits(),
        cpu_used: (100.0 * (1.0 - (idle - f32::from_bits(h.idle)) / step)).to_bits(),
    }
}

fn scrape(body: &str, h: &mut CpuHistory) -> GaugeStats {
    let mut p = MetricsParser::new();
    p.push(body.as_bytes());
    p.flush_line();
    let f = figures(p.readings(), h);
    // Taking the counters out changes nothing.
    p.take_cpu();
    p.finish(h, &f)
}

fn value(v: Option<u32>) -> Option<f32> {
    v.map(f32::from_bits)
}

const FIRST: &str = "# HELP node_cpu_seconds_total Seconds.\n\
node_cpu_seconds_total{cpu=\"0\",mode=\"idle\"} 100\n\
node_cpu_seconds_total{cpu=\"0\",mode=\"user\"} 50\n\
node_memory_MemTotal_bytes 8.0e+09\n\
node_memory_MemAvailable_bytes 2.0e+09\n";

const SECOND: &str = "node_cpu_seconds_total{cpu=\"0\",mode=\"idle\"} 130\n\
node_cpu_seconds_total{cpu=\"0\",mode='idle'} 0\n\
node_cpu_seconds_total{cpu=\"0\",mode=\"user\"} 60\n";

#[test]
fn first_scrape_has_no_cpu_and_second_has() {
    let mut h = CpuHistory::default();
    let s = scrape(FIRST, &mut h);
    assert_eq!(value(s.cpu_percent), None);
    assert_eq!(value(s.mem_percent), Some(75.0));
    assert!(s.reachable);
    assert!(h.valid);
    assert_eq!(f32::from_bits(h.idle), 100.0);
    assert_eq!(f32::from_bits(h.total), 150.0);
    let s = scrape(SECOND, &mut h);
    assert_eq!(value(s.cpu_percent), Some(25.0));
    assert_eq!(value(s.mem_percent), None);
    assert!(s.reachable);
    assert_eq!(f32::from_bits(h.total), 190.0);
}

#[test]
fn counters_that_stand_still_give_no_cpu() {
    let mut h = CpuHistory::default();
    scrape(SECOND, &mut h);
    let s = scrape(SECOND, &mut h);
    assert_eq!(value(s.cpu_percent), None);
    assert!(!s.reachable);
    let s = scrape(FIRST, &mut h);
    assert_eq!(value(s.cpu_percent), None);
    assert!(s.reachable);
}

#[test]
fn usage_is_clamped() {
    let mut h = CpuHistory { idle: 0.0f32.to_bits(), total: 0.0f32.to_bits(), valid: true };
    let s = scrape("node_cpu_seconds_total{mode=\"user\"} 5\n", &mut h);
    assert_eq!(value(s.cpu_percent), Some(100.0));
    let mut h = CpuHistory { idle: 0.0f32.to_bits(), total: 5.0f32.to_bits(), valid: true };
    let s = scrape("node_cpu_seconds_total{mode=\"idle\"} 10\n", &mut h);
    assert_eq!(value(s.cpu_percent), Some(0.0));
}

#[test]
fn mon64_is_preferred() {
    let mut h = CpuHistory::default();
    let body = "mon64_node_cpu_percent{node=\"a\"} 12.5\nmon64_node_mem_used_percent 140\n";
    let all = format!("{}{}", FIRST, body);
    let s = scrape(&all, &mut h);
    assert_eq!(value(s.cpu_percent), Some(12.5));
    assert_eq!(value(s.mem_percent), Some(100.0));
    assert!(s.reachable);
    assert!(!h.valid);
}

#[test]
fn mon64_says_whether_the_host_is_reachable() {
    let base = "mon64_node_cpu_percent 1\nmon64_node_mem_used_percent 2\n";
    let cases = [("0", false), ("0.49", false), ("0.5", true), ("1", true), ("-1", false)];
    for (v, expected) in cases {
        let body = format!("{}mon64_node_reachable{{x=\"y\"}} {}\n", base, v);
        assert_eq!(scrape(&body, &mut CpuHistory::default()).reachable, expected, "{}", v);
    }
}

#[test]
fn one_mon64_percentage_is_used() {
    let mut h = CpuHistory::default();
    let s = scrape("mon64_node_cpu_percent 42\n", &mut h);
    assert_eq!(value(s.cpu_percent), Some(42.0));
    assert_eq!(value(s.mem_percent), None);
    assert!(s.reachable);
    assert!(!h.valid);
    let s = scrape("mon64_node_mem_used_percent 63\n", &mut h);
    assert_eq!(value(s.cpu_percent), None);
    assert_eq!(value(s.mem_percent), Some(63.0));
    assert!(s.reachable);
    // Beside it, the other percentage comes from node-exporter, and the counters are kept.
    let all = format!("{}mon64_node_cpu_percent 130\n", FIRST);
    let s = scrape(&all, &mut h);
    assert_eq!(value(s.cpu_percent), Some(100.0));
    assert_eq!(value(s.mem_percent), Some(75.0));
    assert!(h.valid);
    let all = format!("{}mon64_node_mem_used_percent 1\n", SECOND);
    let s = scrape(&all, &mut h);
    assert_eq!(value(s.cpu_percent), Some(25.0));
    assert_eq!(value(s.mem_percent), Some(1.0));
}

#[test]
fn memory_needs_a_positive_total() {
    let zero = "node_memory_MemTotal_bytes 0\nnode_memory_MemAvailable_bytes 1\n";
    assert_eq!(value(scrape(zero, &mut CpuHistory::default()).mem_percent), None);
    let half = "node_memory_MemTotal_bytes 4\n";
    assert_eq!(value(scrape(half, &mut CpuHistory::default()).mem_percent), None);
}

#[test]
fn longer_memory_names_do_not_count() {
    let mut p = MetricsParser::new();
    p.push(b"node_memory_MemTotal_bytes_extra 1\nnode_memory_MemTotal_bytes\t7\n");
    assert_eq!(p.readings().mem_total.as_deref(), Some("7"));
    p.push(b"node_memory_MemAvailable_bytes{a=\"b\"} 3\n");
    assert_eq!(p.readings().mem_available.as_deref(), Some("3"));
    // A value that is no number takes the old one away.
    p.push(b"node_memory_MemTotal_bytes x\n");
    assert_eq!(p.readings().mem_total, None);
}

#[test]
fn a_body_is_read_the_same_in_pieces() {
    let mut whole = MetricsParser::new();
    whole.push(FIRST.as_bytes());
    for cut in 0..FIRST.len() {
        let mut p = MetricsParser::new();
        p.push(&FIRST.as_bytes()[..cut]);
        parse_prometheus_chunk(&mut p, &FIRST.as_bytes()[cut..]);
        assert_eq!(p.readings().mem_total, whole.readings().mem_total);
        assert_eq!(p.readings().cpu.len(), 2);
        assert_eq!(p.readings().cpu[0].seconds, "100");
        assert!(p.readings().cpu[0].idle);
        assert!(!p.readings().cpu[1].idle);
    }
}

#[test]
fn carriage_returns_are_ignored() {
    let mut p = MetricsParser::new();
    p.push(b"node_memory_Mem\rTotal_bytes 5\r\n");
    assert_eq!(p.readings().mem_total.as_deref(), Some("5"));
}

#[test]
fn comments_and_blank_lines_are_skipped() {
    let mut p = MetricsParser::new();
    p.push(b"\n  \n# node_memory_MemTotal_bytes 5\n   # mon64_node_cpu_percent 3\n");
    assert_eq!(p.readings().mem_total, None);
    assert_eq!(p.readings().mon64_cpu, None);
}

#[test]
fn the_last_line_needs_no_line_feed() {
    let mut p = MetricsParser::new();
    p.push(b"node_memory_MemTotal_bytes 5");
    assert_eq!(p.readings().mem_total, None);
    p.flush_line();
    assert_eq!(p.readings().mem_total.as_deref(), Some("5"));
}

#[test]
fn long_lines_are_cut() {
    // The value begins behind the 256th byte, so that the kept part ends in the labels.
    let mut line = String::from("node_memory_MemTotal_bytes{a=\"");
    while line.len() < 250 {
        line.push('x');
    }
    line.push_str("\"} 123456\n");
    let mut p = MetricsParser::new();
    p.push(line.as_bytes());
    // Kept are 256 bytes, which end in `"} 123`.
    assert_eq!(p.readings().mem_total.as_deref(), Some("123"));
}

#[test]
fn lines_that_are_not_utf8_give_nothing() {
    let mut p = MetricsParser::new();
    p.push(b"node_memory_MemTotal_bytes{a=\"\xff\"} 5\nnode_memory_MemAvailable_bytes 3\n");
    assert_eq!(p.readings().mem_total, None);
    assert_eq!(p.readings().mem_available.as_deref(), Some("3"));
}

#[test]
fn a_default_parser_has_read_nothing() {
    let p = MetricsParser::default();
    assert!(p.readings().cpu.is_empty());
    assert_eq!(p.readings().mon64_mem, None);
    let s = GaugeStats::default();
    assert!(!s.reachable && s.cpu_percent.is_none() && s.mem_percent.is_none());
}

#[test]
fn idle_modes() {
    assert!(label_mode_is_idle("{cpu=\"0\",mode=\"idle\"} 123"));
    assert!(label_mode_is_idle("{mode='idle'} 1"));
    assert!(!label_mode_is_idle("{mode=\"iowait\"} 1"));
    assert!(!label_mode_is_idle("{mode=idle} 1"));
}

#[test]
fn counters_are_taken_out_in_order() {
    let mut p = MetricsParser::new();
    p.push(b"node_cpu_seconds_total{mode=\"idle\"} 1\n");
    p.push(b"node_cpu_seconds_total{mode=\"user\"} 2\nnode_c");
    let first = p.take_cpu();
    assert_eq!(first.len(), 2);
    assert_eq!((first[0].seconds.as_str(), first[0].idle), ("1", true));
    assert_eq!((first[1].seconds.as_str(), first[1].idle), ("2", false));
    assert!(p.take_cpu().is_empty());
    p.push(b"pu_seconds_total 3\n");
    assert!(p.readings().cpu_seen);
    let second = p.take_cpu();
    assert_eq!(second.len(), 1);
    assert_eq!(second[0].seconds, "3");
    assert!(p.readings().cpu_seen && p.readings().cpu.is_empty());
}

#[test]
fn other_metrics_can_be_left_out() {
    let noise = [
        "# TYPE node_load1 gauge",
        "node_load1 0.5",
        "",
        "up 1",
        "node_memory_MemFree_bytes 12",
        "go_gc{quantile=\"0\"} 1",
    ];
    let mut plain = CpuHistory::default();
    let expected = scrape(FIRST, &mut plain);
    for at in 0..=FIRST.lines().count() {
        let mut body = String::new();
        for (i, line) in FIRST.lines().enumerate() {
            if i == at {
                body.push_str(&noise.join("\n"));
                body.push('\n');
            }
            body.push_str(line);
            body.push('\n');
        }
        let mut h = CpuHistory::default();
        let s = scrape(&body, &mut h);
        assert_eq!(s.cpu_percent, expected.cpu_percent);
        assert_eq!(s.mem_percent, expected.mem_percent);
        assert_eq!((h.idle, h.total, h.valid), (plain.idle, plain.total, plain.valid));
    }
}

#[test]
fn values_stand_behind_the_labels() {
    assert_eq!(parse_prom_value("{a=\"b c\"} 12"), Some("12"));
    assert_eq!(parse_prom_value(" 1.5e+09"), Some("1.5e+09"));
    assert_eq!(parse_prom_value("7"), Some("7"));
    assert_eq!(parse_prom_value(""), None);
    assert_eq!(parse_prom_value("{a} x"), None);
    assert_eq!(parse_prom_value("{a}"), None);
    assert_eq!(parse_prom_value(" {a=\"b\"} 5"), Some("5"));
    assert_eq!(parse_prom_value("{a=\"b\"}5"), None);
    assert_eq!(parse_prom_value("{}42"), None);
    assert_eq!(parse_prom_value("{} 42"), Some("42"));
    assert_eq!(parse_prom_value("_longer 5"), Some("5"));
    assert_eq!(parse_prom_value("_longer{a=\"b c\"} 5"), Some("5"));
}

#[test]
fn timestamps_are_stripped() {
    assert_eq!(parse_prom_value("{mode=\"idle\"} 42 1700000000000"), Some("42"));
    assert_eq!(parse_prom_value(" 12 1700000000"), Some("12"));
    assert_eq!(parse_prom_value(" 12\t99"), Some("12"));
    assert_eq!(parse_prom_value("\t12 99"), Some("12"));
    let mut p = MetricsParser::new();
    p.push(b"node_memory_MemTotal_bytes 8 1700000000000\n");
    assert_eq!(p.readings().mem_total.as_deref(), Some("8"));
}

#[test]
fn braces_in_quotes_do_not_close_the_labels() {
    assert_eq!(parse_prom_value("{a=\"x} 1\"} 42"), Some("42"));
    assert_eq!(parse_prom_value("{a=\"x\\\"} 1\"} 42 7"), Some("42"));
    assert_eq!(parse_prom_value("{a=\"x\\\\\"} 42"), Some("42"));
    // Labels that are not closed: what follows the last space.
    assert_eq!(parse_prom_value("{a 42"), Some("42"));
    assert_eq!(parse_prom_value("{a=\"x} 42"), Some("42"));
    assert_eq!(parse_prom_value("{a"), None);
    assert_eq!(parse_prom_value("{a=\"x\\"), None);
}

#[test]
fn values_that_are_no_numbers_are_dropped() {
    assert_eq!(parse_float("NaN"), None);
    assert_eq!(parse_float("nAn"), None);
    assert_eq!(parse_float("+Inf"), None);
    assert_eq!(parse_float("-Inf"), None);
    assert_eq!(parse_float("Infinity"), None);
    assert_eq!(parse_float("abc"), None);
    assert_eq!(parse_float("1.23"), Some("1.23"));
    assert_eq!(parse_float("1.23e+09"), Some("1.23e+09"));
    // A sign before it hides neither of these.
    assert_eq!(parse_float("-nan"), Some("-nan"));
    assert_eq!(parse_float("inf"), Some("inf"));
}

#[test]
fn numbers_are_those_that_std_parses() {
    let mut texts: Vec<String> = Vec::new();
    let alphabet = ["", "1", "0", ".", "e", "E", "+", "-", "inf", "nan", " "];
    for a in alphabet {
        for b in alphabet {
            for c in alphabet {
                for d in alphabet {
                    texts.push(format!("{}{}{}{}", a, b, c, d));
                }
            }
        }
    }
    for t in [
        "infinity", "INFINITY", "+infinit", "1_000", "0x10", "1.5e-45", "9e99", "1e", "1.e5",
        ".5e5", "1.5f", "ä",
    ] {
        texts.push(String::from(t));
    }
    for t in texts {
        assert_eq!(names_float(&t), t.parse::<f32>().is_ok(), "{:?}", t);
    }
}
