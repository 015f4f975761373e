use metric_gauge::metrics::{CpuHistory, Figures, Readings};
use metric_gauge::response::{
    stash_pop_front, stash_pop_front_n, HttpResult, Progress, ResponseReader, READ_SIZE,
};

const BODY: &str = "node_memory_MemTotal_bytes 4\nnode_memory_MemAvailable_bytes 1";

fn number(text: &Option<String>) -> f32 {
    match text {
        Some(t) => t.parse::<f32>().unwrap(),
        None => 0.0,
    }
}

fn figures(r: &Readings) -> Figures {
    let total = number(&r.mem_total);
    let available = number(&r.mem_available);
    Figures {
        mon64_cpu: 0,
        mon64_mem: 0,
        mon64_reachable: 0,
        mem_total: total.to_bits(),
        mem_used: ((total - available) / total * 100.0).to_bits(),
        cpu_idle: 0,
        cpu_total: 0,
        cpu_step: 0,
        cpu_used: 0,
    }
}

fn result(reader: &mut ResponseReader) -> HttpResult {
    let f = figures(reader.readings());
    reader.finish(&mut CpuHistory::default(), &f)
}

fn assert_three_quarters(r: HttpResult, keep_alive: bool) {
    assert_eq!(r.stats.mem_percent.map(f32::from_bits), Some(75.0));
    assert!(r.stats.reachable);
    assert_eq!(r.keep_alive, keep_alive);
}

fn assert_nothing(reader: &mut ResponseReader) {
    let r = result(reader);
    assert!(!r.stats.reachable && r.stats.mem_percent.is_none() && r.stats.cpu_percent.is_none());
    assert!(!r.keep_alive);
}

fn with_length() -> String {
    format!("HTTP/1.1 200 OK\r\nContent-Length: {}\r\n\r\n{}", BODY.len(), BODY)
}

fn chunked() -> String {
    let (a, b) = BODY.split_at(11);
    format!(
        "{}{:x};ext=1\r\n{}\r\n{:X}\r\n{}\r\n0\r\n\r\n",
        "HTTP/1.1 200 OK\r\nTransfer-Encoding: chunked\r\n\r\n",
        a.len(),
        a,
        b.len(),
        b
    )
}

#[test]
fn a_body_of_known_length() {
    let mut r = ResponseReader::new();
    assert!(r.progress() == Progress::More);
    assert!(r.feed(with_length().as_bytes()) == Progress::Done);
    assert_three_quarters(result(&mut r), true);
}

#[test]
fn a_chunked_body() {
    let mut r = ResponseReader::new();
    assert!(r.feed(chunked().as_bytes()) == Progress::Done);
    assert_three_quarters(result(&mut r), true);
}

#[test]
fn a_body_until_the_connection_ends() {
    let mut r = ResponseReader::new();
    assert!(r.feed(b"HTTP/1.0 200 OK\r\n\r\n") == Progress::More);
    assert!(r.feed(BODY.as_bytes()) == Progress::More);
    assert!(r.end(false) == Progress::Done);
    assert_three_quarters(result(&mut r), false);
}

#[test]
fn a_response_is_read_the_same_in_pieces() {
    for text in [with_length(), chunked()] {
        let bytes = text.as_bytes();
        for cut in 0..=bytes.len() {
            let mut r = ResponseReader::new();
            r.feed(&bytes[..cut]);
            r.feed(&bytes[cut..]);
            assert!(r.progress() == Progress::Done, "{}", cut);
            assert_three_quarters(result(&mut r), true);
        }
        let mut r = ResponseReader::new();
        for b in bytes {
            r.feed(&[*b]);
        }
        assert_three_quarters(result(&mut r), true);
    }
}

#[test]
fn chunks_carry_any_body() {
    let mut long = String::new();
    while long.len() < 3000 {
        long.push_str("# filler line that says nothing at all\n");
    }
    long.push_str(BODY);
    for size in [1usize, 7, 300, 511, 2000] {
        let mut sent = b"HTTP/1.1 200 OK\r\nTransfer-Encoding: chunked\r\n\r\n".to_vec();
        for part in long.as_bytes().chunks(size) {
            sent.extend_from_slice(format!("{:x}\r\n", part.len()).as_bytes());
            sent.extend_from_slice(part);
            sent.extend_from_slice(b"\r\n");
        }
        sent.extend_from_slice(b"0\r\n\r\n");
        let mut r = ResponseReader::new();
        for read in sent.chunks(READ_SIZE) {
            r.feed(read);
        }
        assert!(r.progress() == Progress::Done);
        assert_three_quarters(result(&mut r), true);
    }
}

#[test]
fn a_peer_that_closes_is_not_kept() {
    let text = with_length().replace("Content-Length", "Connection: close\r\nContent-Length");
    let mut r = ResponseReader::new();
    r.feed(text.as_bytes());
    assert_three_quarters(result(&mut r), false);
}

#[test]
fn bytes_behind_the_body_end_keep_alive() {
    let text = with_length();
    let head = text.find("\r\n\r\n").unwrap() + 4;
    let mut r = ResponseReader::new();
    r.feed(&text.as_bytes()[..head]);
    let more = format!("{}xyz", &text[head..]);
    assert!(r.feed(more.as_bytes()) == Progress::Done);
    assert_three_quarters(result(&mut r), false);
    // With the head in the same read, too, and behind a response that is already complete.
    let mut r = ResponseReader::new();
    let all = format!("{}xyz", text);
    assert!(r.feed(all.as_bytes()) == Progress::Done);
    assert_three_quarters(result(&mut r), false);
    let mut r = ResponseReader::new();
    r.feed(text.as_bytes());
    r.feed(b"x");
    assert_three_quarters(result(&mut r), false);
    // And behind the last chunk.
    let mut r = ResponseReader::new();
    let all = format!("{}HTTP/1.1", chunked());
    assert!(r.feed(all.as_bytes()) == Progress::Done);
    assert_three_quarters(result(&mut r), false);
}

#[test]
fn failures_of_the_head() {
    let mut r = ResponseReader::new();
    assert!(r.feed(b"HTTP/1.1 500 Oops\r\n\r\n") == Progress::Failed);
    assert_nothing(&mut r);
    let mut r = ResponseReader::new();
    r.feed(b"HTTP/1.1 200 OK\r\n");
    assert!(r.end(false) == Progress::Failed);
    assert_nothing(&mut r);
    let mut r = ResponseReader::new();
    let filler = [b'a'; 512];
    assert!(r.feed(&filler) == Progress::More);
    assert!(r.feed(&filler) == Progress::More);
    assert!(r.feed(&filler) == Progress::More);
    assert!(r.feed(&filler[..1]) == Progress::Failed);
    assert_nothing(&mut r);
}

#[test]
fn failures_of_the_body() {
    let head = "HTTP/1.1 200 OK\r\nTransfer-Encoding: chunked\r\n\r\n";
    let long_line = "0".repeat(65);
    for rest in ["x\r\n", "2\r\nabXY", "2\r\nab\rX", "2\r\nab\n", "\r\n", long_line.as_str()] {
        let mut r = ResponseReader::new();
        assert!(r.feed(format!("{}{}", head, rest).as_bytes()) == Progress::Failed, "{}", rest);
        assert_nothing(&mut r);
        assert!(r.feed(b"0\r\n\r\n") == Progress::Failed);
    }
    for rest in ["", "2", "2\r\na", "2\r\nab", "0\r\n", "0\r\n\r"] {
        let mut r = ResponseReader::new();
        assert!(r.feed(format!("{}{}", head, rest).as_bytes()) == Progress::More, "{}", rest);
        assert!(r.end(false) == Progress::Failed);
        assert_nothing(&mut r);
    }
    let mut r = ResponseReader::new();
    r.feed(b"HTTP/1.1 200 OK\r\nContent-Length: 5\r\n\r\nabc");
    assert!(r.end(false) == Progress::Failed);
    assert_nothing(&mut r);
}

#[test]
fn trailers_end_with_an_empty_line() {
    let head = "HTTP/1.1 200 OK\r\nTransfer-Encoding: chunked\r\n\r\n";
    for trailers in ["", "X-T: 1\r\n", "A: 1\r\nB: 2\r\n", "A: \r 1\n2\r\n"] {
        let text = format!("{}0\r\n{}\r\n", head, trailers);
        let mut r = ResponseReader::new();
        for b in &text.as_bytes()[..text.len() - 1] {
            assert!(r.feed(&[*b]) == Progress::More);
        }
        assert!(r.feed(b"\n") == Progress::Done);
        assert!(result(&mut r).keep_alive);
        // Nothing of the next response is taken along unnoticed.
        let mut r = ResponseReader::new();
        assert!(r.feed(format!("{}NEXT", text).as_bytes()) == Progress::Done);
        assert!(!result(&mut r).keep_alive);
    }
}

#[test]
fn a_connection_may_end_behind_a_trailer() {
    let head = "HTTP/1.1 200 OK\r\nTransfer-Encoding: chunked\r\n\r\n";
    for (trailers, complete) in [
        ("", false),
        ("\r", false),
        ("X-T: 1", false),
        ("X-T: 1\r\n", true),
        ("X-T: 1\r\nY", false),
    ] {
        let text = format!("{}0\r\n{}", head, trailers);
        let mut r = ResponseReader::new();
        r.feed(text.as_bytes());
        let expected = if complete { Progress::Done } else { Progress::Failed };
        assert!(r.end(false) == expected);
        assert!(!result(&mut r).keep_alive);
        let mut r = ResponseReader::new();
        r.feed(text.as_bytes());
        assert!(r.end(true) == Progress::Failed);
    }
}

#[test]
fn long_bodies_are_read_the_same_in_any_reads() {
    let mut body = String::new();
    while body.len() < 5000 {
        body.push_str("# filler line that says nothing at all\n");
    }
    body.push_str(BODY);
    let text = format!("HTTP/1.1 200 OK\r\nContent-Length: {}\r\n\r\n{}", body.len(), body);
    for size in [1usize, 3, 100, 511, READ_SIZE] {
        let mut r = ResponseReader::new();
        for read in text.as_bytes().chunks(size) {
            r.feed(read);
        }
        assert!(r.progress() == Progress::Done);
        assert_three_quarters(result(&mut r), true);
    }
}

#[test]
fn counters_are_taken_out_of_a_response() {
    let mut r = ResponseReader::new();
    r.feed(b"HTTP/1.0 200 OK\r\n\r\nnode_cpu_seconds_total 5\nnode_cpu_seconds_total 6");
    let samples = r.take_cpu();
    assert_eq!(samples.len(), 1);
    assert_eq!(samples[0].seconds, "5");
    r.end(true);
    assert!(r.readings().cpu_seen);
    let samples = r.take_cpu();
    assert_eq!(samples.len(), 1);
    assert_eq!(samples[0].seconds, "6");
}

#[test]
fn an_empty_body_is_complete_at_once() {
    let mut r = ResponseReader::new();
    assert!(r.feed(b"HTTP/1.1 200 OK\r\nContent-Length: 0\r\n\r\n") == Progress::Done);
    let out = result(&mut r);
    assert!(!out.stats.reachable);
    assert!(out.keep_alive);
}

#[test]
fn history_is_only_touched_by_complete_responses() {
    let body = "node_cpu_seconds_total{mode=\"idle\"} 3\n";
    let text = format!("HTTP/1.1 200 OK\r\nContent-Length: {}\r\n\r\n{}", body.len(), body);
    let f = Figures {
        mon64_cpu: 0,
        mon64_mem: 0,
        mon64_reachable: 0,
        mem_total: 0,
        mem_used: 0,
        cpu_idle: 3.0f32.to_bits(),
        cpu_total: 3.0f32.to_bits(),
        cpu_step: 3.0f32.to_bits(),
        cpu_used: 0,
    };
    let mut h = CpuHistory::default();
    let mut r = ResponseReader::new();
    r.feed(&text.as_bytes()[..text.len() - 1]);
    r.finish(&mut h, &f);
    assert!(!h.valid);
    let mut r = ResponseReader::new();
    r.feed(text.as_bytes());
    r.finish(&mut h, &f);
    assert!(h.valid);
    assert_eq!(f32::from_bits(h.total), 3.0);
}

#[test]
fn the_stash_gives_its_first_bytes() {
    let mut stash: heapless::Vec<u8, 1024> = heapless::Vec::new();
    assert_eq!(stash_pop_front(&mut stash), None);
    for b in 0u8..10 {
        stash.push(b).unwrap();
    }
    assert_eq!(stash_pop_front(&mut stash), Some(0));
    assert_eq!(stash.as_slice(), &[1, 2, 3, 4, 5, 6, 7, 8, 9]);
    stash_pop_front_n(&mut stash, 4);
    assert_eq!(stash.as_slice(), &[5, 6, 7, 8, 9]);
    stash_pop_front_n(&mut stash, 0);
    assert_eq!(stash.len(), 5);
    stash_pop_front_n(&mut stash, 100);
    assert!(stash.is_empty());
}
