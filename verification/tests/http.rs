use metric_gauge::http::{
    ascii_contains_ci, build_request, find_header_end, header_has_connection_close,
    parse_body_kind, parse_hex_size, parse_status_ok, parse_url, request_bytes, BodyKind,
};

#[test]
fn chunk_sizes() {
    assert_eq!(parse_hex_size(b"0"), Some(0));
    assert_eq!(parse_hex_size(b"1a"), Some(26));
    assert_eq!(parse_hex_size(b" FF \t"), Some(255));
    assert_eq!(parse_hex_size(b"10;name=value"), Some(16));
    assert_eq!(parse_hex_size(b"+a"), Some(10));
    assert_eq!(parse_hex_size(b""), None);
    assert_eq!(parse_hex_size(b";x"), None);
    assert_eq!(parse_hex_size(b"g"), None);
    assert_eq!(parse_hex_size(b"-1"), None);
    assert_eq!(parse_hex_size(b"\xff"), None);
    assert_eq!(parse_hex_size(b"a;\xff"), Some(10));
    assert_eq!(parse_hex_size(b"ffffffffffffffff"), Some(usize::MAX));
    assert_eq!(parse_hex_size(b"10000000000000000"), None);
}

#[test]
fn the_head_ends_behind_the_first_empty_line() {
    assert_eq!(find_header_end(b"a\r\n\r\nb"), Some(5));
    assert_eq!(find_header_end(b"\r\n\r\n"), Some(4));
    assert_eq!(find_header_end(b"a\r\n\r\n\r\n\r\n"), Some(5));
    assert_eq!(find_header_end(b"a\n\nb"), None);
    assert_eq!(find_header_end(b"\r\n\r"), None);
    assert_eq!(find_header_end(b""), None);
}

#[test]
fn success_is_on_the_status_line() {
    assert!(parse_status_ok(b"HTTP/1.1 200 OK\r\n\r\n"));
    assert!(parse_status_ok(b"HTTP/1.0 200 OK\r\n\r\n"));
    assert!(parse_status_ok(b"xHTTP/1.1 2000\n"));
    assert!(!parse_status_ok(b"HTTP/1.1 404 Not Found\r\n\r\n"));
    assert!(!parse_status_ok(b"\r\nHTTP/1.1 200 OK\r\n\r\n"));
    assert!(!parse_status_ok(b"HTTP/2 200\r\n\r\n"));
    assert!(!parse_status_ok(b"HTTP/1.1 200 \xff\r\n\r\n"));
    assert!(!parse_status_ok(b""));
}

#[test]
fn searching_without_case() {
    assert!(ascii_contains_ci("Keep-Alive, CLOSE", b"close"));
    assert!(ascii_contains_ci("close", b"CLOSE"));
    assert!(!ascii_contains_ci("clos", b"close"));
    assert!(!ascii_contains_ci("", b"close"));
    assert!(ascii_contains_ci("äclose", b"close"));
}

#[test]
fn connections_that_close() {
    assert!(header_has_connection_close(b"HTTP/1.1 200 OK\r\nConnection: Close\r\n\r\n"));
    assert!(header_has_connection_close(b"a\r\nCONNECTION:close\r\n\r\n"));
    assert!(!header_has_connection_close(b"a\r\nConnection: keep-alive\r\n\r\n"));
    // The first such field decides.
    assert!(!header_has_connection_close(b"Connection: x\r\nConnection: close\r\n\r\n"));
    assert!(!header_has_connection_close(b"Connection : close\r\n\r\n"));
    assert!(!header_has_connection_close(b"connection: close \xff\r\n"));
    assert!(!header_has_connection_close(b""));
}

#[test]
fn kinds_of_bodies() {
    assert!(parse_body_kind(b"Content-Length: 12\r\n\r\n", false) == BodyKind::Length(12));
    assert!(parse_body_kind(b"content-length:+7\r\n\r\n", true) == BodyKind::Length(7));
    assert!(parse_body_kind(b"Transfer-Encoding: Chunked\r\n\r\n", false) == BodyKind::Chunked);
    // Chunks win over a length, whatever the order.
    assert!(
        parse_body_kind(b"Transfer-Encoding: chunked\r\nContent-Length: 1\r\n\r\n", false)
            == BodyKind::Chunked
    );
    // The last length that is a number counts.
    assert!(
        parse_body_kind(b"Content-Length: 1\r\nContent-Length: 2\r\nContent-Length: x\r\n", false)
            == BodyKind::Length(2)
    );
    assert!(parse_body_kind(b"Content-Length: -1\r\n\r\n", false) == BodyKind::UntilEof);
    assert!(parse_body_kind(b"a: b\r\n\r\n", false) == BodyKind::UntilEof);
    assert!(parse_body_kind(b"a: b\r\n\r\n", true) == BodyKind::UntilEof);
    assert!(parse_body_kind(b"Content-Length: 1\xff\r\n\r\n", false) == BodyKind::UntilEof);
}

#[test]
fn urls() {
    assert_eq!(
        parse_url("https://node1.homin.dev/metrics"),
        Some(("node1.homin.dev", "/metrics", true))
    );
    assert_eq!(parse_url("http://h:9100/m?a=b:c"), Some(("h", "/m?a=b:c", false)));
    assert_eq!(parse_url("http://h"), Some(("h", "/", false)));
    assert_eq!(parse_url("https://h:1"), Some(("h", "/", true)));
    assert_eq!(parse_url("http://h/"), Some(("h", "/", false)));
    assert_eq!(parse_url("http:///x"), None);
    assert_eq!(parse_url("http://:80/x"), None);
    assert_eq!(parse_url("ftp://h/x"), None);
    assert_eq!(parse_url("HTTP://h/x"), None);
    assert_eq!(parse_url(""), None);
}

const FIELDS: &str =
    "\r\nUser-Agent: metric-gauge\r\nAccept: text/plain\r\nConnection: keep-alive\r\n\r\n";

#[test]
fn requests() {
    let expected = format!("GET /metrics HTTP/1.1\r\nHost: node1{}", FIELDS);
    assert_eq!(build_request("/metrics", "node1").as_str(), expected);
    assert_eq!(request_bytes("/metrics", "node1"), expected.as_bytes());
}

#[test]
fn parts_of_a_request_that_do_not_fit_are_left_out() {
    let long = "x".repeat(300);
    let expected = format!("GET  HTTP/1.1\r\nHost: h{}", FIELDS);
    assert_eq!(build_request(&long, "h").as_str(), expected);
    // The longest path that leaves room for everything.
    let room = 288 - 4 - 17 - 1 - FIELDS.len();
    let fits = "p".repeat(room);
    assert_eq!(build_request(&fits, "h").as_str().len(), 288);
    let over = "p".repeat(room + 1);
    let expected = format!("GET {} HTTP/1.1\r\nHost: h", over);
    assert_eq!(build_request(&over, "h").as_str(), expected);
}
