use port_scan_rs::capture_engine::{
    chunk_log, extract_headers_preview, headers_text, make_preview, preview_text, CaptureEngine, CaptureLog,
};

#[test]
fn new_engine_is_stopped() {
    let mut e = CaptureEngine::new(9000);
    assert_eq!(e.port(), 9000);
    assert!(e.poll().is_none());
    assert_eq!(e.captured_count(), 0);
    let d = CaptureEngine::default();
    assert_eq!(d.port(), 8888);
}

#[test]
fn start_hands_out_one_worker_and_stop_quiets() {
    let mut e = CaptureEngine::new(9001);
    let w = e.start().expect("a worker");
    assert_eq!(w.port, 9001);
    assert!(e.start().is_none());
    assert!(e.poll().is_none());
    w.sender.send(CaptureLog::Status("hello".to_string())).unwrap();
    match e.poll() {
        Some(CaptureLog::Status(s)) => assert_eq!(s, "hello"),
        _ => panic!("expected the status"),
    }
    let log = w.handle.record_chunk(b"GET /a HTTP/1.1\r\nHost: x\r\n\r\n");
    match log {
        CaptureLog::HttpRequest { seq, method, path, headers_preview } => {
            assert_eq!(seq, 1);
            assert_eq!(method, "GET");
            assert_eq!(path, "/a");
            assert_eq!(headers_preview, "GET /a HTTP/1.1 Host: x ");
        }
        _ => panic!("expected a request"),
    }
    assert_eq!(e.captured_count(), 1);
    assert!(!w.handle.stop_requested());
    e.stop();
    assert!(w.handle.stop_requested());
    assert!(e.poll().is_none());
    assert_eq!(e.captured_count(), 0);
    assert_eq!(e.port(), 9001);
    assert!(e.start().is_some());
}

#[test]
fn chunks_are_classified() {
    match chunk_log(5, b"HTTP/1.1 200 OK\r\nContent-Length: 0\r\n\r\n") {
        CaptureLog::HttpResponse { seq, status, headers_preview } => {
            assert_eq!(seq, 5);
            assert_eq!(status, "200");
            assert_eq!(headers_preview, "HTTP/1.1 200 OK Content-Length: 0 ");
        }
        _ => panic!("expected a response"),
    }
    match chunk_log(6, b"\x01\x02hello") {
        CaptureLog::Packet { seq, bytes, preview } => {
            assert_eq!(seq, 6);
            assert_eq!(bytes, 7);
            assert_eq!(preview, "hello");
        }
        _ => panic!("expected raw data"),
    }
}

#[test]
fn previews() {
    assert_eq!(make_preview(b"a\tb\x00c"), "a\tbc");
    let long = "x".repeat(61);
    assert_eq!(make_preview(long.as_bytes()), format!("{}…", "x".repeat(60)));
    let sixty = "y".repeat(60);
    assert_eq!(make_preview(sixty.as_bytes()), sixty);
    let cjk = "中".repeat(21);
    assert_eq!(make_preview(cjk.as_bytes()), "…");
    assert_eq!(extract_headers_preview(b"a\nb\nc\nd\ne\nf\ng\n", 14), "a b c d e");
    let req = b"GET / HTTP/1.1\r\nA: 1\r\nB: 2\r\nC: 3\r\nD: 4\r\nE: 5\r\nF: 6\r\n";
    assert_eq!(extract_headers_preview(req, req.len()), "GET / HTTP/1.1 A: 1 B: 2 C: 3 D: 4");
    assert_eq!(extract_headers_preview(b"a\r\nb\r\nzzz", 6), "a b");
}

#[test]
fn previews_of_texts() {
    assert_eq!(preview_text("ab\u{7}c é"), "abc ");
    assert_eq!(preview_text(&"é".repeat(31)), "…");
    assert_eq!(preview_text(&"é".repeat(30)), "");
    assert_eq!(headers_text("x\r\ny"), "x y");
    assert_eq!(headers_text(""), "");
}

#[test]
fn preview_shape_on_any_bytes() {
    let data: Vec<u8> = (0u8..=255).chain(0u8..=255).collect();
    let p = make_preview(&data);
    let (kept, dots) = match p.strip_suffix('…') {
        Some(k) => (k, true),
        None => (p.as_str(), false),
    };
    assert!(kept.chars().count() <= 60);
    assert!(kept.chars().all(|c| c.is_whitespace() || c.is_ascii_graphic()));
    let text = String::from_utf8_lossy(&data);
    assert_eq!(dots, text.len() > 60);
    let expected: String = text.chars().filter(|c| c.is_whitespace() || c.is_ascii_graphic()).take(60).collect();
    assert_eq!(kept, expected);
}

#[test]
fn second_start_keeps_channel_and_counter() {
    let mut e = CaptureEngine::new(9002);
    let w = e.start().expect("a worker");
    w.handle.record_chunk(b"abc");
    assert!(e.start().is_none());
    assert_eq!(e.captured_count(), 1);
    w.sender.send(CaptureLog::Status("still here".to_string())).unwrap();
    match e.poll() {
        Some(CaptureLog::Status(s)) => assert_eq!(s, "still here"),
        _ => panic!("expected the status from the first worker"),
    }
}
