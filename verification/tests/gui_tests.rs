use port_scan_rs::capture_engine::CaptureLog;
use port_scan_rs::gui::{
    selected_iface_label, visible_start, LoopbackPage,
    iface_capture_request, IfacePreview, StartRefusal,
    capture_log_line, capture_port_from, default_capture_mode, filter_preview_rows, is_capture_error,
    line_kind, listening_rows, push_bounded, scan_summary, CaptureLogBook, CaptureMode, LineKind, Tab,
};
use port_scan_rs::netif::{IfaceEvent, IfaceInfo, PreviewRow};
use port_scan_rs::scanner::PortEntry;

fn row(src: &str, dst: &str, protocol: &str, summary: &str) -> PreviewRow {
    PreviewRow {
        seq: 1,
        timestamp_ns: 0,
        src: src.to_string(),
        dst: dst.to_string(),
        protocol: protocol.to_string(),
        length: 60,
        summary: summary.to_string(),
    }
}

#[test]
fn modes_and_ports() {
    assert_eq!(default_capture_mode(true), CaptureMode::Iface);
    assert_eq!(default_capture_mode(false), CaptureMode::Loopback);
    assert_eq!(capture_port_from("9000"), 9000);
    assert_eq!(capture_port_from("abc"), 8888);
    assert_eq!(capture_port_from("70000"), 8888);
    assert_eq!(capture_port_from(" 80"), 8888);
    assert!(Tab::Analyze != Tab::Capture);
}

#[test]
fn log_lines() {
    assert_eq!(capture_log_line(&CaptureLog::Status("开始".to_string())), "[状态] 开始");
    assert_eq!(
        capture_log_line(&CaptureLog::Packet { seq: 3, bytes: 12, preview: "abc".to_string() }),
        "[包#3] (12 字节) abc"
    );
    assert_eq!(
        capture_log_line(&CaptureLog::HttpRequest {
            seq: 4,
            method: "GET".to_string(),
            path: "/x".to_string(),
            headers_preview: "GET /x HTTP/1.1 Host: a".to_string(),
        }),
        "[HTTP请求#4] GET /x | GET /x HTTP/1.1 Host: a"
    );
    assert_eq!(
        capture_log_line(&CaptureLog::HttpResponse {
            seq: 5,
            status: "200".to_string(),
            headers_preview: "HTTP/1.1 200 OK".to_string(),
        }),
        "[HTTP响应#5] 200 | HTTP/1.1 200 OK"
    );
}

#[test]
fn log_book_is_bounded() {
    let mut b = CaptureLogBook::new();
    for i in 0..501u64 {
        b.push(&CaptureLog::Packet { seq: i, bytes: 1, preview: String::new() });
    }
    assert_eq!(b.lines().len(), 401);
    assert_eq!(b.lines()[0], "[包#100] (1 字节) ");
    assert_eq!(b.lines()[400], "[包#500] (1 字节) ");
    assert_eq!(b.http_count(), 0);
    b.push(&CaptureLog::HttpRequest {
        seq: 9,
        method: "GET".to_string(),
        path: "/".to_string(),
        headers_preview: String::new(),
    });
    b.push(&CaptureLog::HttpResponse { seq: 10, status: "200".to_string(), headers_preview: String::new() });
    assert_eq!(b.http_count(), 1);
    assert_eq!(b.lines().len(), 403);
}

#[test]
fn line_kinds() {
    assert_eq!(line_kind("[HTTP请求#1] GET / | x"), LineKind::Request);
    assert_eq!(line_kind("[HTTP响应#1] 200 | x"), LineKind::Response);
    assert_eq!(line_kind("[状态] ok"), LineKind::Status);
    assert_eq!(line_kind("[包#1] (1 字节) a"), LineKind::Other);
}

#[test]
fn bounded_buffer_keeps_the_latest() {
    let mut v: Vec<u32> = Vec::new();
    for i in 0..5 {
        push_bounded(&mut v, i, 3);
    }
    assert_eq!(v, vec![2, 3, 4]);
    let mut w = vec![1, 2, 3, 4, 5];
    push_bounded(&mut w, 6, 2);
    assert_eq!(w, vec![5, 6]);
}

#[test]
fn display_filter() {
    let rows = vec![
        row("10.0.0.1:80", "10.0.0.2:5000", "TCP [SYN]", "TCP [SYN]"),
        row("8.8.8.8:53", "10.0.0.2:5001", "UDP", "UDP | DNS"),
        row("-", "-", "ARP", "ARP"),
    ];
    assert_eq!(filter_preview_rows(&rows, ""), vec![0, 1, 2]);
    assert_eq!(filter_preview_rows(&rows, "  udp "), vec![1]);
    assert_eq!(filter_preview_rows(&rows, "10.0.0.2"), vec![0, 1]);
    assert_eq!(filter_preview_rows(&rows, "syn"), vec![0]);
    assert_eq!(filter_preview_rows(&rows, "icmp"), Vec::<usize>::new());
}

#[test]
fn remote_scan_summary() {
    let list = vec![
        (22u16, "ssh".to_string(), true),
        (23u16, "telnet".to_string(), false),
        (8080u16, String::new(), true),
    ];
    assert_eq!(scan_summary(&list), "开放 22 ssh\n开放 8080 \n");
    assert_eq!(scan_summary(&[(1u16, String::new(), false)]), "未发现开放端口");
    assert_eq!(scan_summary(&[]), "未发现开放端口");
}

#[test]
fn listening_page_rows() {
    let mut entries = Vec::new();
    for p in 0..60u16 {
        entries.push(PortEntry {
            protocol: "TCP".to_string(),
            local_addr: "0.0.0.0".to_string(),
            local_port: p,
            remote_addr: "-".to_string(),
            remote_port: 0,
            state: if p % 2 == 0 { "LISTEN".to_string() } else { "ESTABLISHED".to_string() },
            pid: None,
            process: None,
        });
    }
    let rows = listening_rows(&entries);
    assert_eq!(rows.len(), 30);
    assert_eq!(rows[0], vec!["TCP", "0.0.0.0:0", "LISTEN", "-"]);
    let more: Vec<PortEntry> = entries.iter().map(|e| PortEntry { state: "LISTEN".to_string(), ..e.clone() }).collect();
    assert_eq!(listening_rows(&more).len(), 50);
}

#[test]
fn capture_errors() {
    assert!(is_capture_error("抓包出错: timeout"));
    assert!(!is_capture_error("已停止抓包"));
}

#[test]
fn interface_page_state() {
    let mut p = IfacePreview::new();
    p.started();
    assert!(p.running);
    assert_eq!(p.status, "启动中…");
    p.apply(IfaceEvent::Status("开始抓包: eth0 (EN10MB)".to_string()));
    assert_eq!(p.status, "开始抓包: eth0 (EN10MB)");
    assert!(p.error.is_none());
    for i in 0..2005u64 {
        let mut r = row("a", "b", "TCP", "x");
        r.seq = i;
        p.apply(IfaceEvent::Packet(r));
    }
    assert_eq!(p.rows.len(), 2000);
    assert_eq!(p.rows[0].seq, 5);
    p.apply(IfaceEvent::Status("抓包出错: device gone".to_string()));
    assert_eq!(p.error.as_deref(), Some("抓包出错: device gone"));
    p.apply(IfaceEvent::Status("已停止抓包".to_string()));
    assert_eq!(p.error.as_deref(), Some("抓包出错: device gone"));
    p.disconnected();
    assert!(!p.running);
    assert_eq!(p.status, "已停止抓包");
    p.stopped();
    assert_eq!(p.status, "已停止");
}

#[test]
fn starting_an_interface_capture() {
    let f = IfaceInfo {
        name: "eth0".to_string(),
        description: String::new(),
        mac: None,
        addresses: Vec::new(),
        up: true,
        running: true,
        loopback: false,
        wireless: false,
    };
    let list = vec![f];
    assert_eq!(iface_capture_request(&list, 0, false, "").unwrap(), ("eth0".to_string(), None));
    assert_eq!(
        iface_capture_request(&list, 0, true, "  out.pcap ").unwrap(),
        ("eth0".to_string(), Some("out.pcap".to_string()))
    );
    assert_eq!(iface_capture_request(&list, 0, true, "   "), Err(StartRefusal::NoSavePath));
    assert_eq!(iface_capture_request(&list, 1, true, "x"), Err(StartRefusal::NoInterface));
    assert_eq!(iface_capture_request(&[], 0, false, ""), Err(StartRefusal::NoInterface));
}

#[test]
fn loopback_page_switch() {
    let mut p = LoopbackPage::new();
    assert_eq!(p.engine.port(), 8888);
    assert!(!p.enabled);
    p.apply_port("9100");
    assert_eq!(p.engine.port(), 9100);
    let w = p.switch(true, "9200").expect("a worker");
    assert_eq!(w.port, 9200);
    assert!(p.enabled);
    assert_eq!(p.engine.port(), 9200);
    assert!(p.switch(true, "9300").is_none());
    p.apply_port("9400");
    assert_eq!(p.engine.port(), 9200);
    w.handle.record_chunk(b"x");
    assert_eq!(p.engine.captured_count(), 1);
    assert!(p.switch(false, "").is_none());
    assert!(!p.enabled);
    assert_eq!(p.engine.captured_count(), 0);
    assert!(w.handle.stop_requested());
    let w2 = p.switch(true, "bad").unwrap();
    assert_eq!(w2.port, 8888);
    assert_eq!(p.book.lines().len(), 0);
}

#[test]
fn list_views() {
    assert_eq!(visible_start(750, 500), 250);
    assert_eq!(visible_start(10, 200), 0);
    assert_eq!(selected_iface_label(&[], 0), "(请先刷新网卡列表)");
    let f = IfaceInfo {
        name: "eth0".to_string(),
        description: "NIC".to_string(),
        mac: None,
        addresses: vec![],
        up: true,
        running: true,
        loopback: false,
        wireless: false,
    };
    assert_eq!(selected_iface_label(&[f], 0), "eth0 - NIC");
}
