use port_scan_rs::capture::{
    live_step, loopback_log_line, loopback_packet_limit, loopback_preview_line, loopback_progress_line,
    loopback_step, CaptureOpts, CaptureProgress, CaptureStop,
};

fn opts(count: u64, max_bytes: u32, preview: bool) -> CaptureOpts {
    CaptureOpts {
        interface: None,
        filter: None,
        output: "capture.pcap".to_string(),
        max_bytes,
        preview,
        count,
        save: true,
    }
}

#[test]
fn loopback_limits() {
    assert_eq!(loopback_packet_limit(0), None);
    assert_eq!(loopback_packet_limit(5), Some(5));
    let mut p = CaptureProgress { count: 0, bytes: 0 };
    assert_eq!(loopback_step(&mut p, 10, Some(2), 0), CaptureStop::Continue);
    assert_eq!(loopback_step(&mut p, 10, Some(2), 0), CaptureStop::PacketLimit);
    assert_eq!(p, CaptureProgress { count: 2, bytes: 20 });
    let mut q = CaptureProgress { count: 0, bytes: 0 };
    assert_eq!(loopback_step(&mut q, 600, Some(1000), 1000), CaptureStop::Continue);
    assert_eq!(loopback_step(&mut q, 600, Some(1000), 1000), CaptureStop::ByteLimit);
    let mut r = CaptureProgress { count: 0, bytes: 0 };
    assert_eq!(loopback_step(&mut r, 2000, Some(1), 1000), CaptureStop::PacketLimit);
}

#[test]
fn loopback_count_zero_is_unlimited() {
    let limit = loopback_packet_limit(0);
    let mut p = CaptureProgress { count: 0, bytes: 0 };
    for _ in 0..1500 {
        assert_eq!(loopback_step(&mut p, 1, limit, 0), CaptureStop::Continue);
    }
    assert_eq!(p.count, 1500);
}

#[test]
fn live_capture_steps() {
    let o = opts(0, 0, false);
    let mut p = CaptureProgress { count: 98, bytes: 0 };
    let s = live_step(&mut p, 60, &o);
    assert!(!s.show_progress);
    assert_eq!(s.stop, CaptureStop::Continue);
    let s = live_step(&mut p, 60, &o);
    assert!(s.show_progress);
    assert_eq!(p, CaptureProgress { count: 100, bytes: 120 });
    let pv = opts(0, 0, true);
    let mut q = CaptureProgress { count: 99, bytes: 0 };
    assert!(!live_step(&mut q, 1, &pv).show_progress);
    let lim = opts(3, 100, false);
    let mut r = CaptureProgress { count: 2, bytes: 0 };
    assert_eq!(live_step(&mut r, 500, &lim).stop, CaptureStop::PacketLimit);
    let mut t = CaptureProgress { count: 0, bytes: 50 };
    assert_eq!(live_step(&mut t, 50, &lim).stop, CaptureStop::ByteLimit);
}

#[test]
fn loopback_lines() {
    let data: Vec<u8> = (0u8..60).collect();
    let line = loopback_preview_line(7, "12:00:00.000", &data);
    let hex48: String = data[..48].iter().map(|b| format!("{:02x}", b)).collect();
    assert_eq!(
        line,
        format!("#{:<6} {:<12} {:<24} {:<14} {:>6} B  {}", 7, "12:00:00.000", "127.0.0.1:8888", "TCP", 60, hex48)
    );
    assert_eq!(loopback_log_line("2024-01-01 00:00:00 UTC", b"hi"), "2024-01-01 00:00:00 UTC 2 6869\n");
    assert_eq!(loopback_progress_line(3, 42), "已捕获 3 包 (42 字节)");
}
