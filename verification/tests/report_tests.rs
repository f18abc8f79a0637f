use port_scan_rs::parser::{parse_link_frame, LinkKind, ParsedPacket};
use port_scan_rs::report::{
    filter_packets, flag_rows, http_packets, packet_row, protocol_rows, stream_file_name, timelines_shown,
};
use port_scan_rs::stats::{compute_stats, extract_tcp_streams};

fn tcp(seq: u64, sport: u16, dport: u16, flags: u8, payload: &[u8]) -> ParsedPacket {
    let mut f = vec![0u8; 12];
    f.extend_from_slice(&[0x08, 0x00]);
    let total = (40 + payload.len()) as u16;
    f.extend_from_slice(&[0x45, 0x00]);
    f.extend_from_slice(&total.to_be_bytes());
    f.extend_from_slice(&[0, 0, 0x40, 0, 64, 6, 0, 0, 192, 168, 0, 1, 192, 168, 0, 2]);
    f.extend_from_slice(&sport.to_be_bytes());
    f.extend_from_slice(&dport.to_be_bytes());
    f.extend_from_slice(&[0, 0, 0, 1, 0, 0, 0, 0, 0x50, flags, 0xFF, 0xFF, 0, 0, 0, 0]);
    f.extend_from_slice(payload);
    parse_link_frame(&f, seq, 0, LinkKind::Ethernet)
}

fn udp(seq: u64) -> ParsedPacket {
    let mut f = vec![0u8; 12];
    f.extend_from_slice(&[0x08, 0x00, 0x45, 0, 0, 28, 0, 0, 0, 0, 64, 17, 0, 0, 1, 1, 1, 1, 8, 8, 8, 8]);
    f.extend_from_slice(&[0x13, 0x88, 0x00, 0x35, 0, 8, 0, 0]);
    parse_link_frame(&f, seq, 0, LinkKind::Ethernet)
}

fn arp(seq: u64) -> ParsedPacket {
    let mut f = vec![0u8; 12];
    f.extend_from_slice(&[0x08, 0x06]);
    parse_link_frame(&f, seq, 0, LinkKind::Ethernet)
}

#[test]
fn listing_filters() {
    let ps = vec![
        tcp(0, 40000, 80, 0x18, b"GET / HTTP/1.1\r\n\r\n"),
        udp(1),
        tcp(2, 40000, 80, 0x10, b""),
        arp(3),
    ];
    assert_eq!(filter_packets(&ps, false, false, false, None), vec![0, 1, 2, 3]);
    assert_eq!(filter_packets(&ps, true, false, false, None), vec![0, 2]);
    assert_eq!(filter_packets(&ps, false, true, false, None), vec![1]);
    assert_eq!(filter_packets(&ps, false, false, true, None), vec![0]);
    assert_eq!(filter_packets(&ps, false, false, false, Some(2)), vec![0, 1]);
    assert_eq!(filter_packets(&ps, true, true, false, None), Vec::<usize>::new());
    assert_eq!(filter_packets(&ps, false, false, false, Some(0)), Vec::<usize>::new());
    assert_eq!(http_packets(&ps), vec![0]);
}

#[test]
fn packet_table_rows() {
    let p = tcp(7, 40000, 80, 0x18, b"GET /x HTTP/1.1\r\n\r\n");
    assert_eq!(
        packet_row(&p, "1.5000"),
        vec!["7", "1.5000", "192.168.0.1", "192.168.0.2", "40000", "80", "TCP [PSH,ACK]", "19", "GET /x"]
    );
    let a = arp(1);
    assert_eq!(packet_row(&a, "0.0000"), vec!["1", "0.0000", "-", "-", "-", "-", "ARP", "0", "-"]);
}

#[test]
fn statistics_tables() {
    let ps = vec![tcp(0, 40000, 80, 0x02, b""), udp(1), arp(2)];
    let s = compute_stats(&ps);
    let rows = protocol_rows(&s, "33.3%", "33.3%");
    assert_eq!(rows.len(), 7);
    assert_eq!(rows[0], vec!["TCP", "1", "33.3%"]);
    assert_eq!(rows[1], vec!["UDP", "1", "33.3%"]);
    assert_eq!(rows[2], vec!["ARP", "1", "-"]);
    assert_eq!(rows[3], vec!["ICMP", "0", "-"]);
    assert_eq!(rows[6], vec!["三次握手", "0", "-"]);
    let f = flag_rows(&s);
    assert_eq!(f[0], vec!["SYN", "1"]);
    assert_eq!(f[1], vec!["SYN+ACK", "0"]);
    assert_eq!(f.len(), 6);
}

#[test]
fn stream_files() {
    let ps = vec![tcp(0, 40000, 80, 0x02, b"")];
    let st = extract_tcp_streams(&ps);
    assert_eq!(stream_file_name("out", 3, &st[0]), "out/stream_3_192_168_0_2_80.txt");
}

#[test]
fn shown_timelines() {
    assert_eq!(timelines_shown(10, None), 10);
    assert_eq!(timelines_shown(10, Some(3)), 3);
    assert_eq!(timelines_shown(2, Some(3)), 2);
}
