use port_scan_rs::parser::{
    line_preview,
    packet_summary, parse_http_payload, parse_link_frame, parse_pcap_bytes, LinkKind, PcapError,
};

fn ipv4_tcp_frame(src: [u8; 4], sport: u16, dst: [u8; 4], dport: u16, flags: u8, payload: &[u8]) -> Vec<u8> {
    let mut f = vec![0xAA, 0xBB, 0xCC, 0xDD, 0xEE, 0xFF, 0x00, 0x11, 0x22, 0x33, 0x44, 0x55, 0x08, 0x00];
    let total = (20 + 20 + payload.len()) as u16;
    f.extend_from_slice(&[0x45, 0x00]);
    f.extend_from_slice(&total.to_be_bytes());
    f.extend_from_slice(&[0, 0, 0x40, 0, 64, 6, 0, 0]);
    f.extend_from_slice(&src);
    f.extend_from_slice(&dst);
    f.extend_from_slice(&sport.to_be_bytes());
    f.extend_from_slice(&dport.to_be_bytes());
    f.extend_from_slice(&[0, 0, 0, 1, 0, 0, 0, 0, 0x50, flags, 0xFF, 0xFF, 0, 0, 0, 0]);
    f.extend_from_slice(payload);
    f
}

fn pcap_le(records: &[(u32, u32, Vec<u8>)]) -> Vec<u8> {
    let mut d = vec![0xD4, 0xC3, 0xB2, 0xA1, 2, 0, 4, 0];
    d.extend_from_slice(&[0; 8]);
    d.extend_from_slice(&65535u32.to_le_bytes());
    d.extend_from_slice(&1u32.to_le_bytes());
    for (sec, usec, data) in records {
        d.extend_from_slice(&sec.to_le_bytes());
        d.extend_from_slice(&usec.to_le_bytes());
        d.extend_from_slice(&(data.len() as u32).to_le_bytes());
        d.extend_from_slice(&(data.len() as u32).to_le_bytes());
        d.extend_from_slice(data);
    }
    d
}

#[test]
fn link_kind_numbers() {
    assert_eq!(LinkKind::from_linktype(1), LinkKind::Ethernet);
    assert_eq!(LinkKind::from_linktype(0), LinkKind::Null);
    assert_eq!(LinkKind::from_linktype(108), LinkKind::Null);
    assert_eq!(LinkKind::from_linktype(12), LinkKind::Raw);
    assert_eq!(LinkKind::from_linktype(101), LinkKind::Raw);
    assert_eq!(LinkKind::from_linktype(113), LinkKind::LinuxSll);
    assert_eq!(LinkKind::from_linktype(105), LinkKind::Other);
}

#[test]
fn http_request_is_recognised() {
    let h = parse_http_payload("GET /index.html HTTP/1.1\r\nHost: a\r\n\r\n").unwrap();
    assert_eq!(h.method, "GET");
    assert_eq!(h.path, "/index.html");
    assert_eq!(h.version, "HTTP/1.1");
    assert!(h.status.is_none());
}

#[test]
fn http_response_is_recognised() {
    let h = parse_http_payload("\0\0HTTP/1.1 404 Not Found\r\n\r\n").unwrap();
    assert_eq!(h.method, "RESPONSE");
    assert_eq!(h.path, "");
    assert_eq!(h.version, "HTTP/1.1");
    assert_eq!(h.status.as_deref(), Some("404"));
    assert_eq!(h.body, "HTTP/1.1 404 Not Found\r\n\r\n");
}

#[test]
fn text_without_three_words_is_not_http() {
    assert!(parse_http_payload("hello world").is_none());
    assert!(parse_http_payload("").is_none());
}

#[test]
fn ethernet_tcp_http_frame_is_decoded() {
    let payload = b"GET /a HTTP/1.1\r\nHost: x\r\n\r\n";
    let frame = ipv4_tcp_frame([192, 168, 1, 2], 50000, [93, 184, 216, 34], 80, 0x18, payload);
    let p = parse_link_frame(&frame, 7, 1_500_000_000, LinkKind::Ethernet);
    assert_eq!(p.seq, 7);
    assert_eq!(p.timestamp_ns, 1_500_000_000);
    assert_eq!(p.dst_mac, "AA:BB:CC:DD:EE:FF");
    assert_eq!(p.src_mac, "00:11:22:33:44:55");
    assert_eq!(p.ethertype, 0x0800);
    assert_eq!(p.protocol, "TCP");
    assert_eq!(p.src_ip.as_deref(), Some("192.168.1.2"));
    assert_eq!(p.dst_ip.as_deref(), Some("93.184.216.34"));
    assert_eq!(p.src_port, Some(50000));
    assert_eq!(p.dst_port, Some(80));
    assert_eq!(p.tcp_flags.as_deref(), Some("PSH,ACK"));
    assert_eq!(p.payload_size, payload.len());
    let h = p.http.as_ref().unwrap();
    assert_eq!(h.method, "GET");
    assert_eq!(h.path, "/a");
    assert_eq!(packet_summary(&p, &frame), "HTTP GET /a");
}

#[test]
fn short_ethernet_frame_stays_unknown() {
    let p = parse_link_frame(&[1, 2, 3], 0, 0, LinkKind::Ethernet);
    assert_eq!(p.protocol, "unknown");
    assert_eq!(p.payload_size, 0);
    assert_eq!(p.src_mac, "");
}

#[test]
fn arp_and_unknown_ethertypes() {
    let mut f = vec![0u8; 12];
    f.extend_from_slice(&[0x08, 0x06]);
    f.extend_from_slice(&[0u8; 28]);
    assert_eq!(parse_link_frame(&f, 0, 0, LinkKind::Ethernet).protocol, "ARP");
    let mut g = vec![0u8; 12];
    g.extend_from_slice(&[0x12, 0xAB]);
    assert_eq!(parse_link_frame(&g, 0, 0, LinkKind::Ethernet).protocol, "ethertype-0x12AB");
}

#[test]
fn other_link_type_is_labelled() {
    let p = parse_link_frame(&[0u8; 10], 3, 0, LinkKind::Other);
    assert_eq!(p.protocol, "非以太网帧");
    assert_eq!(p.payload_size, 10);
}

#[test]
fn tcp_flags_none_and_all() {
    let f = ipv4_tcp_frame([1, 1, 1, 1], 1, [2, 2, 2, 2], 2, 0x00, b"");
    assert_eq!(parse_link_frame(&f, 0, 0, LinkKind::Ethernet).tcp_flags.as_deref(), Some("NONE"));
    let g = ipv4_tcp_frame([1, 1, 1, 1], 1, [2, 2, 2, 2], 2, 0x3F, b"");
    assert_eq!(
        parse_link_frame(&g, 0, 0, LinkKind::Ethernet).tcp_flags.as_deref(),
        Some("FIN,SYN,RST,PSH,ACK,URG")
    );
}

#[test]
fn raw_ipv6_addresses_are_compressed() {
    let mut f = vec![0x60, 0, 0, 0, 0, 8, 17, 64];
    let mut src = [0u8; 16];
    src[0] = 0x20;
    src[1] = 0x01;
    src[2] = 0x0d;
    src[3] = 0xb8;
    src[15] = 1;
    let mut dst = [0u8; 16];
    dst[15] = 1;
    f.extend_from_slice(&src);
    f.extend_from_slice(&dst);
    f.extend_from_slice(&[0x00, 0x35, 0x13, 0x88, 0, 8, 0, 0]);
    let p = parse_link_frame(&f, 0, 0, LinkKind::Raw);
    assert_eq!(p.protocol, "UDP");
    assert_eq!(p.src_ip.as_deref(), Some("2001:db8::1"));
    assert_eq!(p.dst_ip.as_deref(), Some("::1"));
    assert_eq!(p.src_port, Some(53));
    assert_eq!(p.dst_port, Some(5000));
    assert_eq!(p.payload_size, 0);
}

#[test]
fn pcap_file_is_read_in_order() {
    let a = ipv4_tcp_frame([10, 0, 0, 1], 40000, [10, 0, 0, 2], 80, 0x02, b"");
    let b = ipv4_tcp_frame([10, 0, 0, 2], 80, [10, 0, 0, 1], 40000, 0x12, b"");
    let data = pcap_le(&[(1, 500_000, a), (2, 250, b)]);
    let ps = parse_pcap_bytes(&data).unwrap();
    assert_eq!(ps.len(), 2);
    assert_eq!(ps[0].seq, 0);
    assert_eq!(ps[0].timestamp_ns, 1_500_000_000);
    assert_eq!(ps[0].tcp_flags.as_deref(), Some("SYN"));
    assert_eq!(ps[1].seq, 1);
    assert_eq!(ps[1].timestamp_ns, 2_000_250_000);
    assert_eq!(ps[1].tcp_flags.as_deref(), Some("SYN,ACK"));
}

#[test]
fn pcap_big_endian_nanosecond_file() {
    let a = ipv4_tcp_frame([10, 0, 0, 1], 1, [10, 0, 0, 2], 2, 0x10, b"");
    let mut d = vec![0xA1, 0xB2, 0x3C, 0x4D, 0, 2, 0, 4];
    d.extend_from_slice(&[0; 8]);
    d.extend_from_slice(&65535u32.to_be_bytes());
    d.extend_from_slice(&1u32.to_be_bytes());
    d.extend_from_slice(&3u32.to_be_bytes());
    d.extend_from_slice(&7u32.to_be_bytes());
    d.extend_from_slice(&(a.len() as u32).to_be_bytes());
    d.extend_from_slice(&(a.len() as u32).to_be_bytes());
    d.extend_from_slice(&a);
    let ps = parse_pcap_bytes(&d).unwrap();
    assert_eq!(ps.len(), 1);
    assert_eq!(ps[0].timestamp_ns, 3_000_000_007);
    assert_eq!(ps[0].protocol, "TCP");
}

#[test]
fn zero_length_record_skips_a_number() {
    let a = ipv4_tcp_frame([10, 0, 0, 1], 1, [10, 0, 0, 2], 2, 0x10, b"");
    let data = pcap_le(&[(0, 0, Vec::new()), (0, 0, a)]);
    let ps = parse_pcap_bytes(&data).unwrap();
    assert_eq!(ps.len(), 1);
    assert_eq!(ps[0].seq, 1);
}

#[test]
fn partial_record_header_ends_the_file() {
    let mut data = pcap_le(&[]);
    data.extend_from_slice(&[1, 2, 3]);
    assert_eq!(parse_pcap_bytes(&data).unwrap().len(), 0);
}

#[test]
fn pcap_errors() {
    assert!(matches!(parse_pcap_bytes(&[0xD4, 0xC3]), Err(PcapError::Truncated)));
    assert!(matches!(parse_pcap_bytes(&[0xD4, 0xC3, 0xB2, 0xA1, 0, 0]), Err(PcapError::Truncated)));
    assert!(matches!(parse_pcap_bytes(&[0x0A, 0x0D, 0x0D, 0x0A, 0, 0, 0, 0]), Err(PcapError::PcapNg)));
    match parse_pcap_bytes(&[0xDE, 0xAD, 0xBE, 0xEF, 0, 0]) {
        Err(PcapError::BadMagic(m)) => assert_eq!(m, "deadbeef"),
        _ => panic!("expected a bad magic"),
    }
    let mut d = vec![0xD4, 0xC3, 0xB2, 0xA1];
    d.extend_from_slice(&[0; 16]);
    d.extend_from_slice(&105u32.to_le_bytes());
    assert!(matches!(parse_pcap_bytes(&d), Err(PcapError::UnsupportedLinkType(105))));
    let a = ipv4_tcp_frame([10, 0, 0, 1], 1, [10, 0, 0, 2], 2, 0x10, b"");
    let mut cut = pcap_le(&[(0, 0, a)]);
    cut.truncate(cut.len() - 5);
    assert!(matches!(parse_pcap_bytes(&cut), Err(PcapError::Truncated)));
}

#[test]
fn summary_of_plain_tcp_payload() {
    let frame = ipv4_tcp_frame([1, 2, 3, 4], 1000, [5, 6, 7, 8], 2000, 0x18, b"ab cd\n\x01!  x");
    let p = parse_link_frame(&frame, 0, 0, LinkKind::Ethernet);
    assert!(p.http.is_none());
    assert_eq!(packet_summary(&p, &frame), "TCP [PSH,ACK] | ab cd! x");
    let words = ipv4_tcp_frame([1, 2, 3, 4], 1000, [5, 6, 7, 8], 2000, 0x18, b"hello   there");
    let q = parse_link_frame(&words, 0, 0, LinkKind::Ethernet);
    assert_eq!(q.http.as_ref().map(|h| h.method.as_str()), Some("hello"));
    let empty = ipv4_tcp_frame([1, 2, 3, 4], 1000, [5, 6, 7, 8], 2000, 0x10, b"");
    let r = parse_link_frame(&empty, 0, 0, LinkKind::Ethernet);
    assert_eq!(packet_summary(&r, &empty), "TCP [ACK]");
}

fn ipv4_udp(payload: &[u8]) -> Vec<u8> {
    let mut f = vec![0x45, 0, 0, 0, 0, 0, 0, 0, 64, 17, 0, 0, 10, 0, 0, 1, 10, 0, 0, 2];
    f.extend_from_slice(&[0x04, 0xD2, 0x16, 0x2E, 0, 0, 0, 0]);
    f.extend_from_slice(payload);
    f
}

#[test]
fn null_loopback_frames() {
    let mut f = vec![2, 0, 0, 0];
    f.extend_from_slice(&ipv4_udp(b"abc"));
    let p = parse_link_frame(&f, 1, 0, LinkKind::Null);
    assert_eq!(p.protocol, "UDP");
    assert_eq!(p.src_port, Some(1234));
    assert_eq!(p.dst_port, Some(5678));
    assert_eq!(p.payload_size, 3);
    let mut g = vec![0, 0, 0, 99];
    g.extend_from_slice(&ipv4_udp(b""));
    assert_eq!(parse_link_frame(&g, 1, 0, LinkKind::Null).protocol, "UDP");
    let short = parse_link_frame(&[2, 0, 0, 0], 1, 0, LinkKind::Null);
    assert_eq!(short.protocol, "IP");
    assert_eq!(short.payload_size, 4);
}

#[test]
fn linux_cooked_frames() {
    let mut f = vec![0u8; 14];
    f.extend_from_slice(&[0x08, 0x00]);
    f.extend_from_slice(&ipv4_udp(b""));
    let p = parse_link_frame(&f, 0, 0, LinkKind::LinuxSll);
    assert_eq!(p.protocol, "UDP");
    assert_eq!(p.ethertype, 0x0800);
    let mut g = vec![0u8; 14];
    g.extend_from_slice(&[0x88, 0xCC, 0]);
    assert_eq!(parse_link_frame(&g, 0, 0, LinkKind::LinuxSll).protocol, "ethertype-0x88CC");
    assert_eq!(parse_link_frame(&[0u8; 16], 0, 0, LinkKind::LinuxSll).protocol, "SLL");
}

#[test]
fn vlan_frames_read_the_inner_type_where_the_decoder_looks() {
    let mut f = vec![0u8; 12];
    f.extend_from_slice(&[0x81, 0x00]);
    let mut inner = vec![0u8; 12];
    inner.extend_from_slice(&[0x08, 0x00, 0, 0]);
    inner.extend_from_slice(&ipv4_udp(b""));
    f.extend_from_slice(&inner);
    let p = parse_link_frame(&f, 0, 0, LinkKind::Ethernet);
    assert_eq!(p.ethertype, 0x0800);
    assert_eq!(p.protocol, "UDP");
    let mut g = vec![0u8; 12];
    g.extend_from_slice(&[0x81, 0x00]);
    g.extend_from_slice(&[0u8; 16]);
    assert_eq!(parse_link_frame(&g, 0, 0, LinkKind::Ethernet).protocol, "vlan-unknown");
}

#[test]
fn incomplete_and_unknown_ip() {
    assert_eq!(parse_link_frame(&[0x45, 0, 0], 0, 0, LinkKind::Raw).protocol, "ipv4-incomplete");
    assert_eq!(parse_link_frame(&[0x50, 0, 0], 0, 0, LinkKind::Raw).protocol, "ip-unknown");
    assert_eq!(parse_link_frame(&[], 0, 0, LinkKind::Raw).protocol, "ip-unknown");
    let mut other = ipv4_udp(b"");
    other[9] = 1;
    assert_eq!(parse_link_frame(&other, 0, 0, LinkKind::Raw).protocol, "ipv4-other");
}

#[test]
fn readable_lines() {
    assert_eq!(line_preview("  a \t\x00 b  c ", 60), "a b c");
    assert_eq!(line_preview("abcdef", 3), "abc");
    assert_eq!(line_preview("", 10), "");
}
