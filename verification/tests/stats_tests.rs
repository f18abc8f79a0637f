use port_scan_rs::parser::{parse_link_frame, LinkKind, ParsedPacket};
use port_scan_rs::stats::{
    compute_stats, export_stream_to_text, extract_handshake_timelines, extract_tcp_streams, flow_key,
    try_extract_tcp_streams, u32_to_ip, FlowKey, ProtocolStats,
};

fn frame(src: [u8; 4], sport: u16, dst: [u8; 4], dport: u16, flags: u8, payload: &[u8]) -> Vec<u8> {
    let mut f = vec![0u8; 12];
    f.extend_from_slice(&[0x08, 0x00]);
    let total = (40 + payload.len()) as u16;
    f.extend_from_slice(&[0x45, 0x00]);
    f.extend_from_slice(&total.to_be_bytes());
    f.extend_from_slice(&[0, 0, 0x40, 0, 64, 6, 0, 0]);
    f.extend_from_slice(&src);
    f.extend_from_slice(&dst);
    f.extend_from_slice(&sport.to_be_bytes());
    f.extend_from_slice(&dport.to_be_bytes());
    f.extend_from_slice(&[0, 0, 0, 1, 0, 0, 0, 0, 0x50, flags, 0xFF, 0xFF, 0, 0, 0, 0]);
    f.extend_from_slice(payload);
    f
}

fn handshake() -> Vec<ParsedPacket> {
    let c = [10, 0, 0, 1];
    let s = [10, 0, 0, 2];
    vec![
        parse_link_frame(&frame(c, 40000, s, 80, 0x02, b""), 0, 1_500_000_000, LinkKind::Ethernet),
        parse_link_frame(&frame(s, 80, c, 40000, 0x12, b""), 1, 1_600_000_000, LinkKind::Ethernet),
        parse_link_frame(&frame(c, 40000, s, 80, 0x10, b""), 2, 1_700_000_000, LinkKind::Ethernet),
        parse_link_frame(
            &frame(c, 40000, s, 80, 0x18, b"GET / HTTP/1.1\r\n\r\n"),
            3,
            2_000_000_000,
            LinkKind::Ethernet,
        ),
    ]
}

#[test]
fn address_numbers_to_text() {
    assert_eq!(u32_to_ip(0), "0.0.0.0");
    assert_eq!(u32_to_ip(0x7F000001), "127.0.0.1");
    assert_eq!(u32_to_ip(0xC0A80102), "192.168.1.2");
}

#[test]
fn flow_key_is_the_same_both_ways() {
    let a = flow_key(1, 80, 2, 40000);
    let b = flow_key(2, 40000, 1, 80);
    assert!(a == b);
    assert!(a == FlowKey(1, 80, 2, 40000, 6));
    let c = flow_key(9, 443, 3, 443);
    assert!(c == FlowKey(3, 443, 9, 443, 6));
}

#[test]
fn stats_of_a_handshake() {
    let ps = handshake();
    let s = compute_stats(&ps);
    assert_eq!(s.total_packets, 4);
    assert_eq!(s.total_bytes, 18);
    assert_eq!(s.tcp_packets, 4);
    assert_eq!(s.udp_packets, 0);
    assert_eq!(s.tcp_syn, 1);
    assert_eq!(s.tcp_synack, 1);
    assert_eq!(s.tcp_ack, 3);
    assert_eq!(s.tcp_psh, 1);
    assert_eq!(s.tcp_fin, 0);
    assert_eq!(s.http_requests, 1);
    assert_eq!(s.http_responses, 0);
    assert_eq!(s.tcp_handshakes, 1);
    assert_eq!(s.flow_count, 2);
    assert_eq!(
        s.tcp_packets + s.udp_packets + s.arp_packets + s.icmp_packets + s.other_packets,
        s.total_packets
    );
    assert!(s.tcp_syn + s.tcp_synack <= s.tcp_packets);
    assert!(s.http_requests + s.http_responses <= s.total_packets);
}

#[test]
fn stats_of_nothing_are_zero() {
    let s = compute_stats(&[]);
    assert_eq!(s.total_packets, 0);
    assert_eq!(s.flow_count, 0);
    let d = ProtocolStats::default();
    assert_eq!(d.tcp_handshakes, 0);
}

#[test]
fn streams_are_reassembled() {
    let ps = handshake();
    let streams = extract_tcp_streams(&ps);
    assert_eq!(streams.len(), 1);
    let st = &streams[0];
    assert_eq!(st.client_ip, "10.0.0.2");
    assert_eq!(st.client_port, 80);
    assert_eq!(st.server_ip, "10.0.0.1");
    assert_eq!(st.server_port, 40000);
    assert_eq!(st.start_time_ns, 1_500_000_000);
    assert_eq!(st.end_time_ns, 2_000_000_000);
    assert!(st.handshake_ok);
    assert!(st.has_http);
    assert_eq!(st.client_bytes, 0);
    assert_eq!(st.server_bytes, 18);
    assert_eq!(st.server_data, b"GET / HTTP/1.1\r\n\r\n".to_vec());
    assert!(try_extract_tcp_streams(&ps).is_some());
    let text = export_stream_to_text(st);
    assert_eq!(
        text,
        "=== TCP Stream 10.0.0.2:80 <-> 10.0.0.1:40000 ===\nStart: 1500ms  End: 2000ms\nClient -> Server: 0 bytes\nServer -> Client: 18 bytes\n\n----- Client Data -----\n\n\n----- Server Data -----\nGET / HTTP/1.1\r\n\r\n\n"
    );
}

#[test]
fn handshake_timeline_is_complete() {
    let ps = handshake();
    let tl = extract_handshake_timelines(&ps);
    assert_eq!(tl.len(), 1);
    assert_eq!(tl[0].stream_id, "10.0.0.2:80 <-> 10.0.0.1:40000");
    assert!(tl[0].complete);
    let ev = &tl[0].events;
    assert_eq!(ev.len(), 3);
    assert_eq!(ev[0].description, "SYN");
    assert_eq!(ev[0].direction, "C->S");
    assert_eq!(ev[1].description, "SYN+ACK");
    assert_eq!(ev[1].direction, "S->C");
    assert_eq!(ev[1].flags, "SYN,ACK");
    assert_eq!(ev[2].description, "ACK (3rd)");
    assert_eq!(ev[2].seq, 2);
    assert_eq!(ev[2].timestamp_ns, 1_700_000_000);
}

#[test]
fn timeline_without_third_ack_is_incomplete() {
    let ps = handshake();
    let tl = extract_handshake_timelines(&ps[..2]);
    assert_eq!(tl.len(), 1);
    assert!(!tl[0].complete);
}

fn same_stats(a: &ProtocolStats, b: &ProtocolStats) -> bool {
    a.total_packets == b.total_packets
        && a.total_bytes == b.total_bytes
        && a.tcp_packets == b.tcp_packets
        && a.udp_packets == b.udp_packets
        && a.arp_packets == b.arp_packets
        && a.icmp_packets == b.icmp_packets
        && a.other_packets == b.other_packets
        && a.http_requests == b.http_requests
        && a.http_responses == b.http_responses
        && a.tcp_syn == b.tcp_syn
        && a.tcp_ack == b.tcp_ack
        && a.tcp_fin == b.tcp_fin
        && a.tcp_rst == b.tcp_rst
        && a.tcp_psh == b.tcp_psh
        && a.tcp_synack == b.tcp_synack
        && a.tcp_handshakes == b.tcp_handshakes
        && a.flow_count == b.flow_count
}

fn with_udp() -> Vec<ParsedPacket> {
    let mut ps = handshake();
    let mut u = ps[0].clone();
    u.protocol = "UDP".to_string();
    u.tcp_flags = None;
    u.seq = 9;
    ps.insert(1, u);
    ps
}

#[test]
fn stats_totals_hold() {
    let ps = with_udp();
    let s = compute_stats(&ps);
    assert_eq!(s.tcp_packets + s.udp_packets + s.arp_packets + s.icmp_packets + s.other_packets, s.total_packets);
    let with_http = ps.iter().filter(|p| p.http.is_some()).count() as u64;
    assert_eq!(s.http_requests + s.http_responses, with_http);
    assert!(s.tcp_handshakes <= s.tcp_syn && s.tcp_handshakes <= s.tcp_synack);
    assert_eq!(s.udp_packets, 1);
}

#[test]
fn stats_do_not_depend_on_order() {
    let ps = with_udp();
    let mut rev = ps.clone();
    rev.reverse();
    let mut rot = ps.clone();
    rot.rotate_left(2);
    let a = compute_stats(&ps);
    assert!(same_stats(&a, &compute_stats(&rev)));
    assert!(same_stats(&a, &compute_stats(&rot)));
}

#[test]
fn reply_joins_the_same_stream() {
    let ps = handshake();
    let two = vec![ps[0].clone(), ps[1].clone()];
    assert_eq!(extract_tcp_streams(&two).len(), 1);
    let swapped = vec![ps[1].clone(), ps[0].clone()];
    assert_eq!(extract_tcp_streams(&swapped).len(), 1);
}

#[test]
fn stream_fields_are_consistent() {
    let mut ps = handshake();
    let mut other = ps[3].clone();
    other.src_ip = Some("10.0.0.9".to_string());
    other.seq = 7;
    ps.push(other);
    let streams = extract_tcp_streams(&ps);
    assert_eq!(streams.len(), 2);
    for st in &streams {
        assert!(st.client_port <= st.server_port);
        assert_eq!(st.client_bytes as usize, st.client_data.len());
        assert_eq!(st.server_bytes as usize, st.server_data.len());
    }
    assert!(streams[0].client_ip != streams[1].client_ip || streams[0].server_ip != streams[1].server_ip);
}

#[test]
fn non_tcp_packets_do_not_change_streams() {
    let a = extract_tcp_streams(&handshake());
    let b = extract_tcp_streams(&with_udp());
    assert_eq!(a.len(), b.len());
    assert_eq!(a[0].client_data, b[0].client_data);
    assert_eq!(a[0].server_data, b[0].server_data);
    assert_eq!(a[0].start_time_ns, b[0].start_time_ns);
}

#[test]
fn timelines_hold_each_handshake_packet_once() {
    let ps = with_udp();
    let tl = extract_handshake_timelines(&ps);
    let events: usize = tl.iter().map(|t| t.events.len()).sum();
    assert_eq!(events, 3);
    assert!(tl.iter().all(|t| !t.events.is_empty()));
    for t in &tl {
        assert_eq!(t.complete, t.events.iter().any(|e| e.description == "ACK (3rd)"));
    }
}

#[test]
fn address_text_reads_back() {
    for v in [0u32, 1, 255, 256, 0x7F000001, 0xC0A80102, 0x0A000001, u32::MAX] {
        let t = u32_to_ip(v);
        let parts: Vec<u32> = t.split('.').map(|x| x.parse::<u8>().unwrap() as u32).collect();
        assert_eq!(parts.len(), 4);
        assert_eq!((parts[0] << 24) | (parts[1] << 16) | (parts[2] << 8) | parts[3], v);
    }
}
