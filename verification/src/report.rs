//! What the analysis commands show of a decoded capture: which packets are
//! listed, the rows of the packet table, the rows of the protocol and flag
//! tables, and the names of the exported stream files.

use vstd::prelude::*;
use crate::parser::{packet_views, ParsedPacket, PacketView};
use crate::stats::{ProtocolStats, TcpStream};
use crate::table::strs;
use crate::text::{chars_of, dec, dec_string, owned, push_dec, push_str_chars, starts_with, str_starts_with, string_from};

verus! {

/// A packet passes the listing filters: TCP only, UDP only (by the start of
/// its protocol label), HTTP only.
pub open spec fn packet_listed(p: PacketView, tcp_only: bool, udp_only: bool, http_only: bool) -> bool {
    &&& tcp_only ==> starts_with(p.protocol, "TCP"@)
    &&& udp_only ==> starts_with(p.protocol, "UDP"@)
    &&& http_only ==> p.http is Some
}

/// The positions of the listed packets, in order, at most `limit` of them.
pub open spec fn listed_packets(
    ps: Seq<PacketView>,
    tcp_only: bool,
    udp_only: bool,
    http_only: bool,
    limit: nat,
) -> Seq<usize>
    decreases ps.len(),
{
    if ps.len() == 0 {
        Seq::empty()
    } else {
        let acc = listed_packets(ps.drop_last(), tcp_only, udp_only, http_only, limit);
        if packet_listed(ps.last(), tcp_only, udp_only, http_only) && acc.len() < limit {
            acc.push((ps.len() - 1) as usize)
        } else {
            acc
        }
    }
}

/// The limit on listed packets: the given one, or no limit.
pub open spec fn limit_of(limit: Option<usize>) -> nat {
    match limit {
        Some(n) => n as nat,
        None => usize::MAX as nat,
    }
}

/// The positions of the packets to list.
pub fn filter_packets(
    packets: &[ParsedPacket],
    tcp_only: bool,
    udp_only: bool,
    http_only: bool,
    limit: Option<usize>,
) -> (r: Vec<usize>)
    ensures
        r@ == listed_packets(packet_views(packets@), tcp_only, udp_only, http_only, limit_of(limit)),
{
    let ghost ps = packet_views(packets@);
    let max: usize = match limit {
        Some(n) => n,
        None => usize::MAX,
    };
    let mut r: Vec<usize> = Vec::new();
    let mut i: usize = 0;
    assert(ps.take(0) =~= Seq::<PacketView>::empty());
    while i < packets.len()
        invariant
            ps == packet_views(packets@),
            max == limit_of(limit),
            i <= packets@.len(),
            r@.len() <= i,
            r@ == listed_packets(ps.take(i as int), tcp_only, udp_only, http_only, limit_of(limit)),
        decreases packets@.len() - i,
    {
        let p = &packets[i];
        let listed = (!tcp_only || str_starts_with(p.protocol.as_str(), "TCP")) && (!udp_only
            || str_starts_with(p.protocol.as_str(), "UDP")) && (!http_only || p.http.is_some());
        proof {
            assert(ps.take(i + 1).drop_last() =~= ps.take(i as int));
            assert(ps.take(i + 1).last() == p@);
        }
        if listed && r.len() < max {
            r.push(i);
        }
        i = i + 1;
    }
    assert(ps.take(packets@.len() as int) =~= ps);
    r
}

/// The text of an optional field, `-` when it is missing.
pub open spec fn dash_or(o: Option<Seq<char>>) -> Seq<char> {
    match o {
        Some(s) => s,
        None => "-"@,
    }
}

/// The decimal text of an optional port, `-` when it is missing.
pub open spec fn port_or_dash(o: Option<u16>) -> Seq<char> {
    match o {
        Some(p) => dec(p as nat),
        None => "-"@,
    }
}

/// The row of the packet table for a packet, given the text of its time:
/// number, time, addresses, ports, protocol (with TCP flags in brackets),
/// payload size and `method path` of its HTTP (or `-`).
pub open spec fn packet_row_view(p: PacketView, time: Seq<char>) -> Seq<Seq<char>> {
    seq![
        dec(p.seq as nat),
        time,
        dash_or(p.src_ip),
        dash_or(p.dst_ip),
        port_or_dash(p.src_port),
        port_or_dash(p.dst_port),
        match p.tcp_flags {
            Some(f) => p.protocol + " ["@ + f + "]"@,
            None => p.protocol,
        },
        dec(p.payload_size as nat),
        match p.http {
            Some(h) => h.method + " "@ + h.path,
            None => "-"@,
        },
    ]
}

fn dash_or_string(o: &Option<String>) -> (s: String)
    ensures
        s@ == dash_or(crate::parser::opt_chars(*o)),
{
    match o {
        Some(v) => v.clone(),
        None => owned("-"),
    }
}

fn port_string(o: Option<u16>) -> (s: String)
    ensures
        s@ == port_or_dash(o),
{
    match o {
        Some(p) => dec_string(p as u64),
        None => owned("-"),
    }
}

/// Builds the row of the packet table for a packet.
pub fn packet_row(p: &ParsedPacket, time: &str) -> (row: Vec<String>)
    ensures
        strs(row@) == packet_row_view(p@, time@),
{
    let proto = match &p.tcp_flags {
        Some(f) => {
            let mut v = chars_of(p.protocol.as_str());
            push_str_chars(&mut v, " [");
            push_str_chars(&mut v, f.as_str());
            push_str_chars(&mut v, "]");
            string_from(&v)
        },
        None => p.protocol.clone(),
    };
    let http = match &p.http {
        Some(h) => {
            let mut v = chars_of(h.method.as_str());
            push_str_chars(&mut v, " ");
            push_str_chars(&mut v, h.path.as_str());
            string_from(&v)
        },
        None => owned("-"),
    };
    let mut row: Vec<String> = Vec::new();
    row.push(dec_string(p.seq));
    row.push(owned(time));
    row.push(dash_or_string(&p.src_ip));
    row.push(dash_or_string(&p.dst_ip));
    row.push(port_string(p.src_port));
    row.push(port_string(p.dst_port));
    row.push(proto);
    row.push(dec_string(p.payload_size as u64));
    row.push(http);
    assert(strs(row@) =~= packet_row_view(p@, time@));
    row
}

/// The positions of the packets with HTTP, in order.
pub open spec fn http_positions(ps: Seq<PacketView>) -> Seq<usize>
    decreases ps.len(),
{
    if ps.len() == 0 {
        Seq::empty()
    } else if ps.last().http is Some {
        http_positions(ps.drop_last()).push((ps.len() - 1) as usize)
    } else {
        http_positions(ps.drop_last())
    }
}

/// The positions of the packets with HTTP (the HTTP export).
pub fn http_packets(packets: &[ParsedPacket]) -> (r: Vec<usize>)
    ensures
        r@ == http_positions(packet_views(packets@)),
{
    let ghost ps = packet_views(packets@);
    let mut r: Vec<usize> = Vec::new();
    let mut i: usize = 0;
    assert(ps.take(0) =~= Seq::<PacketView>::empty());
    while i < packets.len()
        invariant
            ps == packet_views(packets@),
            i <= packets@.len(),
            r@ == http_positions(ps.take(i as int)),
        decreases packets@.len() - i,
    {
        proof {
            assert(ps.take(i + 1).drop_last() =~= ps.take(i as int));
            assert(ps.take(i + 1).last() == packets@[i as int]@);
        }
        if packets[i].http.is_some() {
            r.push(i);
        }
        i = i + 1;
    }
    assert(ps.take(packets@.len() as int) =~= ps);
    r
}

/// The decimal text of a count.
pub open spec fn count_text(n: u64) -> Seq<char> {
    dec(n as nat)
}

/// The rows of the protocol table, given the texts of the TCP and UDP
/// percentages: TCP, UDP, ARP, ICMP, HTTP requests and responses and
/// handshakes, each with its count and share (`-` where there is none).
pub open spec fn protocol_rows_view(s: ProtocolStats, tcp_pct: Seq<char>, udp_pct: Seq<char>) -> Seq<
    Seq<Seq<char>>,
> {
    seq![
        seq!["TCP"@, count_text(s.tcp_packets), tcp_pct],
        seq!["UDP"@, count_text(s.udp_packets), udp_pct],
        seq!["ARP"@, count_text(s.arp_packets), "-"@],
        seq!["ICMP"@, count_text(s.icmp_packets), "-"@],
        seq!["HTTP 请求"@, count_text(s.http_requests), "-"@],
        seq!["HTTP 响应"@, count_text(s.http_responses), "-"@],
        seq!["三次握手"@, count_text(s.tcp_handshakes), "-"@],
    ]
}

fn row3(a: &str, n: u64, c: &str) -> (r: Vec<String>)
    ensures
        strs(r@) == seq![a@, count_text(n), c@],
{
    let mut r: Vec<String> = Vec::new();
    r.push(owned(a));
    r.push(dec_string(n));
    r.push(owned(c));
    assert(strs(r@) =~= seq![a@, count_text(n), c@]);
    r
}

fn row2(a: &str, n: u64) -> (r: Vec<String>)
    ensures
        strs(r@) == seq![a@, dec(n as nat)],
{
    let mut r: Vec<String> = Vec::new();
    r.push(owned(a));
    r.push(dec_string(n));
    assert(strs(r@) =~= seq![a@, dec(n as nat)]);
    r
}

/// Builds the rows of the protocol table.
pub fn protocol_rows(s: &ProtocolStats, tcp_pct: &str, udp_pct: &str) -> (rows: Vec<Vec<String>>)
    ensures
        rows@.map_values(|r: Vec<String>| strs(r@)) == protocol_rows_view(*s, tcp_pct@, udp_pct@),
{
    let mut rows: Vec<Vec<String>> = Vec::new();
    rows.push(row3("TCP", s.tcp_packets, tcp_pct));
    rows.push(row3("UDP", s.udp_packets, udp_pct));
    rows.push(row3("ARP", s.arp_packets, "-"));
    rows.push(row3("ICMP", s.icmp_packets, "-"));
    rows.push(row3("HTTP 请求", s.http_requests, "-"));
    rows.push(row3("HTTP 响应", s.http_responses, "-"));
    rows.push(row3("三次握手", s.tcp_handshakes, "-"));
    assert(rows@.map_values(|r: Vec<String>| strs(r@)) =~= protocol_rows_view(
        *s,
        tcp_pct@,
        udp_pct@,
    ));
    rows
}

/// The rows of the TCP flag table: SYN, SYN+ACK, ACK, PSH, FIN, RST with
/// their counts.
pub open spec fn flag_rows_view(s: ProtocolStats) -> Seq<Seq<Seq<char>>> {
    seq![
        seq!["SYN"@, dec(s.tcp_syn as nat)],
        seq!["SYN+ACK"@, dec(s.tcp_synack as nat)],
        seq!["ACK"@, dec(s.tcp_ack as nat)],
        seq!["PSH"@, dec(s.tcp_psh as nat)],
        seq!["FIN"@, dec(s.tcp_fin as nat)],
        seq!["RST"@, dec(s.tcp_rst as nat)],
    ]
}

/// Builds the rows of the TCP flag table.
pub fn flag_rows(s: &ProtocolStats) -> (rows: Vec<Vec<String>>)
    ensures
        rows@.map_values(|r: Vec<String>| strs(r@)) == flag_rows_view(*s),
{
    let mut rows: Vec<Vec<String>> = Vec::new();
    rows.push(row2("SYN", s.tcp_syn));
    rows.push(row2("SYN+ACK", s.tcp_synack));
    rows.push(row2("ACK", s.tcp_ack));
    rows.push(row2("PSH", s.tcp_psh));
    rows.push(row2("FIN", s.tcp_fin));
    rows.push(row2("RST", s.tcp_rst));
    assert(rows@.map_values(|r: Vec<String>| strs(r@)) =~= flag_rows_view(*s));
    rows
}

/// The address with every `.` replaced by `_`.
pub open spec fn underscored(s: Seq<char>) -> Seq<char> {
    s.map_values(|c: char| if c == '.' {
        '_'
    } else {
        c
    })
}

/// The path a stream is exported to:
/// `<dir>/stream_<i>_<client ip with _ for .>_<client port>.txt`.
pub open spec fn stream_file_view(dir: Seq<char>, i: nat, client_ip: Seq<char>, client_port: u16) -> Seq<char> {
    dir + "/stream_"@ + dec(i) + "_"@ + underscored(client_ip) + "_"@ + dec(client_port as nat)
        + ".txt"@
}

/// Builds the path the `i`-th stream is exported to.
pub fn stream_file_name(dir: &str, i: usize, stream: &TcpStream) -> (s: String)
    ensures
        s@ == stream_file_view(dir@, i as nat, stream.client_ip@, stream.client_port),
{
    let mut out = chars_of(dir);
    push_str_chars(&mut out, "/stream_");
    push_dec(&mut out, i as u64);
    push_str_chars(&mut out, "_");
    let ip = chars_of(stream.client_ip.as_str());
    let ghost start = out@;
    let mut k: usize = 0;
    while k < ip.len()
        invariant
            k <= ip@.len(),
            out@ == start + underscored(ip@.take(k as int)),
        decreases ip@.len() - k,
    {
        let c = ip[k];
        out.push(if c == '.' {
            '_'
        } else {
            c
        });
        assert(underscored(ip@.take(k + 1)) =~= underscored(ip@.take(k as int)).push(
            if c == '.' {
                '_'
            } else {
                c
            },
        ));
        k = k + 1;
    }
    assert(ip@.take(ip@.len() as int) =~= ip@);
    push_str_chars(&mut out, "_");
    push_dec(&mut out, stream.client_port as u64);
    push_str_chars(&mut out, ".txt");
    string_from(&out)
}

/// How many timelines are shown: the limit when there is one, at most all.
pub fn timelines_shown(total: usize, limit: Option<usize>) -> (n: usize)
    ensures
        n == (match limit {
            Some(l) => if l < total {
                l
            } else {
                total
            },
            None => total,
        }),
{
    match limit {
        Some(l) => if l < total {
            l
        } else {
            total
        },
        None => total,
    }
}

} // verus!
