//! Protocol statistics, TCP stream reassembly and TCP handshake timelines
//! over decoded packets.

use vstd::prelude::*;
use std::collections::HashSet;
use crate::parser::{packet_views, opt_chars, PacketView, ParsedPacket};
use crate::text::{
    chars_of, contains_sub, dec, join, join_chars, push_dec, push_str_chars, split_chars, split_on, str_contains,
    str_eq, string_from, views,
};

verus! {

// ---------------------------------------------------------------------------
// IPv4 addresses as numbers
// ---------------------------------------------------------------------------

/// One dotted-quad group as `std::net::Ipv4Addr` parses it: one to three
/// ASCII digits, no leading zero unless the group is `0`, at most 255.
pub open spec fn octet_of(s: Seq<char>) -> Option<nat> {
    if s.len() == 0 || s.len() > 3 || (s.len() > 1 && s[0] == '0') {
        None
    } else if forall|i: int| 0 <= i < s.len() ==> '0' <= #[trigger] s[i] && s[i] <= '9' {
        let v = crate::text::digits_value(s, 10);
        match v {
            Some(n) => if n <= 255 {
                Some(n)
            } else {
                None
            },
            None => None,
        }
    } else {
        None
    }
}

/// The number of a dotted-quad IPv4 address (first group most significant),
/// if the text is one.
pub open spec fn ipv4_value(s: Seq<char>) -> Option<u32> {
    let parts = split_on(s, '.');
    if parts.len() != 4 {
        None
    } else {
        match (octet_of(parts[0]), octet_of(parts[1]), octet_of(parts[2]), octet_of(parts[3])) {
            (Some(a), Some(b), Some(c), Some(d)) => Some(
                (a * 16777216 + b * 65536 + c * 256 + d) as u32,
            ),
            _ => None,
        }
    }
}

/// `ip_to_u32`: the address number, or 0 for text that is no IPv4 address
/// (IPv6 addresses among them).
pub open spec fn ip_num(s: Seq<char>) -> u32 {
    match ipv4_value(s) {
        Some(v) => v,
        None => 0,
    }
}

fn octet_exec(s: &[char]) -> (r: Option<u32>)
    ensures
        r == (match octet_of(s@) {
            Some(n) => Some(n as u32),
            None => None,
        }),
{
    if s.len() == 0 || s.len() > 3 || (s.len() > 1 && s[0] == '0') {
        return None;
    }
    let mut i: usize = 0;
    let mut acc: u32 = 0;
    while i < s.len()
        invariant
            1 <= s@.len() <= 3,
            i <= s@.len(),
            forall|k: int| 0 <= k < i ==> '0' <= #[trigger] s@[k] && s@[k] <= '9',
            crate::text::digits_value(s@.take(i as int), 10) == Some(acc as nat),
            acc < 1000,
            i == 0 ==> acc == 0,
            i == 1 ==> acc < 10,
            i == 2 ==> acc < 100,
        decreases s@.len() - i,
    {
        let c = s[i];
        if !('0' <= c && c <= '9') {
            return None;
        }
        proof {
            assert(s@.take(i + 1).drop_last() =~= s@.take(i as int));
        }
        acc = acc * 10 + (c as u32 - 48);
        i = i + 1;
    }
    assert(s@.take(s@.len() as int) =~= s@);
    if acc <= 255 {
        Some(acc)
    } else {
        None
    }
}

/// Parses a dotted-quad IPv4 address; 0 when the text is not one.
fn ip_to_u32(s: &str) -> (r: u32)
    ensures
        r == ip_num(s@),
{
    let cs = chars_of(s);
    let parts = split_chars(&cs, '.');
    if parts.len() != 4 {
        return 0;
    }
    let a = octet_exec(&parts[0]);
    let b = octet_exec(&parts[1]);
    let c = octet_exec(&parts[2]);
    let d = octet_exec(&parts[3]);
    match (a, b, c, d) {
        (Some(a), Some(b), Some(c), Some(d)) => a * 16777216 + b * 65536 + c * 256 + d,
        _ => 0,
    }
}

/// Dotted-quad text of an address number, most significant byte first.
pub open spec fn u32_ip_text(v: u32) -> Seq<char> {
    join(
        seq![
            dec((v / 16777216) as nat % 256),
            dec((v / 65536) as nat % 256),
            dec((v / 256) as nat % 256),
            dec(v as nat % 256),
        ],
        "."@,
    )
}

/// Dotted-quad text of an address number.
pub fn u32_to_ip(v: u32) -> (s: String)
    ensures
        s@ == u32_ip_text(v),
{
    let mut parts: Vec<Vec<char>> = Vec::new();
    let mut a: Vec<char> = Vec::new();
    push_dec(&mut a, ((v / 16777216) % 256) as u64);
    let mut b: Vec<char> = Vec::new();
    push_dec(&mut b, ((v / 65536) % 256) as u64);
    let mut c: Vec<char> = Vec::new();
    push_dec(&mut c, ((v / 256) % 256) as u64);
    let mut d: Vec<char> = Vec::new();
    push_dec(&mut d, (v % 256) as u64);
    parts.push(a);
    parts.push(b);
    parts.push(c);
    parts.push(d);
    let sep = chars_of(".");
    let joined = join_chars(&parts, &sep);
    proof {
        let e = Seq::<char>::empty();
        assert(views(parts@) =~= seq![
            dec((v / 16777216) as nat % 256),
            dec((v / 65536) as nat % 256),
            dec((v / 256) as nat % 256),
            dec(v as nat % 256),
        ]);
    }
    string_from(&joined)
}

proof fn lemma_digit_char(d: int)
    requires
        0 <= d < 10,
    ensures
        crate::text::digit_value(crate::text::digit_char(d), 10) == Some(d as nat),
        '0' <= crate::text::digit_char(d) <= '9',
{
    let c = crate::text::digit_char(d);
    assert(c as u32 == 48 + d);
}

proof fn lemma_dec_digits(n: nat)
    ensures
        dec(n).len() >= 1,
        forall|i: int| 0 <= i < dec(n).len() ==> '0' <= #[trigger] dec(n)[i] && dec(n)[i] <= '9',
        crate::text::digits_value(dec(n), 10) == Some(n),
        n > 0 ==> dec(n)[0] != '0',
        n < 10 ==> dec(n).len() == 1,
        n < 100 ==> dec(n).len() <= 2,
        n < 1000 ==> dec(n).len() <= 3,
    decreases n,
{
    if n < 10 {
        lemma_digit_char(n as int);
        assert(dec(n).drop_last() =~= Seq::<char>::empty());
        assert(crate::text::digits_value(dec(n).drop_last(), 10) == Some(0nat));
        assert(dec(n).last() == crate::text::digit_char(n as int));
        assert(crate::text::digits_value(dec(n), 10) == Some(0nat * 10 + n));
    } else {
        lemma_dec_digits(n / 10);
        lemma_digit_char((n % 10) as int);
        let d = dec(n / 10);
        let c = crate::text::digit_char((n % 10) as int);
        assert(dec(n) == d.push(c));
        assert(dec(n).drop_last() =~= d);
        assert(dec(n)[0] == d[0]);
        assert((n / 10) * 10 + n % 10 == n);
        assert(dec(n).last() == c);
        assert(crate::text::digits_value(dec(n), 10) == Some((n / 10) * 10 + n % 10));
    }
}

proof fn lemma_split_plain_suffix(x: Seq<char>, y: Seq<char>, sep: char)
    requires
        !y.contains(sep),
    ensures
        split_on(x + y, sep) == split_on(x, sep).update(
            split_on(x, sep).len() - 1,
            split_on(x, sep).last() + y,
        ),
    decreases y.len(),
{
    crate::text::lemma_split_nonempty(x, sep);
    let r = split_on(x, sep);
    if y.len() == 0 {
        assert(x + y =~= x);
        assert(r.last() + y =~= r.last());
        assert(r.update(r.len() - 1, r.last()) =~= r);
    } else {
        let y0 = y.drop_last();
        assert(!y0.contains(sep)) by {
            if y0.contains(sep) {
                let i = choose|i: int| 0 <= i < y0.len() && y0[i] == sep;
                assert(y[i] == sep);
            }
        }
        assert(y.last() != sep) by {
            assert(y[y.len() - 1] == y.last());
        }
        lemma_split_plain_suffix(x, y0, sep);
        assert((x + y).drop_last() =~= x + y0);
        assert((x + y).last() == y.last());
        assert(r.last() + y0 + seq![y.last()] =~= r.last() + y);
        let r0 = r.update(r.len() - 1, r.last() + y0);
        assert(r0.len() == r.len());
        assert(r0.last() == r.last() + y0);
        assert((r.last() + y0).push(y.last()) =~= r.last() + y);
        assert(split_on(x + y, sep) == r0.update(r0.len() - 1, r0.last().push(y.last())));
        assert(split_on(x + y, sep) =~= r.update(r.len() - 1, r.last() + y));
    }
}

proof fn lemma_split_after_sep(x: Seq<char>, y: Seq<char>, sep: char)
    requires
        !y.contains(sep),
    ensures
        split_on(x + seq![sep] + y, sep) == split_on(x, sep).push(y),
{
    let xs = x + seq![sep];
    assert(xs.drop_last() =~= x);
    assert(xs.last() == sep);
    assert(split_on(xs, sep) == split_on(x, sep).push(Seq::<char>::empty()));
    lemma_split_plain_suffix(xs, y, sep);
    let r = split_on(x, sep);
    assert(Seq::<char>::empty() + y =~= y);
    assert(r.push(Seq::<char>::empty()).update(r.len() as int, y) =~= r.push(y));
}

proof fn lemma_dec_no_dot(n: nat)
    ensures
        !dec(n).contains('.'),
{
    lemma_dec_digits(n);
    if dec(n).contains('.') {
        let i = choose|i: int| 0 <= i < dec(n).len() && dec(n)[i] == '.';
        assert('0' <= dec(n)[i]);
    }
}

proof fn lemma_octet_dec(n: nat)
    requires
        n < 256,
    ensures
        octet_of(dec(n)) == Some(n),
{
    lemma_dec_digits(n);
}

/// Reading back the dotted-quad text of an address number gives the
/// number: the text is always a valid IPv4 address, so the conversion
/// between numbers and dotted quads loses nothing.
pub proof fn lemma_ip_text_round_trip(v: u32)
    ensures
        ipv4_value(u32_ip_text(v)) == Some(v),
        ip_num(u32_ip_text(v)) == v,
{
    reveal_strlit(".");
    let a = (v / 16777216) as nat % 256;
    let b = (v / 65536) as nat % 256;
    let c = (v / 256) as nat % 256;
    let d = v as nat % 256;
    let da = dec(a);
    let db = dec(b);
    let dc = dec(c);
    let dd = dec(d);
    let sep = "."@;
    assert(sep =~= seq!['.']);
    let parts = seq![da, db, dc, dd];
    assert(parts.drop_last() =~= seq![da, db, dc]);
    assert(seq![da, db, dc].drop_last() =~= seq![da, db]);
    assert(seq![da, db].drop_last() =~= seq![da]);
    let t = u32_ip_text(v);
    assert(join(seq![da], sep) == da);
    assert(join(seq![da, db], sep) == da + sep + db);
    assert(join(seq![da, db, dc], sep) == da + sep + db + sep + dc);
    assert(t == da + sep + db + sep + dc + sep + dd);
    lemma_dec_no_dot(a);
    lemma_dec_no_dot(b);
    lemma_dec_no_dot(c);
    lemma_dec_no_dot(d);
    lemma_split_plain_suffix(Seq::<char>::empty(), da, '.');
    assert(Seq::<char>::empty() + da =~= da);
    assert(split_on(Seq::<char>::empty(), '.') =~= seq![Seq::<char>::empty()]);
    assert(split_on(da, '.') =~= seq![da]);
    lemma_split_after_sep(da, db, '.');
    assert(split_on(da + sep + db, '.') =~= seq![da, db]);
    lemma_split_after_sep(da + sep + db, dc, '.');
    assert(split_on(da + sep + db + sep + dc, '.') =~= seq![da, db, dc]);
    lemma_split_after_sep(da + sep + db + sep + dc, dd, '.');
    assert(split_on(t, '.') =~= seq![da, db, dc, dd]);
    lemma_octet_dec(a);
    lemma_octet_dec(b);
    lemma_octet_dec(c);
    lemma_octet_dec(d);
    assert(v as int == ((v / 16777216) % 256) as int * 16777216 + ((v / 65536) % 256) as int * 65536
        + ((v / 256) % 256) as int * 256 + (v % 256) as int) by (bit_vector);
}

/// Different address numbers have different dotted-quad texts.
pub proof fn lemma_ip_text_injective(v: u32, w: u32)
    requires
        u32_ip_text(v) == u32_ip_text(w),
    ensures
        v == w,
{
    lemma_ip_text_round_trip(v);
    lemma_ip_text_round_trip(w);
}

// ---------------------------------------------------------------------------
// Flow keys
// ---------------------------------------------------------------------------

/// A 5-tuple: address, port, address, port, protocol number.
#[derive(PartialEq, Eq, Structural, Clone, Copy)]
pub struct FlowKey(pub u32, pub u16, pub u32, pub u16, pub u8);

/// The five fields packed into one number (an injective packing).
pub open spec fn tuple_code(a: u32, ap: u16, b: u32, bp: u16, proto: u8) -> u128 {
    ((((a as int * 65536 + ap as int) * 4294967296 + b as int) * 65536 + bp as int) * 256
        + proto as int) as u128
}

fn tuple_code_exec(a: u32, ap: u16, b: u32, bp: u16, proto: u8) -> (r: u128)
    ensures
        r == tuple_code(a, ap, b, bp, proto),
{
    ((((a as u128) * 65536 + ap as u128) * 4294967296 + b as u128) * 65536 + bp as u128) * 256
        + proto as u128
}

impl FlowKey {
    /// The packed number of this key.
    pub open spec fn spec_code(self) -> u128 {
        tuple_code(self.0, self.1, self.2, self.3, self.4)
    }

    /// The packed number of this key.
    pub fn code(&self) -> (r: u128)
        ensures
            r == self.spec_code(),
    {
        tuple_code_exec(self.0, self.1, self.2, self.3, self.4)
    }
}

/// `flow_key`: both directions of a TCP conversation give the same key; the
/// end with the smaller (port, address) pair comes first.
pub open spec fn flow_key_of(aip: u32, aport: u16, bip: u32, bport: u16) -> FlowKey {
    if aport < bport || (aport == bport && aip <= bip) {
        FlowKey(aip, aport, bip, bport, 6)
    } else {
        FlowKey(bip, bport, aip, aport, 6)
    }
}

/// Normalises both directions of a TCP conversation to one key.
pub fn flow_key(aip: u32, aport: u16, bip: u32, bport: u16) -> (k: FlowKey)
    ensures
        k == flow_key_of(aip, aport, bip, bport),
{
    if aport < bport || (aport == bport && aip <= bip) {
        FlowKey(aip, aport, bip, bport, 6)
    } else {
        FlowKey(bip, bport, aip, aport, 6)
    }
}

/// Both directions of a conversation get the same key.
pub proof fn lemma_flow_key_symmetric(aip: u32, aport: u16, bip: u32, bport: u16)
    ensures
        flow_key_of(aip, aport, bip, bport) == flow_key_of(bip, bport, aip, aport),
{
}

// ---------------------------------------------------------------------------
// Protocol statistics
// ---------------------------------------------------------------------------

/// Packet counts by protocol, TCP flag and HTTP kind, total payload bytes,
/// number of distinct flows and of completed TCP handshakes.
#[derive(Clone, Debug)]
pub struct ProtocolStats {
    pub total_packets: u64,
    pub total_bytes: u64,
    pub tcp_packets: u64,
    pub udp_packets: u64,
    pub arp_packets: u64,
    pub icmp_packets: u64,
    pub other_packets: u64,
    pub http_requests: u64,
    pub http_responses: u64,
    pub tcp_syn: u64,
    pub tcp_ack: u64,
    pub tcp_fin: u64,
    pub tcp_rst: u64,
    pub tcp_psh: u64,
    pub tcp_synack: u64,
    pub tcp_handshakes: u64,
    pub flow_count: u64,
}

/// All counters zero.
pub open spec fn zero_stats(s: ProtocolStats) -> bool {
    &&& s.total_packets == 0
    &&& s.total_bytes == 0
    &&& s.tcp_packets == 0
    &&& s.udp_packets == 0
    &&& s.arp_packets == 0
    &&& s.icmp_packets == 0
    &&& s.other_packets == 0
    &&& s.http_requests == 0
    &&& s.http_responses == 0
    &&& s.tcp_syn == 0
    &&& s.tcp_ack == 0
    &&& s.tcp_fin == 0
    &&& s.tcp_rst == 0
    &&& s.tcp_psh == 0
    &&& s.tcp_synack == 0
    &&& s.tcp_handshakes == 0
    &&& s.flow_count == 0
}

impl Default for ProtocolStats {
    fn default() -> (s: Self)
        ensures
            zero_stats(s),
    {
        ProtocolStats {
            total_packets: 0,
            total_bytes: 0,
            tcp_packets: 0,
            udp_packets: 0,
            arp_packets: 0,
            icmp_packets: 0,
            other_packets: 0,
            http_requests: 0,
            http_responses: 0,
            tcp_syn: 0,
            tcp_ack: 0,
            tcp_fin: 0,
            tcp_rst: 0,
            tcp_psh: 0,
            tcp_synack: 0,
            tcp_handshakes: 0,
            flow_count: 0,
        }
    }
}

/// The classes of packets that [`ProtocolStats`] counts.
pub enum Class {
    Tcp,
    Udp,
    Arp,
    Icmp,
    Other,
    HttpRequest,
    HttpResponse,
    Syn,
    SynAck,
    Ack,
    Fin,
    Rst,
    Psh,
}

/// The packet is labelled `TCP` and its flag text contains `name`.
pub open spec fn tcp_flag(p: PacketView, name: Seq<char>) -> bool {
    p.protocol == "TCP"@ && match p.tcp_flags {
        Some(f) => contains_sub(f, name),
        None => false,
    }
}

/// Whether a packet belongs to a class.
pub open spec fn in_class(p: PacketView, c: Class) -> bool {
    let tcp = p.protocol == "TCP"@;
    let udp = p.protocol == "UDP"@;
    let arp = p.protocol == "ARP"@;
    match c {
        Class::Tcp => tcp,
        Class::Udp => udp,
        Class::Arp => arp,
        Class::Icmp => !tcp && !udp && !arp && contains_sub(p.protocol, "ICMP"@),
        Class::Other => !tcp && !udp && !arp && !contains_sub(p.protocol, "ICMP"@),
        Class::HttpRequest => match p.http {
            Some(h) => h.method != "RESPONSE"@,
            None => false,
        },
        Class::HttpResponse => match p.http {
            Some(h) => h.method == "RESPONSE"@,
            None => false,
        },
        Class::Syn => tcp_flag(p, "SYN"@) && !tcp_flag(p, "ACK"@),
        Class::SynAck => tcp_flag(p, "SYN"@) && tcp_flag(p, "ACK"@),
        Class::Ack => tcp_flag(p, "ACK"@),
        Class::Fin => tcp_flag(p, "FIN"@),
        Class::Rst => tcp_flag(p, "RST"@),
        Class::Psh => tcp_flag(p, "PSH"@),
    }
}

/// How many packets belong to a class.
pub open spec fn count(ps: Seq<PacketView>, c: Class) -> nat
    decreases ps.len(),
{
    if ps.len() == 0 {
        0
    } else {
        count(ps.drop_last(), c) + if in_class(ps.last(), c) {
            1nat
        } else {
            0nat
        }
    }
}

/// The sum of the payload sizes.
pub open spec fn total_payload(ps: Seq<PacketView>) -> nat
    decreases ps.len(),
{
    if ps.len() == 0 {
        0
    } else {
        total_payload(ps.drop_last()) + ps.last().payload_size as nat
    }
}

/// The kinds of keys that [`compute_stats`] collects.
pub enum KeyKind {
    /// The 5-tuple of any packet with both addresses and a source port.
    Flow,
    /// The normalised key of a TCP packet with SYN and without ACK.
    Syn,
    /// The normalised key of a TCP packet with SYN and ACK.
    SynAck,
}

/// The protocol number that flows are keyed by.
pub open spec fn proto_num(p: PacketView) -> u8 {
    if p.protocol == "TCP"@ {
        6
    } else if p.protocol == "UDP"@ {
        17
    } else {
        0
    }
}

/// The key of a packet of the given kind, if it has one.
pub open spec fn key_of(p: PacketView, k: KeyKind) -> Option<u128> {
    match k {
        KeyKind::Flow => match (p.src_ip, p.dst_ip, p.src_port) {
            (Some(si), Some(di), Some(sp)) => Some(
                tuple_code(
                    ip_num(si),
                    sp,
                    ip_num(di),
                    match p.dst_port {
                        Some(d) => d,
                        None => 0,
                    },
                    proto_num(p),
                ),
            ),
            _ => None,
        },
        KeyKind::Syn | KeyKind::SynAck => {
            let wanted = match k {
                KeyKind::Syn => in_class(p, Class::Syn),
                _ => in_class(p, Class::SynAck),
            };
            match (p.src_ip, p.src_port, p.dst_ip, p.dst_port) {
                (Some(si), Some(sp), Some(di), Some(dp)) => if wanted {
                    Some(flow_key_of(ip_num(si), sp, ip_num(di), dp).spec_code())
                } else {
                    None
                },
                _ => None,
            }
        },
    }
}

/// The set of keys of the given kind.
pub open spec fn keys(ps: Seq<PacketView>, k: KeyKind) -> Set<u128>
    decreases ps.len(),
{
    if ps.len() == 0 {
        Set::empty()
    } else {
        match key_of(ps.last(), k) {
            Some(x) => keys(ps.drop_last(), k).insert(x),
            None => keys(ps.drop_last(), k),
        }
    }
}

proof fn lemma_keys_finite(ps: Seq<PacketView>, k: KeyKind)
    ensures
        keys(ps, k).finite(),
    decreases ps.len(),
{
    if ps.len() > 0 {
        lemma_keys_finite(ps.drop_last(), k);
    }
}

proof fn lemma_count_le(ps: Seq<PacketView>, c: Class)
    ensures
        count(ps, c) <= ps.len(),
    decreases ps.len(),
{
    if ps.len() > 0 {
        lemma_count_le(ps.drop_last(), c);
    }
}

/// Adding `x` to `a` grows `a ∩ b` by `x` exactly when `x` is in `b`.
proof fn lemma_insert_intersect(a: Set<u128>, b: Set<u128>, x: u128)
    requires
        a.finite(),
        b.finite(),
    ensures
        a.intersect(b).finite(),
        b.contains(x) && !a.contains(x) ==> a.insert(x).intersect(b).len() == a.intersect(b).len()
            + 1,
        !b.contains(x) || a.contains(x) ==> a.insert(x).intersect(b) == a.intersect(b),
{
    if b.contains(x) && !a.contains(x) {
        assert(a.insert(x).intersect(b) =~= a.intersect(b).insert(x));
    } else {
        assert(a.insert(x).intersect(b) =~= a.intersect(b));
    }
}

/// Every packet is counted in exactly one protocol class: TCP, UDP, ARP,
/// ICMP or other.
pub proof fn lemma_protocol_partition(ps: Seq<PacketView>)
    ensures
        count(ps, Class::Tcp) + count(ps, Class::Udp) + count(ps, Class::Arp) + count(ps, Class::Icmp)
            + count(ps, Class::Other) == ps.len(),
    decreases ps.len(),
{
    if ps.len() > 0 {
        lemma_protocol_partition(ps.drop_last());
        reveal_strlit("TCP");
        reveal_strlit("UDP");
        reveal_strlit("ARP");
        assert("TCP"@[0] != "UDP"@[0]);
        assert("TCP"@[0] != "ARP"@[0]);
        assert("UDP"@[0] != "ARP"@[0]);
    }
}

/// A packet is a SYN+ACK or a plain SYN only if it is a TCP packet; so
/// the two SYN counters together never exceed the TCP count, and the
/// request and response counters never exceed the number of packets.
pub proof fn lemma_counter_bounds(ps: Seq<PacketView>)
    ensures
        count(ps, Class::Syn) + count(ps, Class::SynAck) <= count(ps, Class::Tcp),
        count(ps, Class::HttpRequest) + count(ps, Class::HttpResponse) <= ps.len(),
    decreases ps.len(),
{
    if ps.len() > 0 {
        lemma_counter_bounds(ps.drop_last());
    }
}

/// The counters that the loop of [`compute_stats`] keeps.
pub open spec fn counters_match(s: ProtocolStats, ps: Seq<PacketView>) -> bool {
    &&& s.total_packets == ps.len()
    &&& s.total_bytes == total_payload(ps)
    &&& s.tcp_packets == count(ps, Class::Tcp)
    &&& s.udp_packets == count(ps, Class::Udp)
    &&& s.arp_packets == count(ps, Class::Arp)
    &&& s.icmp_packets == count(ps, Class::Icmp)
    &&& s.other_packets == count(ps, Class::Other)
    &&& s.http_requests == count(ps, Class::HttpRequest)
    &&& s.http_responses == count(ps, Class::HttpResponse)
    &&& s.tcp_syn == count(ps, Class::Syn)
    &&& s.tcp_synack == count(ps, Class::SynAck)
    &&& s.tcp_ack == count(ps, Class::Ack)
    &&& s.tcp_fin == count(ps, Class::Fin)
    &&& s.tcp_rst == count(ps, Class::Rst)
    &&& s.tcp_psh == count(ps, Class::Psh)
}

/// The statistics of a packet list: each counter counts its class, the
/// byte total sums the payload sizes, the flow count is the number of
/// distinct 5-tuples, and a handshake is a normalised flow key seen both on
/// a SYN and on a SYN+ACK packet.
pub open spec fn stats_match(s: ProtocolStats, ps: Seq<PacketView>) -> bool {
    &&& counters_match(s, ps)
    &&& s.flow_count == keys(ps, KeyKind::Flow).len()
    &&& s.tcp_handshakes == keys(ps, KeyKind::Syn).intersect(keys(ps, KeyKind::SynAck)).len()
}

/// Whether a packet's optional flag text contains a flag name.
fn flag_in(p: &ParsedPacket, name: &str) -> (r: bool)
    ensures
        r == (match opt_chars(p.tcp_flags) {
            Some(f) => contains_sub(f, name@),
            None => false,
        }),
{
    match &p.tcp_flags {
        Some(f) => str_contains(f.as_str(), name),
        None => false,
    }
}

/// A `usize` as `u64`.
fn widen(n: usize) -> (r: u64)
    ensures
        r == n,
{
    n as u64
}

/// Counts one packet into the counters.
fn tally(s: &mut ProtocolStats, p: &ParsedPacket, Ghost(ps): Ghost<Seq<PacketView>>)
    requires
        counters_match(*old(s), ps),
        ps.len() < usize::MAX,
        total_payload(ps.push(p@)) <= u64::MAX,
    ensures
        counters_match(*final(s), ps.push(p@)),
{
    let ghost next = ps.push(p@);
    proof {
        assert(next.drop_last() =~= ps);
        lemma_count_le(ps, Class::Tcp);
        lemma_count_le(ps, Class::Udp);
        lemma_count_le(ps, Class::Arp);
        lemma_count_le(ps, Class::Icmp);
        lemma_count_le(ps, Class::Other);
        lemma_count_le(ps, Class::HttpRequest);
        lemma_count_le(ps, Class::HttpResponse);
        lemma_count_le(ps, Class::Syn);
        lemma_count_le(ps, Class::SynAck);
        lemma_count_le(ps, Class::Ack);
        lemma_count_le(ps, Class::Fin);
        lemma_count_le(ps, Class::Rst);
        lemma_count_le(ps, Class::Psh);
    }
    s.total_packets = s.total_packets + 1;
    s.total_bytes = s.total_bytes + widen(p.payload_size);
    let proto = p.protocol.as_str();
    if str_eq(proto, "TCP") {
        s.tcp_packets = s.tcp_packets + 1;
        if p.tcp_flags.is_some() {
            let syn = flag_in(p, "SYN");
            let ack = flag_in(p, "ACK");
            if syn && ack {
                s.tcp_synack = s.tcp_synack + 1;
            } else if syn {
                s.tcp_syn = s.tcp_syn + 1;
            }
            if ack {
                s.tcp_ack = s.tcp_ack + 1;
            }
            if flag_in(p, "FIN") {
                s.tcp_fin = s.tcp_fin + 1;
            }
            if flag_in(p, "RST") {
                s.tcp_rst = s.tcp_rst + 1;
            }
            if flag_in(p, "PSH") {
                s.tcp_psh = s.tcp_psh + 1;
            }
        }
    } else if str_eq(proto, "UDP") {
        s.udp_packets = s.udp_packets + 1;
    } else if str_eq(proto, "ARP") {
        s.arp_packets = s.arp_packets + 1;
    } else if str_contains(proto, "ICMP") {
        s.icmp_packets = s.icmp_packets + 1;
    } else {
        s.other_packets = s.other_packets + 1;
    }
    if let Some(h) = &p.http {
        if str_eq(h.method.as_str(), "RESPONSE") {
            s.http_responses = s.http_responses + 1;
        } else {
            s.http_requests = s.http_requests + 1;
        }
    }
    proof {
        reveal_strlit("TCP");
        reveal_strlit("UDP");
        reveal_strlit("ARP");
        assert("TCP"@ != "UDP"@ && "TCP"@ != "ARP"@ && "UDP"@ != "ARP"@) by {
            assert("TCP"@[0] != "UDP"@[0]);
            assert("TCP"@[0] != "ARP"@[0]);
            assert("UDP"@[0] != "ARP"@[0]);
        }
        assert(s.total_packets == next.len());
        assert(s.total_bytes == total_payload(next));
        assert(s.tcp_packets == count(next, Class::Tcp));
        assert(s.udp_packets == count(next, Class::Udp));
        assert(s.arp_packets == count(next, Class::Arp));
        assert(s.icmp_packets == count(next, Class::Icmp));
        assert(s.other_packets == count(next, Class::Other));
        assert(s.http_requests == count(next, Class::HttpRequest));
        assert(s.http_responses == count(next, Class::HttpResponse));
        assert(s.tcp_syn == count(next, Class::Syn));
        assert(s.tcp_synack == count(next, Class::SynAck));
        assert(s.tcp_ack == count(next, Class::Ack));
        assert(s.tcp_fin == count(next, Class::Fin));
        assert(s.tcp_rst == count(next, Class::Rst));
        assert(s.tcp_psh == count(next, Class::Psh));
    }
}

/// The key of a packet of the given kind (executable).
fn packet_key(p: &ParsedPacket, k: &KeyKind) -> (r: Option<u128>)
    ensures
        r == key_of(p@, *k),
{
    match k {
        KeyKind::Flow => {
            match (&p.src_ip, &p.dst_ip, p.src_port) {
                (Some(si), Some(di), Some(sp)) => {
                    let proto: u8 = if str_eq(p.protocol.as_str(), "TCP") {
                        6
                    } else if str_eq(p.protocol.as_str(), "UDP") {
                        17
                    } else {
                        0
                    };
                    let dp: u16 = match p.dst_port {
                        Some(d) => d,
                        None => 0,
                    };
                    Some(tuple_code_exec(ip_to_u32(si.as_str()), sp, ip_to_u32(di.as_str()), dp, proto))
                },
                _ => None,
            }
        },
        _ => {
            let tcp = str_eq(p.protocol.as_str(), "TCP");
            let syn = tcp && flag_in(p, "SYN");
            let ack = tcp && flag_in(p, "ACK");
            let wanted = match k {
                KeyKind::Syn => syn && !ack,
                _ => syn && ack,
            };
            match (&p.src_ip, p.src_port, &p.dst_ip, p.dst_port) {
                (Some(si), Some(sp), Some(di), Some(dp)) => {
                    if wanted {
                        let key = flow_key(ip_to_u32(si.as_str()), sp, ip_to_u32(di.as_str()), dp);
                        Some(key.code())
                    } else {
                        None
                    }
                },
                _ => None,
            }
        },
    }
}

/// Computes the protocol statistics of a packet list.
pub fn compute_stats(packets: &[ParsedPacket]) -> (s: ProtocolStats)
    requires
        total_payload(packet_views(packets@)) <= u64::MAX,
    ensures
        stats_match(s, packet_views(packets@)),
{
    let ghost all = packet_views(packets@);
    let mut s = ProtocolStats::default();
    let mut flows: HashSet<u128> = HashSet::new();
    let mut syn_flows: HashSet<u128> = HashSet::new();
    let mut synack_flows: HashSet<u128> = HashSet::new();
    let mut handshakes: u64 = 0;
    let mut i: usize = 0;
    assert(all.take(0) =~= Seq::<PacketView>::empty());
    assert(syn_flows@.intersect(synack_flows@) =~= Set::<u128>::empty());
    while i < packets.len()
        invariant
            i <= packets@.len(),
            all == packet_views(packets@),
            total_payload(all) <= u64::MAX,
            counters_match(s, all.take(i as int)),
            flows@ == keys(all.take(i as int), KeyKind::Flow),
            syn_flows@ == keys(all.take(i as int), KeyKind::Syn),
            synack_flows@ == keys(all.take(i as int), KeyKind::SynAck),
            handshakes as nat == syn_flows@.intersect(synack_flows@).len(),
            handshakes <= i,
        decreases packets@.len() - i,
    {
        let p = &packets[i];
        let ghost pre = all.take(i as int);
        proof {
            assert(all.take(i + 1) =~= pre.push(p@));
            assert(all.take(i + 1).drop_last() =~= pre);
            lemma_total_payload_prefix(all, i + 1);
            lemma_keys_finite(pre, KeyKind::Syn);
            lemma_keys_finite(pre, KeyKind::SynAck);
        }
        tally(&mut s, p, Ghost(pre));
        if let Some(k) = packet_key(p, &KeyKind::Flow) {
            flows.insert(k);
        }
        if let Some(k) = packet_key(p, &KeyKind::Syn) {
            let ghost a = syn_flows@;
            let ghost b = synack_flows@;
            proof {
                lemma_insert_intersect(a, b, k);
                assert(a.intersect(b).len() <= i) by {
                    lemma_intersect_len_le(a, b);
                    lemma_keys_len_le(pre, KeyKind::Syn);
                }
            }
            if !syn_flows.contains(&k) && synack_flows.contains(&k) {
                handshakes = handshakes + 1;
            }
            syn_flows.insert(k);
        }
        if let Some(k) = packet_key(p, &KeyKind::SynAck) {
            let ghost a = synack_flows@;
            let ghost b = syn_flows@;
            proof {
                lemma_insert_intersect(a, b, k);
                assert(b.intersect(a) =~= a.intersect(b));
                assert(b.intersect(a.insert(k)) =~= a.insert(k).intersect(b));
                assert(b.intersect(a).len() <= i) by {
                    lemma_intersect_len_le(b, a);
                    lemma_keys_len_le(pre, KeyKind::Syn);
                }
            }
            if !synack_flows.contains(&k) && syn_flows.contains(&k) {
                handshakes = handshakes + 1;
            }
            synack_flows.insert(k);
        }
        i = i + 1;
    }
    assert(all.take(packets@.len() as int) =~= all);
    s.flow_count = flows.len() as u64;
    s.tcp_handshakes = handshakes;
    s
}

proof fn lemma_total_payload_prefix(ps: Seq<PacketView>, n: int)
    requires
        0 <= n <= ps.len(),
    ensures
        total_payload(ps.take(n)) <= total_payload(ps),
    decreases ps.len() - n,
{
    if n < ps.len() {
        lemma_total_payload_prefix(ps, n + 1);
        assert(ps.take(n + 1).drop_last() =~= ps.take(n));
    } else {
        assert(ps.take(n) =~= ps);
    }
}

proof fn lemma_keys_len_le(ps: Seq<PacketView>, k: KeyKind)
    ensures
        keys(ps, k).len() <= ps.len(),
        keys(ps, k).finite(),
    decreases ps.len(),
{
    if ps.len() > 0 {
        lemma_keys_len_le(ps.drop_last(), k);
    }
}

proof fn lemma_intersect_len_le(a: Set<u128>, b: Set<u128>)
    requires
        a.finite(),
    ensures
        a.intersect(b).len() <= a.len(),
{
    vstd::set_lib::lemma_len_intersect(a, b);
}

/// The number of packets that carry HTTP.
pub open spec fn http_count(ps: Seq<PacketView>) -> nat {
    ps.filter(|p: PacketView| p.http is Some).len()
}

proof fn lemma_http_split(ps: Seq<PacketView>)
    ensures
        count(ps, Class::HttpRequest) + count(ps, Class::HttpResponse) == http_count(ps),
    decreases ps.len(),
{
    reveal(Seq::filter);
    if ps.len() > 0 {
        lemma_http_split(ps.drop_last());
    }
}

proof fn lemma_keys_le_count(ps: Seq<PacketView>, k: KeyKind, c: Class)
    requires
        (k is Syn && c is Syn) || (k is SynAck && c is SynAck),
    ensures
        keys(ps, k).finite(),
        keys(ps, k).len() <= count(ps, c),
    decreases ps.len(),
{
    if ps.len() > 0 {
        lemma_keys_le_count(ps.drop_last(), k, c);
    }
}

/// Whatever the packets: the protocol counters add up to the packet count,
/// the request and response counters add up to the packets that carry
/// HTTP, and a completed handshake needs both a SYN and a SYN+ACK, so there
/// are no more handshakes than either.
pub proof fn lemma_stats_totals(s: ProtocolStats, ps: Seq<PacketView>)
    requires
        stats_match(s, ps),
    ensures
        s.tcp_packets + s.udp_packets + s.arp_packets + s.icmp_packets + s.other_packets
            == s.total_packets,
        s.http_requests + s.http_responses == http_count(ps),
        s.tcp_handshakes <= s.tcp_syn,
        s.tcp_handshakes <= s.tcp_synack,
{
    lemma_protocol_partition(ps);
    lemma_http_split(ps);
    let a = keys(ps, KeyKind::Syn);
    let b = keys(ps, KeyKind::SynAck);
    lemma_keys_le_count(ps, KeyKind::Syn, Class::Syn);
    lemma_keys_le_count(ps, KeyKind::SynAck, Class::SynAck);
    lemma_intersect_len_le(a, b);
    lemma_intersect_len_le(b, a);
    assert(b.intersect(a) =~= a.intersect(b));
}

proof fn lemma_http_counts_filter(ps: Seq<PacketView>)
    ensures
        count(ps, Class::HttpResponse) == ps.filter(
            |p: PacketView| p.http matches Some(h) && h.method == "RESPONSE"@,
        ).len(),
        count(ps, Class::HttpRequest) == ps.filter(
            |p: PacketView| p.http matches Some(h) && h.method != "RESPONSE"@,
        ).len(),
    decreases ps.len(),
{
    reveal(Seq::filter);
    if ps.len() > 0 {
        lemma_http_counts_filter(ps.drop_last());
    }
}

/// Whatever the packets: the response counter counts the packets whose
/// HTTP has the method `RESPONSE`, and the request counter those whose
/// HTTP has any other method.
pub proof fn lemma_http_counts(s: ProtocolStats, ps: Seq<PacketView>)
    requires
        stats_match(s, ps),
    ensures
        s.http_responses == ps.filter(
            |p: PacketView| p.http matches Some(h) && h.method == "RESPONSE"@,
        ).len(),
        s.http_requests == ps.filter(
            |p: PacketView| p.http matches Some(h) && h.method != "RESPONSE"@,
        ).len(),
{
    lemma_http_counts_filter(ps);
}

/// One packet's step in [`count`].
pub open spec fn count_step(c: Class) -> spec_fn(nat, PacketView) -> nat {
    |acc: nat, p: PacketView| acc + if in_class(p, c) {
        1nat
    } else {
        0nat
    }
}

/// One packet's step in [`total_payload`].
pub open spec fn payload_step() -> spec_fn(nat, PacketView) -> nat {
    |acc: nat, p: PacketView| acc + p.payload_size as nat
}

/// One packet's step in [`keys`].
pub open spec fn keys_step(k: KeyKind) -> spec_fn(Set<u128>, PacketView) -> Set<u128> {
    |acc: Set<u128>, p: PacketView| match key_of(p, k) {
        Some(x) => acc.insert(x),
        None => acc,
    }
}

proof fn lemma_count_fold(ps: Seq<PacketView>, c: Class)
    ensures
        count(ps, c) == ps.fold_left(0nat, count_step(c)),
    decreases ps.len(),
{
    if ps.len() > 0 {
        lemma_count_fold(ps.drop_last(), c);
    }
}

proof fn lemma_payload_fold(ps: Seq<PacketView>)
    ensures
        total_payload(ps) == ps.fold_left(0nat, payload_step()),
    decreases ps.len(),
{
    if ps.len() > 0 {
        lemma_payload_fold(ps.drop_last());
    }
}

proof fn lemma_keys_fold(ps: Seq<PacketView>, k: KeyKind)
    ensures
        keys(ps, k) == ps.fold_left(Set::<u128>::empty(), keys_step(k)),
    decreases ps.len(),
{
    if ps.len() > 0 {
        lemma_keys_fold(ps.drop_last(), k);
    }
}

proof fn lemma_count_perm(ps1: Seq<PacketView>, ps2: Seq<PacketView>, c: Class)
    requires
        ps1.to_multiset() == ps2.to_multiset(),
    ensures
        count(ps1, c) == count(ps2, c),
{
    let f = count_step(c);
    assert(vstd::seq_lib::commutative_foldl(f));
    vstd::seq_lib::lemma_fold_left_permutation(ps1, ps2, f, 0nat);
    lemma_count_fold(ps1, c);
    lemma_count_fold(ps2, c);
}

proof fn lemma_keys_perm(ps1: Seq<PacketView>, ps2: Seq<PacketView>, k: KeyKind)
    requires
        ps1.to_multiset() == ps2.to_multiset(),
    ensures
        keys(ps1, k) == keys(ps2, k),
{
    let f = keys_step(k);
    assert forall|x: PacketView, y: PacketView, v: Set<u128>| #[trigger] f(f(v, x), y) == f(f(v, y), x) by {
        assert(f(f(v, x), y) =~= f(f(v, y), x));
    }
    assert(vstd::seq_lib::commutative_foldl(f));
    vstd::seq_lib::lemma_fold_left_permutation(ps1, ps2, f, Set::<u128>::empty());
    lemma_keys_fold(ps1, k);
    lemma_keys_fold(ps2, k);
}

/// The statistics do not depend on the order of the packets: two packet
/// lists that hold the same packets, in any order, have equal statistics
/// in every field.
pub proof fn lemma_stats_order_independent(
    s1: ProtocolStats,
    ps1: Seq<PacketView>,
    s2: ProtocolStats,
    ps2: Seq<PacketView>,
)
    requires
        stats_match(s1, ps1),
        stats_match(s2, ps2),
        ps1.to_multiset() == ps2.to_multiset(),
    ensures
        s1 == s2,
{
    broadcast use vstd::seq_lib::group_to_multiset_ensures;

    assert(ps1.len() == ps1.to_multiset().len());
    assert(ps2.len() == ps2.to_multiset().len());
    let f = payload_step();
    assert(vstd::seq_lib::commutative_foldl(f));
    vstd::seq_lib::lemma_fold_left_permutation(ps1, ps2, f, 0nat);
    lemma_payload_fold(ps1);
    lemma_payload_fold(ps2);
    lemma_count_perm(ps1, ps2, Class::Tcp);
    lemma_count_perm(ps1, ps2, Class::Udp);
    lemma_count_perm(ps1, ps2, Class::Arp);
    lemma_count_perm(ps1, ps2, Class::Icmp);
    lemma_count_perm(ps1, ps2, Class::Other);
    lemma_count_perm(ps1, ps2, Class::HttpRequest);
    lemma_count_perm(ps1, ps2, Class::HttpResponse);
    lemma_count_perm(ps1, ps2, Class::Syn);
    lemma_count_perm(ps1, ps2, Class::SynAck);
    lemma_count_perm(ps1, ps2, Class::Ack);
    lemma_count_perm(ps1, ps2, Class::Fin);
    lemma_count_perm(ps1, ps2, Class::Rst);
    lemma_count_perm(ps1, ps2, Class::Psh);
    lemma_keys_perm(ps1, ps2, KeyKind::Flow);
    lemma_keys_perm(ps1, ps2, KeyKind::Syn);
    lemma_keys_perm(ps1, ps2, KeyKind::SynAck);
}

// ---------------------------------------------------------------------------
// TCP stream reassembly
// ---------------------------------------------------------------------------

/// A reassembled TCP conversation.  Times are nanoseconds since the epoch.
#[derive(Clone, Debug)]
pub struct TcpStream {
    pub client_ip: String,
    pub client_port: u16,
    pub server_ip: String,
    pub server_port: u16,
    pub start_time_ns: u64,
    pub end_time_ns: u64,
    pub client_data: Vec<u8>,
    pub server_data: Vec<u8>,
    pub client_bytes: u32,
    pub server_bytes: u32,
    pub handshake_ok: bool,
    pub has_http: bool,
}

/// The mathematical content of a [`TcpStream`].
pub struct StreamView {
    pub client_ip: Seq<char>,
    pub client_port: u16,
    pub server_ip: Seq<char>,
    pub server_port: u16,
    pub start_time_ns: u64,
    pub end_time_ns: u64,
    pub client_data: Seq<u8>,
    pub server_data: Seq<u8>,
    pub client_bytes: u32,
    pub server_bytes: u32,
    pub handshake_ok: bool,
    pub has_http: bool,
}

impl View for TcpStream {
    type V = StreamView;

    open spec fn view(&self) -> StreamView {
        StreamView {
            client_ip: self.client_ip@,
            client_port: self.client_port,
            server_ip: self.server_ip@,
            server_port: self.server_port,
            start_time_ns: self.start_time_ns,
            end_time_ns: self.end_time_ns,
            client_data: self.client_data@,
            server_data: self.server_data@,
            client_bytes: self.client_bytes,
            server_bytes: self.server_bytes,
            handshake_ok: self.handshake_ok,
            has_http: self.has_http,
        }
    }
}

/// The key a TCP packet with both addresses and ports is grouped under:
/// the end with the smaller port first (the destination first on equal
/// ports).
pub open spec fn stream_key(p: PacketView) -> Option<FlowKey> {
    if p.protocol == "TCP"@ {
        match (p.src_ip, p.dst_ip, p.src_port, p.dst_port) {
            (Some(si), Some(di), Some(sp), Some(dp)) => {
                let a = ip_num(si);
                let b = ip_num(di);
                Some(
                    if sp < dp {
                        FlowKey(a, sp, b, dp, 6)
                    } else {
                        FlowKey(b, dp, a, sp, 6)
                    },
                )
            },
            _ => None,
        }
    } else {
        None
    }
}

/// The two ways packets are grouped into conversations.
#[derive(PartialEq, Eq, Structural, Clone, Copy)]
pub enum Grouping {
    /// All TCP packets with addresses and ports (stream reassembly).
    Streams,
    /// Only SYN, SYN+ACK and bare ACK packets (handshake timelines).
    Handshakes,
}

/// The flag text is exactly `ACK`.
pub open spec fn is_ack_only(p: PacketView) -> bool {
    crate::parser::or_empty(p.tcp_flags) == "ACK"@
}

/// The flag text has both SYN and ACK.
pub open spec fn is_syn_ack(p: PacketView) -> bool {
    let f = crate::parser::or_empty(p.tcp_flags);
    contains_sub(f, "SYN"@) && contains_sub(f, "ACK"@)
}

/// The key a packet is grouped under, if any.
pub open spec fn group_key(p: PacketView, g: Grouping) -> Option<FlowKey> {
    match g {
        Grouping::Streams => stream_key(p),
        Grouping::Handshakes => if is_syn_only(p) || is_syn_ack(p) || is_ack_only(p) {
            stream_key(p)
        } else {
            None
        },
    }
}

/// The distinct keys in the order in which they first occur.
pub open spec fn flow_order(ps: Seq<PacketView>, g: Grouping) -> Seq<FlowKey>
    decreases ps.len(),
{
    if ps.len() == 0 {
        Seq::empty()
    } else {
        let r = flow_order(ps.drop_last(), g);
        match group_key(ps.last(), g) {
            Some(k) => if r.contains(k) {
                r
            } else {
                r.push(k)
            },
            None => r,
        }
    }
}

/// The packets grouped under a key, in their original order.
pub open spec fn members(ps: Seq<PacketView>, k: FlowKey, g: Grouping) -> Seq<PacketView>
    decreases ps.len(),
{
    if ps.len() == 0 {
        Seq::empty()
    } else if group_key(ps.last(), g) == Some(k) {
        members(ps.drop_last(), k, g).push(ps.last())
    } else {
        members(ps.drop_last(), k, g)
    }
}

/// Where a packet with sequence number `t` goes in a list sorted by
/// sequence number: after every element whose number is at most `t`.
pub open spec fn insert_pos(s: Seq<PacketView>, t: u64) -> int
    decreases s.len(),
{
    if s.len() == 0 {
        0
    } else if s.last().seq <= t {
        s.len() as int
    } else {
        insert_pos(s.drop_last(), t)
    }
}

/// The packets stably sorted by sequence number (insertion sort).
pub open spec fn sort_by_seq(s: Seq<PacketView>) -> Seq<PacketView>
    decreases s.len(),
{
    if s.len() == 0 {
        Seq::empty()
    } else {
        let r = sort_by_seq(s.drop_last());
        let j = insert_pos(r, s.last().seq);
        r.take(j) + seq![s.last()] + r.skip(j)
    }
}

/// The sequence numbers never decrease along the sequence.
pub open spec fn sorted_by_seq(s: Seq<PacketView>) -> bool {
    forall|i: int, j: int| 0 <= i < j < s.len() ==> s[i].seq <= s[j].seq
}

proof fn lemma_insert_pos_split(s: Seq<PacketView>, t: u64)
    requires
        sorted_by_seq(s),
    ensures
        0 <= insert_pos(s, t) <= s.len(),
        forall|i: int| 0 <= i < insert_pos(s, t) ==> (#[trigger] s[i]).seq <= t,
        forall|i: int| insert_pos(s, t) <= i < s.len() ==> (#[trigger] s[i]).seq > t,
    decreases s.len(),
{
    if s.len() > 0 {
        let n = s.len() - 1;
        if s.last().seq <= t {
            assert forall|i: int| 0 <= i < s.len() implies (#[trigger] s[i]).seq <= t by {
                if i < n {
                    assert(s[i].seq <= s[n].seq);
                }
            }
        } else {
            let d = s.drop_last();
            assert(sorted_by_seq(d)) by {
                assert forall|i: int, j: int| 0 <= i < j < d.len() implies d[i].seq <= d[j].seq by {
                    assert(d[i] == s[i] && d[j] == s[j]);
                }
            }
            lemma_insert_pos_split(d, t);
            assert forall|i: int| insert_pos(s, t) <= i < s.len() implies (#[trigger] s[i]).seq > t by {
                if i < n {
                    assert(d[i] == s[i]);
                }
            }
            assert forall|i: int| 0 <= i < insert_pos(s, t) implies (#[trigger] s[i]).seq <= t by {
                assert(d[i] == s[i]);
            }
        }
    }
}

/// Sorting packets by sequence number keeps the same packets (as a
/// multiset) and puts their sequence numbers in nondecreasing order.
pub proof fn lemma_sort_by_seq(s: Seq<PacketView>)
    ensures
        sort_by_seq(s).to_multiset() == s.to_multiset(),
        sort_by_seq(s).len() == s.len(),
        sorted_by_seq(sort_by_seq(s)),
    decreases s.len(),
{
    broadcast use vstd::seq_lib::group_to_multiset_ensures;

    if s.len() > 0 {
        let d = s.drop_last();
        let x = s.last();
        let r = sort_by_seq(d);
        lemma_sort_by_seq(d);
        let j = insert_pos(r, x.seq);
        lemma_insert_pos_split(r, x.seq);
        let out = r.take(j) + seq![x] + r.skip(j);
        assert(out =~= r.insert(j, x));
        assert(s =~= d.push(x));
        assert(out.to_multiset() == r.to_multiset().insert(x));
        assert(s.to_multiset() == d.to_multiset().insert(x));
        assert forall|a: int, b: int| 0 <= a < b < out.len() implies out[a].seq <= out[b].seq by {
            if b < j {
                assert(out[a] == r[a] && out[b] == r[b]);
            } else if b == j {
                assert(out[a] == r[a] && out[b] == x);
            } else if a < j {
                assert(out[a] == r[a] && out[b] == r[b - 1]);
            } else if a == j {
                assert(out[a] == x && out[b] == r[b - 1]);
            } else {
                assert(out[a] == r[a - 1] && out[b] == r[b - 1]);
            }
        }
    }
}

/// The UTF-8 bytes of a packet's HTTP body, empty without HTTP.
pub open spec fn body_bytes(p: PacketView) -> Seq<u8> {
    match p.http {
        Some(h) => vstd::utf8::encode_utf8(h.body),
        None => Seq::empty(),
    }
}

/// `src_port < dst_port` as `Option<u16>` orders them.
pub open spec fn client_side(p: PacketView) -> bool {
    match (p.src_port, p.dst_port) {
        (Some(a), Some(b)) => a < b,
        (None, Some(_)) => true,
        _ => false,
    }
}

/// The HTTP body bytes of the packets with a payload that travel from the
/// client (`client == true`) or from the server, concatenated in order.
pub open spec fn side_data(s: Seq<PacketView>, client: bool) -> Seq<u8>
    decreases s.len(),
{
    if s.len() == 0 {
        Seq::empty()
    } else if s.last().payload_size > 0 && client_side(s.last()) == client {
        side_data(s.drop_last(), client) + body_bytes(s.last())
    } else {
        side_data(s.drop_last(), client)
    }
}

/// A flags text with SYN and without ACK.
pub open spec fn is_syn_only(p: PacketView) -> bool {
    let f = crate::parser::or_empty(p.tcp_flags);
    contains_sub(f, "SYN"@) && !contains_sub(f, "ACK"@)
}

/// Some packet is a SYN without ACK.
pub open spec fn any_syn(s: Seq<PacketView>) -> bool
    decreases s.len(),
{
    s.len() > 0 && (any_syn(s.drop_last()) || is_syn_only(s.last()))
}

/// Some packet carries HTTP.
pub open spec fn any_http(s: Seq<PacketView>) -> bool
    decreases s.len(),
{
    s.len() > 0 && (any_http(s.drop_last()) || s.last().http is Some)
}

/// The stream reassembled under a key: the packets of the key sorted by
/// sequence number; start and end time of the first and last of them.
pub open spec fn stream_of(ps: Seq<PacketView>, k: FlowKey) -> StreamView {
    let s = sort_by_seq(members(ps, k, Grouping::Streams));
    StreamView {
        client_ip: u32_ip_text(k.0),
        client_port: k.1,
        server_ip: u32_ip_text(k.2),
        server_port: k.3,
        start_time_ns: s[0].timestamp_ns,
        end_time_ns: s.last().timestamp_ns,
        client_data: side_data(s, true),
        server_data: side_data(s, false),
        client_bytes: side_data(s, true).len() as u32,
        server_bytes: side_data(s, false).len() as u32,
        handshake_ok: any_syn(s),
        has_http: any_http(s),
    }
}

/// Every stream's byte counters fit in `u32`.
pub open spec fn streams_fit(ps: Seq<PacketView>) -> bool {
    forall|i: int|
        0 <= i < flow_order(ps, Grouping::Streams).len() ==> {
            let s = sort_by_seq(
                members(ps, #[trigger] flow_order(ps, Grouping::Streams)[i], Grouping::Streams),
            );
            side_data(s, true).len() <= u32::MAX && side_data(s, false).len() <= u32::MAX
        }
}

/// The streams of a packet list in order of first occurrence.
pub open spec fn streams_match(r: Seq<TcpStream>, ps: Seq<PacketView>) -> bool {
    &&& r.len() == flow_order(ps, Grouping::Streams).len()
    &&& forall|i: int|
        0 <= i < r.len() ==> #[trigger] r[i]@ == stream_of(ps, flow_order(ps, Grouping::Streams)[i])
}

/// The packets at the given positions.
pub open spec fn idx_view(all: Seq<PacketView>, ix: Seq<usize>) -> Seq<PacketView> {
    ix.map_values(|x: usize| all[x as int])
}

proof fn lemma_div_mod_unique(q1: int, r1: int, q2: int, r2: int, m: int)
    requires
        m > 0,
        0 <= r1 < m,
        0 <= r2 < m,
        q1 * m + r1 == q2 * m + r2,
    ensures
        q1 == q2,
        r1 == r2,
{
    assert(q1 == q2) by (nonlinear_arith)
        requires
            m > 0,
            0 <= r1 < m,
            0 <= r2 < m,
            q1 * m + r1 == q2 * m + r2,
    ;
}

/// Different keys have different packed numbers.
pub proof fn lemma_code_injective(k1: FlowKey, k2: FlowKey)
    requires
        k1.spec_code() == k2.spec_code(),
    ensures
        k1 == k2,
{
    let a1 = (k1.0 as int * 65536 + k1.1 as int) * 4294967296 + k1.2 as int;
    let a2 = (k2.0 as int * 65536 + k2.1 as int) * 4294967296 + k2.2 as int;
    let b1 = (a1 * 65536 + k1.3 as int);
    let b2 = (a2 * 65536 + k2.3 as int);
    assert(0 <= k1.0 as int * 65536 + k1.1 as int <= 0xffff_ffff_ffff);
    assert(0 <= k2.0 as int * 65536 + k2.1 as int <= 0xffff_ffff_ffff);
    assert(0 <= a1 && 0 <= a2);
    assert(a1 <= 0xffff_ffff_ffff * 4294967296 + 0xffff_ffff);
    assert(a2 <= 0xffff_ffff_ffff * 4294967296 + 0xffff_ffff);
    assert(0 <= b1 && b1 * 256 + 255 < 0x1_0000_0000_0000_0000_0000_0000_0000_0000);
    assert(0 <= b2 && b2 * 256 + 255 < 0x1_0000_0000_0000_0000_0000_0000_0000_0000);
    lemma_div_mod_unique(b1, k1.4 as int, b2, k2.4 as int, 256);
    lemma_div_mod_unique(a1, k1.3 as int, a2, k2.3 as int, 65536);
    lemma_div_mod_unique(
        k1.0 as int * 65536 + k1.1 as int,
        k1.2 as int,
        k2.0 as int * 65536 + k2.1 as int,
        k2.2 as int,
        4294967296,
    );
    lemma_div_mod_unique(k1.0 as int, k1.1 as int, k2.0 as int, k2.1 as int, 65536);
}

/// Whether the flag text is exactly `ACK`.
fn ack_only_exec(p: &ParsedPacket) -> (r: bool)
    ensures
        r == is_ack_only(p@),
{
    match &p.tcp_flags {
        Some(f) => str_eq(f.as_str(), "ACK"),
        None => {
            proof {
                reveal_strlit("ACK");
                assert(Seq::<char>::empty() != "ACK"@) by {
                    assert("ACK"@.len() == 3);
                }
            }
            false
        },
    }
}

/// Whether the flag text has both SYN and ACK.
fn syn_ack_exec(p: &ParsedPacket) -> (r: bool)
    ensures
        r == is_syn_ack(p@),
{
    match &p.tcp_flags {
        Some(f) => str_contains(f.as_str(), "SYN") && str_contains(f.as_str(), "ACK"),
        None => {
            proof {
                reveal_strlit("SYN");
                assert(!contains_sub(Seq::<char>::empty(), "SYN"@));
            }
            false
        },
    }
}

fn group_key_exec(p: &ParsedPacket, g: Grouping) -> (r: Option<FlowKey>)
    ensures
        r == group_key(p@, g),
{
    match g {
        Grouping::Streams => stream_key_exec(p),
        Grouping::Handshakes => {
            if syn_only_exec(p) || syn_ack_exec(p) || ack_only_exec(p) {
                stream_key_exec(p)
            } else {
                None
            }
        },
    }
}

fn stream_key_exec(p: &ParsedPacket) -> (r: Option<FlowKey>)
    ensures
        r == stream_key(p@),
{
    if !str_eq(p.protocol.as_str(), "TCP") {
        return None;
    }
    match (&p.src_ip, &p.dst_ip, p.src_port, p.dst_port) {
        (Some(si), Some(di), Some(sp), Some(dp)) => {
            let a = ip_to_u32(si.as_str());
            let b = ip_to_u32(di.as_str());
            if sp < dp {
                Some(FlowKey(a, sp, b, dp, 6))
            } else {
                Some(FlowKey(b, dp, a, sp, 6))
            }
        },
        _ => None,
    }
}

/// The flow keys in first-occurrence order and, for each, the positions of
/// its packets.
fn group_by(packets: &[ParsedPacket], g: Grouping) -> (r: (Vec<FlowKey>, Vec<Vec<usize>>))
    ensures
        r.0@ == flow_order(packet_views(packets@), g),
        r.1@.len() == r.0@.len(),
        forall|j: int|
            0 <= j < r.1@.len() ==> {
                &&& idx_view(packet_views(packets@), #[trigger] r.1@[j]@) == members(
                    packet_views(packets@),
                    r.0@[j],
                    g,
                )
                &&& forall|x: int| 0 <= x < r.1@[j]@.len() ==> r.1@[j]@[x] < packets@.len()
            },
{
    let ghost all = packet_views(packets@);
    let mut order: Vec<FlowKey> = Vec::new();
    let mut groups: Vec<Vec<usize>> = Vec::new();
    let mut index: std::collections::HashMap<u128, usize> = std::collections::HashMap::new();
    let mut i: usize = 0;
    assert(all.take(0) =~= Seq::<PacketView>::empty());
    while i < packets.len()
        invariant
            i <= packets@.len(),
            all == packet_views(packets@),
            order@ == flow_order(all.take(i as int), g),
            groups@.len() == order@.len(),
            forall|j: int|
                0 <= j < groups@.len() ==> {
                    &&& idx_view(all, #[trigger] groups@[j]@) == members(all.take(i as int), order@[j], g)
                    &&& forall|x: int| 0 <= x < groups@[j]@.len() ==> groups@[j]@[x] < i
                },
            forall|c: u128|
                index@.contains_key(c) <==> exists|j: int|
                    0 <= j < order@.len() && (#[trigger] order@[j]).spec_code() == c,
            forall|j: int| 0 <= j < order@.len() ==> index@[(#[trigger] order@[j]).spec_code()] == j,
        decreases packets@.len() - i,
    {
        let ghost t = all.take(i as int);
        let ghost t1 = all.take(i + 1);
        proof {
            assert(t1.drop_last() =~= t);
            assert(t1.last() == packets@[i as int]@);
        }
        let key = group_key_exec(&packets[i], g);
        match key {
            None => {
                proof {
                    assert forall|j: int| 0 <= j < groups@.len() implies idx_view(all, #[trigger] groups@[j]@)
                        == members(t1, order@[j], g) by {}
                }
            },
            Some(k) => {
                let c = k.code();
                match index.get(&c) {
                    Some(jr) => {
                        let j = *jr;
                        proof {
                            let w = choose|w: int| 0 <= w < order@.len() && (#[trigger] order@[w]).spec_code() == c;
                            lemma_code_injective(order@[w], k);
                            assert(j == w);
                            assert(order@[j as int] == k);
                            assert(order@.contains(k));
                        }
                        let ghost old_groups = groups@;
                        groups[j].push(i);
                        proof {
                            assert forall|q: int| 0 <= q < groups@.len() implies {
                                &&& idx_view(all, #[trigger] groups@[q]@) == members(t1, order@[q], g)
                                &&& forall|x: int| 0 <= x < groups@[q]@.len() ==> groups@[q]@[x] < i + 1
                            } by {
                                if q == j {
                                    assert(idx_view(all, groups@[q]@) =~= idx_view(all, old_groups[q]@).push(all[i as int]));
                                } else {
                                    assert(groups@[q] == old_groups[q]);
                                    if group_key(t1.last(), g) == Some(order@[q]) {
                                        assert(order@[q].spec_code() == c);
                                    }
                                }
                            }
                        }
                    },
                    None => {
                        proof {
                            if order@.contains(k) {
                                let w = choose|w: int| 0 <= w < order@.len() && order@[w] == k;
                                assert(order@[w].spec_code() == c);
                            }
                        }
                        let n = order.len();
                        let ghost old_index = index@;
                        let ghost old_groups = groups@;
                        let ghost old_order = order@;
                        order.push(k);
                        let mut fresh: Vec<usize> = Vec::new();
                        fresh.push(i);
                        groups.push(fresh);
                        index.insert(c, n);
                        proof {
                            assert(members(t, k, g) =~= Seq::<PacketView>::empty()) by {
                                lemma_members_absent(t, k, g);
                            }
                            assert forall|q: int| 0 <= q < groups@.len() implies {
                                &&& idx_view(all, #[trigger] groups@[q]@) == members(t1, order@[q], g)
                                &&& forall|x: int| 0 <= x < groups@[q]@.len() ==> groups@[q]@[x] < i + 1
                            } by {
                                if q == n {
                                    assert(idx_view(all, groups@[q]@) =~= seq![all[i as int]]);
                                    assert(members(t1, k, g) =~= members(t, k, g).push(t1.last()));
                                } else {
                                    assert(groups@[q] == old_groups[q]);
                                    assert(order@[q] == old_order[q]);
                                    if group_key(t1.last(), g) == Some(order@[q]) {
                                        assert(old_order.contains(k));
                                    }
                                }
                            }
                            assert forall|cc: u128|
                                index@.contains_key(cc) <==> exists|j: int|
                                    0 <= j < order@.len() && (#[trigger] order@[j]).spec_code() == cc by {
                                if cc == c {
                                    assert(order@[n as int].spec_code() == c);
                                } else {
                                    if index@.contains_key(cc) {
                                        assert(old_index.contains_key(cc));
                                        let w = choose|w: int| 0 <= w < old_order.len() && (#[trigger] old_order[w]).spec_code() == cc;
                                        assert(order@[w] == old_order[w]);
                                    }
                                    if exists|j: int| 0 <= j < order@.len() && (#[trigger] order@[j]).spec_code() == cc {
                                        let w = choose|w: int| 0 <= w < order@.len() && (#[trigger] order@[w]).spec_code() == cc;
                                        assert(w != n);
                                        assert(old_order[w] == order@[w]);
                                    }
                                }
                            }
                            assert forall|j: int| 0 <= j < order@.len() implies index@[(#[trigger] order@[j]).spec_code()] == j by {
                                if j < n {
                                    assert(order@[j] == old_order[j]);
                                    if order@[j].spec_code() == c {
                                        lemma_code_injective(order@[j], k);
                                        assert(old_order.contains(k));
                                    }
                                }
                            }
                        }
                    },
                }
            },
        }
        i = i + 1;
    }
    assert(all.take(packets@.len() as int) =~= all);
    (order, groups)
}

proof fn lemma_members_absent(ps: Seq<PacketView>, k: FlowKey, g: Grouping)
    requires
        !flow_order(ps, g).contains(k),
    ensures
        members(ps, k, g) == Seq::<PacketView>::empty(),
    decreases ps.len(),
{
    if ps.len() > 0 {
        let r = flow_order(ps.drop_last(), g);
        if r.contains(k) {
            let w = choose|w: int| 0 <= w < r.len() && r[w] == k;
            match group_key(ps.last(), g) {
                Some(k2) => {
                    if !r.contains(k2) {
                        assert(r.push(k2)[w] == k);
                    }
                },
                None => {},
            }
        } else {
            match group_key(ps.last(), g) {
                Some(k2) => {
                    if k2 == k {
                        assert(flow_order(ps, g).contains(k)) by {
                            assert(r.push(k2)[r.len() as int] == k);
                        }
                    }
                },
                None => {},
            }
        }
        lemma_members_absent(ps.drop_last(), k, g);
    }
}

/// Positions of packets stably sorted by the packets' sequence numbers.
fn sort_indices(packets: &[ParsedPacket], g: &Vec<usize>) -> (r: Vec<usize>)
    requires
        forall|x: int| 0 <= x < g@.len() ==> g@[x] < packets@.len(),
    ensures
        idx_view(packet_views(packets@), r@) == sort_by_seq(idx_view(packet_views(packets@), g@)),
        forall|x: int| 0 <= x < r@.len() ==> r@[x] < packets@.len(),
{
    let ghost all = packet_views(packets@);
    let ghost gv = idx_view(all, g@);
    let mut r: Vec<usize> = Vec::new();
    let mut m: usize = 0;
    assert(gv.take(0) =~= Seq::<PacketView>::empty());
    assert(idx_view(all, r@) =~= Seq::<PacketView>::empty());
    while m < g.len()
        invariant
            m <= g@.len(),
            all == packet_views(packets@),
            gv == idx_view(all, g@),
            forall|x: int| 0 <= x < g@.len() ==> g@[x] < packets@.len(),
            forall|x: int| 0 <= x < r@.len() ==> r@[x] < packets@.len(),
            idx_view(all, r@) == sort_by_seq(gv.take(m as int)),
        decreases g@.len() - m,
    {
        let x = g[m];
        let t = packets[x].seq;
        let ghost sv = idx_view(all, r@);
        let mut j: usize = r.len();
        assert(sv.take(j as int) =~= sv);
        while j > 0 && packets[r[j - 1]].seq > t
            invariant
                j <= r@.len(),
                sv == idx_view(all, r@),
                all == packet_views(packets@),
                forall|y: int| 0 <= y < r@.len() ==> r@[y] < packets@.len(),
                insert_pos(sv, t) == insert_pos(sv.take(j as int), t),
            decreases j,
        {
            assert(sv.take(j - 1) =~= sv.take(j as int).drop_last());
            j = j - 1;
        }
        proof {
            if j > 0 {
                assert(sv.take(j as int).last() == sv[j - 1]);
            }
            assert(gv.take(m + 1).drop_last() =~= gv.take(m as int));
            assert(gv.take(m + 1).last() == all[x as int]);
        }
        r.insert(j, x);
        proof {
            assert(idx_view(all, r@) =~= sv.take(j as int) + seq![all[x as int]] + sv.skip(j as int));
        }
        m = m + 1;
    }
    assert(gv.take(g@.len() as int) =~= gv);
    r
}

/// Appends bytes to a vector.
fn append_bytes(out: &mut Vec<u8>, b: &[u8])
    ensures
        final(out)@ == old(out)@ + b@,
{
    let ghost start = out@;
    let mut i: usize = 0;
    while i < b.len()
        invariant
            i <= b@.len(),
            out@ == start + b@.take(i as int),
        decreases b@.len() - i,
    {
        out.push(b[i]);
        assert(start + b@.take(i as int).push(b@[i as int]) =~= start + b@.take(i + 1));
        i = i + 1;
    }
    assert(b@.take(b@.len() as int) =~= b@);
}

/// Whether a packet's flag text has SYN and not ACK.
fn syn_only_exec(p: &ParsedPacket) -> (r: bool)
    ensures
        r == is_syn_only(p@),
{
    match &p.tcp_flags {
        Some(f) => str_contains(f.as_str(), "SYN") && !str_contains(f.as_str(), "ACK"),
        None => {
            proof {
                reveal_strlit("SYN");
                assert(!contains_sub(Seq::<char>::empty(), "SYN"@));
            }
            false
        },
    }
}

/// Reassembles the stream of one key from its sorted packet positions;
/// `None` when a byte counter would not fit in `u32`.
fn build_stream(packets: &[ParsedPacket], k: FlowKey, sorted: &Vec<usize>) -> (r: Option<
    TcpStream,
>)
    requires
        sorted@.len() > 0,
        forall|x: int| 0 <= x < sorted@.len() ==> sorted@[x] < packets@.len(),
    ensures
        ({
            let s = idx_view(packet_views(packets@), sorted@);
            let fits = side_data(s, true).len() <= u32::MAX && side_data(s, false).len()
                <= u32::MAX;
            match r {
                Some(t) => fits && t@ == StreamView {
                    client_ip: u32_ip_text(k.0),
                    client_port: k.1,
                    server_ip: u32_ip_text(k.2),
                    server_port: k.3,
                    start_time_ns: s[0].timestamp_ns,
                    end_time_ns: s.last().timestamp_ns,
                    client_data: side_data(s, true),
                    server_data: side_data(s, false),
                    client_bytes: side_data(s, true).len() as u32,
                    server_bytes: side_data(s, false).len() as u32,
                    handshake_ok: any_syn(s),
                    has_http: any_http(s),
                },
                None => !fits,
            }
        }),
{
    let ghost all = packet_views(packets@);
    let ghost s = idx_view(all, sorted@);
    let mut client_data: Vec<u8> = Vec::new();
    let mut server_data: Vec<u8> = Vec::new();
    let mut handshake_ok = false;
    let mut has_http = false;
    let mut m: usize = 0;
    assert(s.take(0) =~= Seq::<PacketView>::empty());
    while m < sorted.len()
        invariant
            m <= sorted@.len(),
            all == packet_views(packets@),
            s == idx_view(all, sorted@),
            forall|x: int| 0 <= x < sorted@.len() ==> sorted@[x] < packets@.len(),
            client_data@ == side_data(s.take(m as int), true),
            server_data@ == side_data(s.take(m as int), false),
            handshake_ok == any_syn(s.take(m as int)),
            has_http == any_http(s.take(m as int)),
        decreases sorted@.len() - m,
    {
        let p = &packets[sorted[m]];
        proof {
            assert(s.take(m + 1).drop_last() =~= s.take(m as int));
            assert(s.take(m + 1).last() == p@);
        }
        if syn_only_exec(p) {
            handshake_ok = true;
        }
        if p.http.is_some() {
            has_http = true;
        }
        if p.payload_size > 0 {
            let client = match (p.src_port, p.dst_port) {
                (Some(a), Some(b)) => a < b,
                (None, Some(_)) => true,
                _ => false,
            };
            if let Some(h) = &p.http {
                let bytes = h.body.as_str().as_bytes();
                if client {
                    append_bytes(&mut client_data, bytes);
                } else {
                    append_bytes(&mut server_data, bytes);
                }
            } else {
                proof {
                    assert(client_data@ + Seq::<u8>::empty() =~= client_data@);
                    assert(server_data@ + Seq::<u8>::empty() =~= server_data@);
                }
            }
        }
        m = m + 1;
    }
    assert(s.take(sorted@.len() as int) =~= s);
    if client_data.len() > 0xffff_ffff || server_data.len() > 0xffff_ffff {
        return None;
    }
    let client_bytes = client_data.len() as u32;
    let server_bytes = server_data.len() as u32;
    let first = &packets[sorted[0]];
    let last = &packets[sorted[sorted.len() - 1]];
    Some(
        TcpStream {
            client_ip: u32_to_ip(k.0),
            client_port: k.1,
            server_ip: u32_to_ip(k.2),
            server_port: k.3,
            start_time_ns: first.timestamp_ns,
            end_time_ns: last.timestamp_ns,
            client_data,
            server_data,
            client_bytes,
            server_bytes,
            handshake_ok,
            has_http,
        },
    )
}

proof fn lemma_members_nonempty(ps: Seq<PacketView>, j: int, g: Grouping)
    requires
        0 <= j < flow_order(ps, g).len(),
    ensures
        members(ps, flow_order(ps, g)[j], g).len() > 0,
    decreases ps.len(),
{
    if ps.len() > 0 {
        let r = flow_order(ps.drop_last(), g);
        let k = flow_order(ps, g)[j];
        if j < r.len() {
            match group_key(ps.last(), g) {
                Some(k2) => {
                    if !r.contains(k2) {
                        assert(r.push(k2)[j] == r[j]);
                    }
                },
                None => {},
            }
            lemma_members_nonempty(ps.drop_last(), j, g);
        }
    }
}

proof fn lemma_sort_len(s: Seq<PacketView>)
    ensures
        sort_by_seq(s).len() == s.len(),
    decreases s.len(),
{
    if s.len() > 0 {
        lemma_sort_len(s.drop_last());
        lemma_insert_pos_bounds(sort_by_seq(s.drop_last()), s.last().seq);
    }
}

proof fn lemma_insert_pos_bounds(s: Seq<PacketView>, t: u64)
    ensures
        0 <= insert_pos(s, t) <= s.len(),
    decreases s.len(),
{
    if s.len() > 0 {
        lemma_insert_pos_bounds(s.drop_last(), t);
    }
}

/// Reassembles the TCP streams of a packet list; `None` when a stream's
/// byte counter would not fit in `u32`.
pub fn try_extract_tcp_streams(packets: &[ParsedPacket]) -> (r: Option<Vec<TcpStream>>)
    ensures
        match r {
            Some(v) => streams_match(v@, packet_views(packets@)),
            None => !streams_fit(packet_views(packets@)),
        },
{
    let ghost all = packet_views(packets@);
    let (order, groups) = group_by(packets, Grouping::Streams);
    let mut streams: Vec<TcpStream> = Vec::new();
    let mut j: usize = 0;
    while j < order.len()
        invariant
            j <= order@.len(),
            all == packet_views(packets@),
            order@ == flow_order(all, Grouping::Streams),
            groups@.len() == order@.len(),
            forall|q: int|
                0 <= q < groups@.len() ==> {
                    &&& idx_view(all, #[trigger] groups@[q]@) == members(all, order@[q], Grouping::Streams)
                    &&& forall|x: int| 0 <= x < groups@[q]@.len() ==> groups@[q]@[x] < packets@.len()
                },
            streams@.len() == j,
            forall|q: int| 0 <= q < j ==> #[trigger] streams@[q]@ == stream_of(all, flow_order(all, Grouping::Streams)[q]),
            forall|q: int|
                0 <= q < j ==> {
                    let s = sort_by_seq(members(all, #[trigger] flow_order(all, Grouping::Streams)[q], Grouping::Streams));
                    side_data(s, true).len() <= u32::MAX && side_data(s, false).len() <= u32::MAX
                },
        decreases order@.len() - j,
    {
        let sorted = sort_indices(packets, &groups[j]);
        proof {
            assert(idx_view(all, groups@[j as int]@) == members(all, order@[j as int], Grouping::Streams));
            lemma_members_nonempty(all, j as int, Grouping::Streams);
            lemma_sort_len(members(all, order@[j as int], Grouping::Streams));
        }
        match build_stream(packets, order[j], &sorted) {
            Some(st) => {
                streams.push(st);
            },
            None => {
                return None;
            },
        }
        j = j + 1;
    }
    Some(streams)
}

/// Reassembles the TCP streams of a packet list, in order of first
/// occurrence of each conversation.
pub fn extract_tcp_streams(packets: &[ParsedPacket]) -> (r: Vec<TcpStream>)
    requires
        streams_fit(packet_views(packets@)),
    ensures
        streams_match(r@, packet_views(packets@)),
{
    match try_extract_tcp_streams(packets) {
        Some(v) => v,
        None => Vec::new(),
    }
}

// ---------------------------------------------------------------------------
// TCP handshake timelines
// ---------------------------------------------------------------------------

/// One packet of a TCP handshake.  `timestamp_ns` is nanoseconds since the
/// epoch.
#[derive(Clone, Debug)]
pub struct HandshakeEvent {
    pub timestamp_ns: u64,
    pub seq: u64,
    pub direction: String,
    pub flags: String,
    pub description: String,
}

/// The mathematical content of a [`HandshakeEvent`].
pub struct EventView {
    pub timestamp_ns: u64,
    pub seq: u64,
    pub direction: Seq<char>,
    pub flags: Seq<char>,
    pub description: Seq<char>,
}

impl View for HandshakeEvent {
    type V = EventView;

    open spec fn view(&self) -> EventView {
        EventView {
            timestamp_ns: self.timestamp_ns,
            seq: self.seq,
            direction: self.direction@,
            flags: self.flags@,
            description: self.description@,
        }
    }
}

/// The handshake packets of one conversation.
#[derive(Clone, Debug)]
pub struct HandshakeTimeline {
    pub stream_id: String,
    pub events: Vec<HandshakeEvent>,
    pub complete: bool,
}

/// The mathematical content of a [`HandshakeTimeline`].
pub struct TimelineView {
    pub stream_id: Seq<char>,
    pub events: Seq<EventView>,
    pub complete: bool,
}

impl View for HandshakeTimeline {
    type V = TimelineView;

    open spec fn view(&self) -> TimelineView {
        TimelineView {
            stream_id: self.stream_id@,
            events: self.events@.map_values(|e: HandshakeEvent| e@),
            complete: self.complete,
        }
    }
}

/// The event of a handshake packet: a SYN or a bare ACK goes from client to
/// server, a SYN+ACK back; the third packet is described as `ACK (3rd)`.
pub open spec fn event_of(p: PacketView) -> EventView {
    let syn = is_syn_only(p);
    let synack = is_syn_ack(p);
    let ack = is_ack_only(p);
    EventView {
        timestamp_ns: p.timestamp_ns,
        seq: p.seq,
        direction: if syn || ack {
            "C->S"@
        } else {
            "S->C"@
        },
        flags: crate::parser::or_empty(p.tcp_flags),
        description: if syn {
            "SYN"@
        } else if synack {
            "SYN+ACK"@
        } else {
            "ACK (3rd)"@
        },
    }
}

/// `a.b.c.d:port <-> e.f.g.h:port` text of a key.
pub open spec fn stream_id_text(k: FlowKey) -> Seq<char> {
    u32_ip_text(k.0) + ":"@ + dec(k.1 as nat) + " <-> "@ + u32_ip_text(k.2) + ":"@ + dec(
        k.3 as nat,
    )
}

/// The timeline of a key: its handshake packets in order; complete when
/// one of them is the third (`ACK (3rd)`).
pub open spec fn timeline_of(ps: Seq<PacketView>, k: FlowKey) -> TimelineView {
    let ev = members(ps, k, Grouping::Handshakes).map_values(|p: PacketView| event_of(p));
    TimelineView {
        stream_id: stream_id_text(k),
        events: ev,
        complete: exists|i: int| 0 <= i < ev.len() && (#[trigger] ev[i]).description == "ACK (3rd)"@,
    }
}

/// The timelines of a packet list in order of first occurrence.
pub open spec fn timelines_match(r: Seq<HandshakeTimeline>, ps: Seq<PacketView>) -> bool {
    &&& r.len() == flow_order(ps, Grouping::Handshakes).len()
    &&& forall|i: int|
        0 <= i < r.len() ==> #[trigger] r[i]@ == timeline_of(
            ps,
            flow_order(ps, Grouping::Handshakes)[i],
        )
}

fn event_exec(p: &ParsedPacket) -> (e: HandshakeEvent)
    ensures
        e@ == event_of(p@),
{
    let syn = syn_only_exec(p);
    let synack = syn_ack_exec(p);
    let ack = ack_only_exec(p);
    let flags = match &p.tcp_flags {
        Some(f) => owned_string(f),
        None => String::new(),
    };
    HandshakeEvent {
        timestamp_ns: p.timestamp_ns,
        seq: p.seq,
        direction: if syn || ack {
            crate::text::owned("C->S")
        } else {
            crate::text::owned("S->C")
        },
        flags,
        description: if syn {
            crate::text::owned("SYN")
        } else if synack {
            crate::text::owned("SYN+ACK")
        } else {
            crate::text::owned("ACK (3rd)")
        },
    }
}

/// A copy of a string.
fn owned_string(s: &String) -> (r: String)
    ensures
        r@ == s@,
{
    crate::text::owned(s.as_str())
}

/// `a.b.c.d:port <-> e.f.g.h:port` text of a key.
fn stream_id(k: FlowKey) -> (s: String)
    ensures
        s@ == stream_id_text(k),
{
    let mut v = chars_of(u32_to_ip(k.0).as_str());
    push_str_chars(&mut v, ":");
    push_dec(&mut v, k.1 as u64);
    push_str_chars(&mut v, " <-> ");
    push_str_chars(&mut v, u32_to_ip(k.2).as_str());
    push_str_chars(&mut v, ":");
    push_dec(&mut v, k.3 as u64);
    string_from(&v)
}

/// Extracts the TCP handshake timeline of every conversation, in order of
/// first occurrence of its handshake packets.
pub fn extract_handshake_timelines(packets: &[ParsedPacket]) -> (r: Vec<HandshakeTimeline>)
    ensures
        timelines_match(r@, packet_views(packets@)),
{
    let ghost all = packet_views(packets@);
    let (order, groups) = group_by(packets, Grouping::Handshakes);
    let mut result: Vec<HandshakeTimeline> = Vec::new();
    let mut j: usize = 0;
    while j < order.len()
        invariant
            j <= order@.len(),
            all == packet_views(packets@),
            order@ == flow_order(all, Grouping::Handshakes),
            groups@.len() == order@.len(),
            forall|q: int|
                0 <= q < groups@.len() ==> {
                    &&& idx_view(all, #[trigger] groups@[q]@) == members(
                        all,
                        order@[q],
                        Grouping::Handshakes,
                    )
                    &&& forall|x: int| 0 <= x < groups@[q]@.len() ==> groups@[q]@[x] < packets@.len()
                },
            result@.len() == j,
            forall|q: int|
                0 <= q < j ==> #[trigger] result@[q]@ == timeline_of(
                    all,
                    flow_order(all, Grouping::Handshakes)[q],
                ),
        decreases order@.len() - j,
    {
        let g = &groups[j];
        let ghost mv = idx_view(all, g@);
        let ghost target = mv.map_values(|p: PacketView| event_of(p));
        let mut events: Vec<HandshakeEvent> = Vec::new();
        let mut complete = false;
        let mut m: usize = 0;
        while m < g.len()
            invariant
                m <= g@.len(),
                g@ == groups@[j as int]@,
                all == packet_views(packets@),
                mv == idx_view(all, g@),
                target == mv.map_values(|p: PacketView| event_of(p)),
                forall|x: int| 0 <= x < g@.len() ==> g@[x] < packets@.len(),
                events@.map_values(|e: HandshakeEvent| e@) == target.take(m as int),
                complete == exists|i: int|
                    0 <= i < m && (#[trigger] target[i]).description == "ACK (3rd)"@,
            decreases g@.len() - m,
        {
            let e = event_exec(&packets[g[m]]);
            let ghost ev = e@;
            if crate::text::str_eq(e.description.as_str(), "ACK (3rd)") {
                complete = true;
            }
            let ghost before = events@.map_values(|e: HandshakeEvent| e@);
            events.push(e);
            proof {
                assert(events@.map_values(|e: HandshakeEvent| e@) =~= before.push(ev));
                assert(target.take(m + 1) =~= target.take(m as int).push(target[m as int]));
                assert(target[m as int] == ev);
            }
            m = m + 1;
        }
        proof {
            assert(target.take(g@.len() as int) =~= target);
        }
        let tl = HandshakeTimeline { stream_id: stream_id(order[j]), events, complete };
        result.push(tl);
        j = j + 1;
    }
    result
}

// ---------------------------------------------------------------------------
// Laws of the conversation groupings
// ---------------------------------------------------------------------------

/// The two endpoints of a packet, addresses by number: source address,
/// source port, destination address, destination port.
pub open spec fn endpoints(p: PacketView) -> (u32, u16, u32, u16) {
    (ip_num(p.src_ip->0), p.src_port->0, ip_num(p.dst_ip->0), p.dst_port->0)
}

/// Two packets travel between the same two endpoints, in either direction.
pub open spec fn same_conversation(p: PacketView, q: PacketView) -> bool {
    let (a, ap, b, bp) = endpoints(p);
    let (c, cp, d, dp) = endpoints(q);
    (a == c && ap == cp && b == d && bp == dp) || (a == d && ap == dp && b == c && bp == cp)
}

/// A packet's stream key puts the smaller port first, and is keyed as TCP.
pub proof fn lemma_stream_key_order(p: PacketView)
    ensures
        stream_key(p) matches Some(k) ==> k.1 <= k.3 && k.4 == 6,
        stream_key(p) is Some <==> (p.protocol == "TCP"@ && p.src_ip is Some && p.dst_ip is Some
            && p.src_port is Some && p.dst_port is Some),
{
}

/// Two keyed TCP packets whose ports differ share a stream key exactly when
/// they travel between the same two endpoints, in either direction.
pub proof fn lemma_stream_key_endpoints(p: PacketView, q: PacketView)
    requires
        stream_key(p) is Some,
        stream_key(q) is Some,
        p.src_port != p.dst_port,
    ensures
        stream_key(p) == stream_key(q) <==> same_conversation(p, q),
{
}

/// Both directions of one connection make one stream: a packet and its
/// reply (addresses and ports swapped, ports different) are reassembled
/// together.
pub proof fn lemma_reply_same_stream(p: PacketView, q: PacketView)
    requires
        p.protocol == "TCP"@,
        q.protocol == "TCP"@,
        p.src_ip is Some,
        p.dst_ip is Some,
        p.src_port is Some,
        p.dst_port is Some,
        q.src_ip == p.dst_ip,
        q.dst_ip == p.src_ip,
        q.src_port == p.dst_port,
        q.dst_port == p.src_port,
        p.src_port != p.dst_port,
    ensures
        stream_key(p) is Some,
        stream_key(p) == stream_key(q),
        flow_order(seq![p, q], Grouping::Streams) == seq![stream_key(p)->0],
        members(seq![p, q], stream_key(p)->0, Grouping::Streams) == seq![p, q],
{
    let s = seq![p, q];
    assert(s.drop_last() =~= seq![p]);
    assert(seq![p].drop_last() =~= Seq::<PacketView>::empty());
    let k = stream_key(p)->0;
    let e = Seq::<PacketView>::empty();
    assert(seq![p].last() == p);
    assert(group_key(p, Grouping::Streams) == Some(k));
    assert(flow_order(e, Grouping::Streams) == Seq::<FlowKey>::empty());
    assert(members(e, k, Grouping::Streams) == e);
    assert(!Seq::<FlowKey>::empty().contains(k));
    assert(Seq::<FlowKey>::empty().push(k) =~= seq![k]);
    assert(e.push(p) =~= seq![p]);
    assert(flow_order(seq![p], Grouping::Streams) =~= seq![k]);
    assert(seq![k].contains(k)) by {
        assert(seq![k][0] == k);
    }
    assert(members(seq![p], k, Grouping::Streams) =~= seq![p]);
    assert(seq![p].push(q) =~= s);
}

/// The keys in first-occurrence order: each occurs once, each is the key
/// of some packet, and every keyed packet's key is among them.
pub proof fn lemma_flow_order_keys(ps: Seq<PacketView>, g: Grouping)
    ensures
        flow_order(ps, g).no_duplicates(),
        forall|i: int|
            0 <= i < flow_order(ps, g).len() ==> exists|j: int|
                0 <= j < ps.len() && group_key(ps[j], g) == Some(#[trigger] flow_order(ps, g)[i]),
        forall|j: int|
            0 <= j < ps.len() && group_key(ps[j], g) is Some ==> flow_order(ps, g).contains(
                (#[trigger] group_key(ps[j], g))->0,
            ),
    decreases ps.len(),
{
    if ps.len() > 0 {
        let d = ps.drop_last();
        lemma_flow_order_keys(d, g);
        let r = flow_order(d, g);
        let o = flow_order(ps, g);
        let n = ps.len() - 1;
        assert forall|i: int| 0 <= i < o.len() implies exists|j: int|
            0 <= j < ps.len() && group_key(ps[j], g) == Some(#[trigger] o[i]) by {
            if i < r.len() {
                assert(o[i] == r[i]);
                let j = choose|j: int| 0 <= j < d.len() && group_key(d[j], g) == Some(r[i]);
                assert(ps[j] == d[j]);
            } else {
                assert(group_key(ps[n], g) == Some(o[i]));
            }
        }
        assert forall|j: int| 0 <= j < ps.len() && group_key(ps[j], g) is Some implies o.contains(
            (#[trigger] group_key(ps[j], g))->0,
        ) by {
            let k = group_key(ps[j], g)->0;
            if j < n {
                assert(ps[j] == d[j]);
                assert(r.contains(k));
                let w = choose|w: int| 0 <= w < r.len() && r[w] == k;
                assert(o[w] == k);
            } else {
                if !r.contains(k) {
                    assert(o[r.len() as int] == k);
                } else {
                    assert(o == r);
                }
            }
        }
    }
}

/// The packets grouped under a key all have that key and come from the
/// list, and every packet of the list with that key is among them.
pub proof fn lemma_members_of(ps: Seq<PacketView>, k: FlowKey, g: Grouping)
    ensures
        forall|m: int|
            0 <= m < members(ps, k, g).len() ==> group_key(#[trigger] members(ps, k, g)[m], g) == Some(k)
                && ps.contains(members(ps, k, g)[m]),
        forall|j: int|
            0 <= j < ps.len() && group_key(#[trigger] ps[j], g) == Some(k) ==> members(ps, k, g).contains(
                ps[j],
            ),
    decreases ps.len(),
{
    if ps.len() > 0 {
        let d = ps.drop_last();
        lemma_members_of(d, k, g);
        let md = members(d, k, g);
        let m = members(ps, k, g);
        let n = ps.len() - 1;
        assert forall|i: int| 0 <= i < m.len() implies group_key(#[trigger] m[i], g) == Some(k)
            && ps.contains(m[i]) by {
            if i < md.len() {
                assert(m[i] == md[i]);
                assert(d.contains(md[i]));
                let j = choose|j: int| 0 <= j < d.len() && d[j] == md[i];
                assert(ps[j] == d[j]);
            } else {
                assert(m[i] == ps[n]);
            }
        }
        assert forall|j: int| 0 <= j < ps.len() && group_key(#[trigger] ps[j], g) == Some(k) implies m.contains(
            ps[j],
        ) by {
            if j < n {
                assert(ps[j] == d[j]);
                assert(md.contains(d[j]));
                let w = choose|w: int| 0 <= w < md.len() && md[w] == d[j];
                assert(m[w] == md[w]);
            } else {
                assert(m[md.len() as int] == ps[j]);
            }
        }
    }
}

proof fn lemma_any_http_exists(s: Seq<PacketView>)
    ensures
        any_http(s) <==> exists|i: int| 0 <= i < s.len() && (#[trigger] s[i]).http is Some,
        any_syn(s) <==> exists|i: int| 0 <= i < s.len() && is_syn_only(#[trigger] s[i]),
    decreases s.len(),
{
    if s.len() > 0 {
        let d = s.drop_last();
        lemma_any_http_exists(d);
        if exists|i: int| 0 <= i < d.len() && (#[trigger] d[i]).http is Some {
            let i = choose|i: int| 0 <= i < d.len() && (#[trigger] d[i]).http is Some;
            assert(s[i] == d[i]);
        }
        if exists|i: int| 0 <= i < d.len() && is_syn_only(#[trigger] d[i]) {
            let i = choose|i: int| 0 <= i < d.len() && is_syn_only(#[trigger] d[i]);
            assert(s[i] == d[i]);
        }
        if exists|i: int| 0 <= i < s.len() && (#[trigger] s[i]).http is Some {
            let i = choose|i: int| 0 <= i < s.len() && (#[trigger] s[i]).http is Some;
            if i < d.len() {
                assert(s[i] == d[i]);
            }
        }
        if exists|i: int| 0 <= i < s.len() && is_syn_only(#[trigger] s[i]) {
            let i = choose|i: int| 0 <= i < s.len() && is_syn_only(#[trigger] s[i]);
            if i < d.len() {
                assert(s[i] == d[i]);
            }
        }
    }
}


proof fn lemma_sorted_members_same(ps: Seq<PacketView>, k: FlowKey)
    ensures
        forall|x: PacketView|
            sort_by_seq(members(ps, k, Grouping::Streams)).contains(x) <==> members(
                ps,
                k,
                Grouping::Streams,
            ).contains(x),
{
    broadcast use vstd::seq_lib::group_to_multiset_ensures;

    let m = members(ps, k, Grouping::Streams);
    lemma_sort_by_seq(m);
    assert forall|x: PacketView| sort_by_seq(m).contains(x) <==> m.contains(x) by {
        assert(sort_by_seq(m).to_multiset().count(x) == m.to_multiset().count(x));
    }
}

/// Whatever the packets, each reassembled stream has the smaller port on
/// the client side, byte counts equal to the lengths of the data, an HTTP
/// mark exactly when one of its packets carries HTTP, a handshake mark
/// exactly when one of its packets is a SYN without ACK; and no two streams
/// share their endpoints.
pub proof fn lemma_stream_invariants(r: Seq<TcpStream>, ps: Seq<PacketView>)
    requires
        streams_match(r, ps),
        streams_fit(ps),
    ensures
        forall|i: int| 0 <= i < r.len() ==> (#[trigger] r[i])@.client_port <= r[i]@.server_port,
        forall|i: int|
            0 <= i < r.len() ==> (#[trigger] r[i])@.client_bytes == r[i]@.client_data.len()
                && r[i]@.server_bytes == r[i]@.server_data.len(),
        forall|i: int|
            0 <= i < r.len() ==> ((#[trigger] r[i])@.has_http <==> exists|j: int|
                0 <= j < ps.len() && stream_key(ps[j]) == Some(flow_order(ps, Grouping::Streams)[i])
                    && (#[trigger] ps[j]).http is Some),
        forall|i: int|
            0 <= i < r.len() ==> ((#[trigger] r[i])@.handshake_ok <==> exists|j: int|
                0 <= j < ps.len() && stream_key(ps[j]) == Some(flow_order(ps, Grouping::Streams)[i])
                    && is_syn_only(#[trigger] ps[j])),
        forall|i: int, j: int|
            0 <= i < j < r.len() ==> ((#[trigger] r[i])@.client_ip, r[i]@.client_port, r[i]@.server_ip,
                r[i]@.server_port) != ((#[trigger] r[j])@.client_ip, r[j]@.client_port,
                r[j]@.server_ip, r[j]@.server_port),
{
    let o = flow_order(ps, Grouping::Streams);
    lemma_flow_order_keys(ps, Grouping::Streams);
    assert forall|i: int| 0 <= i < r.len() implies {
        &&& (#[trigger] r[i])@.client_port <= r[i]@.server_port
        &&& r[i]@.client_bytes == r[i]@.client_data.len() && r[i]@.server_bytes == r[i]@.server_data.len()
        &&& (r[i]@.has_http <==> exists|j: int|
            0 <= j < ps.len() && stream_key(ps[j]) == Some(o[i]) && (#[trigger] ps[j]).http is Some)
        &&& (r[i]@.handshake_ok <==> exists|j: int|
            0 <= j < ps.len() && stream_key(ps[j]) == Some(o[i]) && is_syn_only(#[trigger] ps[j]))
    } by {
        let k = o[i];
        let j0 = choose|j: int| 0 <= j < ps.len() && group_key(ps[j], Grouping::Streams) == Some(k);
        lemma_stream_key_order(ps[j0]);
        let m = members(ps, k, Grouping::Streams);
        let s = sort_by_seq(m);
        lemma_members_of(ps, k, Grouping::Streams);
        lemma_sorted_members_same(ps, k);
        lemma_any_http_exists(s);
        assert(side_data(s, true).len() <= u32::MAX && side_data(s, false).len() <= u32::MAX);
        if r[i]@.has_http {
            let x = choose|x: int| 0 <= x < s.len() && (#[trigger] s[x]).http is Some;
            assert(s.contains(s[x]));
            assert(m.contains(s[x]));
            let y = choose|y: int| 0 <= y < m.len() && m[y] == s[x];
            assert(ps.contains(m[y]));
            let j = choose|j: int| 0 <= j < ps.len() && ps[j] == m[y];
            assert(group_key(m[y], Grouping::Streams) == Some(k));
            assert(stream_key(ps[j]) == Some(o[i]) && ps[j].http is Some);
        }
        if exists|j: int| 0 <= j < ps.len() && stream_key(ps[j]) == Some(o[i]) && (#[trigger] ps[j]).http is Some {
            let j = choose|j: int| 0 <= j < ps.len() && stream_key(ps[j]) == Some(o[i]) && (#[trigger] ps[j]).http is Some;
            assert(group_key(ps[j], Grouping::Streams) == Some(k));
            assert(m.contains(ps[j]));
            assert(s.contains(ps[j]));
            let x = choose|x: int| 0 <= x < s.len() && s[x] == ps[j];
            assert(s[x].http is Some);
        }
        if r[i]@.handshake_ok {
            let x = choose|x: int| 0 <= x < s.len() && is_syn_only(#[trigger] s[x]);
            assert(s.contains(s[x]));
            assert(m.contains(s[x]));
            let y = choose|y: int| 0 <= y < m.len() && m[y] == s[x];
            assert(ps.contains(m[y]));
            let j = choose|j: int| 0 <= j < ps.len() && ps[j] == m[y];
            assert(group_key(m[y], Grouping::Streams) == Some(k));
            assert(stream_key(ps[j]) == Some(o[i]) && is_syn_only(ps[j]));
        }
        if exists|j: int| 0 <= j < ps.len() && stream_key(ps[j]) == Some(o[i]) && is_syn_only(#[trigger] ps[j]) {
            let j = choose|j: int| 0 <= j < ps.len() && stream_key(ps[j]) == Some(o[i]) && is_syn_only(#[trigger] ps[j]);
            assert(group_key(ps[j], Grouping::Streams) == Some(k));
            assert(m.contains(ps[j]));
            assert(s.contains(ps[j]));
            let x = choose|x: int| 0 <= x < s.len() && s[x] == ps[j];
            assert(is_syn_only(s[x]));
        }
    }
    assert forall|i: int, j: int| 0 <= i < j < r.len() implies ((#[trigger] r[i])@.client_ip,
        r[i]@.client_port, r[i]@.server_ip, r[i]@.server_port) != ((#[trigger] r[j])@.client_ip,
        r[j]@.client_port, r[j]@.server_ip, r[j]@.server_port) by {
        let ki = o[i];
        let kj = o[j];
        assert(ki != kj);
        let ji = choose|x: int| 0 <= x < ps.len() && group_key(ps[x], Grouping::Streams) == Some(ki);
        let jj = choose|x: int| 0 <= x < ps.len() && group_key(ps[x], Grouping::Streams) == Some(kj);
        lemma_stream_key_order(ps[ji]);
        lemma_stream_key_order(ps[jj]);
        if r[i]@.client_ip == r[j]@.client_ip && r[i]@.server_ip == r[j]@.server_ip {
            lemma_ip_text_injective(ki.0, kj.0);
            lemma_ip_text_injective(ki.2, kj.2);
        }
    }
}

/// Whether a packet is labelled TCP.
pub open spec fn is_tcp(p: PacketView) -> bool {
    p.protocol == "TCP"@
}

proof fn lemma_tcp_filter_groups(ps: Seq<PacketView>, k: FlowKey)
    ensures
        flow_order(ps.filter(|p: PacketView| is_tcp(p)), Grouping::Streams) == flow_order(ps, Grouping::Streams),
        members(ps.filter(|p: PacketView| is_tcp(p)), k, Grouping::Streams) == members(ps, k, Grouping::Streams),
    decreases ps.len(),
{
    reveal(Seq::filter);
    if ps.len() > 0 {
        lemma_tcp_filter_groups(ps.drop_last(), k);
        let f = ps.filter(|p: PacketView| is_tcp(p));
        let fd = ps.drop_last().filter(|p: PacketView| is_tcp(p));
        if is_tcp(ps.last()) {
            assert(f == fd.push(ps.last()));
            assert(f.drop_last() =~= fd);
            assert(f.last() == ps.last());
        } else {
            assert(f == fd);
        }
    }
}

/// Packets that are not TCP never contribute to the streams: the streams
/// of a packet list are exactly those of its TCP packets alone.
pub proof fn lemma_streams_only_tcp(r: Seq<TcpStream>, ps: Seq<PacketView>)
    ensures
        streams_match(r, ps) <==> streams_match(r, ps.filter(|p: PacketView| is_tcp(p))),
        streams_fit(ps) <==> streams_fit(ps.filter(|p: PacketView| is_tcp(p))),
{
    let f = ps.filter(|p: PacketView| is_tcp(p));
    assert forall|k: FlowKey| #[trigger] members(f, k, Grouping::Streams) == members(ps, k, Grouping::Streams) by {
        lemma_tcp_filter_groups(ps, k);
    }
    lemma_tcp_filter_groups(ps, FlowKey(0, 0, 0, 0, 0));
    assert forall|k: FlowKey| #[trigger] stream_of(f, k) == stream_of(ps, k) by {
        assert(members(f, k, Grouping::Streams) == members(ps, k, Grouping::Streams));
    }
}


/// The number of packets that have a key in a grouping.
pub open spec fn keyed_count(ps: Seq<PacketView>, g: Grouping) -> nat
    decreases ps.len(),
{
    if ps.len() == 0 {
        0
    } else {
        keyed_count(ps.drop_last(), g) + if group_key(ps.last(), g) is Some {
            1nat
        } else {
            0nat
        }
    }
}

/// The number of packets grouped under the given keys, all together.
pub open spec fn members_total(ps: Seq<PacketView>, ks: Seq<FlowKey>, g: Grouping) -> nat
    decreases ks.len(),
{
    if ks.len() == 0 {
        0
    } else {
        members_total(ps, ks.drop_last(), g) + members(ps, ks.last(), g).len()
    }
}

proof fn lemma_members_total_push(d: Seq<PacketView>, p: PacketView, ks: Seq<FlowKey>, g: Grouping)
    requires
        ks.no_duplicates(),
    ensures
        members_total(d.push(p), ks, g) == members_total(d, ks, g) + if group_key(p, g) is Some
            && ks.contains(group_key(p, g)->0) {
            1nat
        } else {
            0nat
        },
    decreases ks.len(),
{
    if ks.len() > 0 {
        let kd = ks.drop_last();
        assert(kd.no_duplicates()) by {
            assert forall|a: int, b: int| 0 <= a < b < kd.len() implies kd[a] != kd[b] by {
                assert(kd[a] == ks[a] && kd[b] == ks[b]);
            }
        }
        lemma_members_total_push(d, p, kd, g);
        let s = d.push(p);
        assert(s.drop_last() =~= d);
        assert(s.last() == p);
        let kl = ks.last();
        match group_key(p, g) {
            Some(k) => {
                if k == kl {
                    assert(ks.contains(k)) by {
                        assert(ks[ks.len() - 1] == kl);
                    }
                    assert(!kd.contains(k)) by {
                        if kd.contains(k) {
                            let w = choose|w: int| 0 <= w < kd.len() && kd[w] == k;
                            assert(ks[w] == ks[ks.len() - 1]);
                        }
                    }
                } else {
                    assert(ks.contains(k) == kd.contains(k)) by {
                        if ks.contains(k) {
                            let w = choose|w: int| 0 <= w < ks.len() && ks[w] == k;
                            assert(kd[w] == k);
                        }
                        if kd.contains(k) {
                            let w = choose|w: int| 0 <= w < kd.len() && kd[w] == k;
                            assert(ks[w] == k);
                        }
                    }
                }
            },
            None => {},
        }
    }
}

proof fn lemma_members_total_absent(ps: Seq<PacketView>, ks: Seq<FlowKey>, k: FlowKey, g: Grouping)
    ensures
        members_total(ps, ks.push(k), g) == members_total(ps, ks, g) + members(ps, k, g).len(),
{
    assert(ks.push(k).drop_last() =~= ks);
}

proof fn lemma_grouping_partition(ps: Seq<PacketView>, g: Grouping)
    ensures
        members_total(ps, flow_order(ps, g), g) == keyed_count(ps, g),
    decreases ps.len(),
{
    if ps.len() > 0 {
        let d = ps.drop_last();
        let p = ps.last();
        assert(d.push(p) =~= ps);
        lemma_grouping_partition(d, g);
        lemma_flow_order_keys(d, g);
        let r = flow_order(d, g);
        lemma_members_total_push(d, p, r, g);
        match group_key(p, g) {
            Some(k) => {
                if !r.contains(k) {
                    lemma_members_absent(d, k, g);
                    lemma_members_total_absent(ps, r, k, g);
                }
            },
            None => {},
        }
    }
}

/// The handshake packets: TCP packets with both addresses and ports whose
/// flag text contains `SYN` or is exactly `ACK`.
pub open spec fn is_handshake_packet(p: PacketView) -> bool {
    let f = crate::parser::or_empty(p.tcp_flags);
    &&& p.protocol == "TCP"@
    &&& p.src_ip is Some && p.dst_ip is Some && p.src_port is Some && p.dst_port is Some
    &&& (contains_sub(f, "SYN"@) || f == "ACK"@)
}

/// Whatever the packets: the timelines hold exactly the handshake packets,
/// one event each (as many events in all as there are handshake packets),
/// each in the timeline of its conversation; no timeline is empty; two
/// handshake packets whose ports differ share a timeline exactly when
/// they travel between the same two endpoints; and a timeline is complete
/// exactly when one of its events is the third packet.
pub proof fn lemma_timeline_grouping(r: Seq<HandshakeTimeline>, ps: Seq<PacketView>)
    requires
        timelines_match(r, ps),
    ensures
        forall|j: int| 0 <= j < ps.len() ==> (group_key(#[trigger] ps[j], Grouping::Handshakes) is Some
            <==> is_handshake_packet(ps[j])),
        members_total(ps, flow_order(ps, Grouping::Handshakes), Grouping::Handshakes) == keyed_count(
            ps,
            Grouping::Handshakes,
        ),
        forall|i: int| 0 <= i < r.len() ==> (#[trigger] r[i])@.events.len() > 0,
        forall|i: int|
            0 <= i < r.len() ==> (#[trigger] r[i])@.events == members(
                ps,
                flow_order(ps, Grouping::Handshakes)[i],
                Grouping::Handshakes,
            ).map_values(|p: PacketView| event_of(p)),
        forall|j: int|
            0 <= j < ps.len() && is_handshake_packet(#[trigger] ps[j]) ==> flow_order(
                ps,
                Grouping::Handshakes,
            ).contains(stream_key(ps[j])->0) && members(ps, stream_key(ps[j])->0, Grouping::Handshakes).contains(
                ps[j],
            ),
        forall|p: PacketView, q: PacketView|
            is_handshake_packet(p) && is_handshake_packet(q) && p.src_port != p.dst_port ==> (
            #[trigger] group_key(p, Grouping::Handshakes) == #[trigger] group_key(q, Grouping::Handshakes)
                <==> same_conversation(p, q)),
        forall|i: int|
            0 <= i < r.len() ==> ((#[trigger] r[i])@.complete <==> exists|e: int|
                0 <= e < r[i]@.events.len() && r[i]@.events[e].description == "ACK (3rd)"@),
{
    let g = Grouping::Handshakes;
    let o = flow_order(ps, g);
    lemma_grouping_partition(ps, g);
    lemma_flow_order_keys(ps, g);
    assert forall|p: PacketView| #[trigger] group_key(p, g) is Some <==> is_handshake_packet(p) by {
        let f = crate::parser::or_empty(p.tcp_flags);
        reveal_strlit("ACK");
        reveal_strlit("SYN");
        if f == "ACK"@ {
            assert(!contains_sub(f, "SYN"@)) by {
                if contains_sub(f, "SYN"@) {
                    let i = choose|i: int| crate::text::occurs_at(f, "SYN"@, i);
                    assert(i == 0);
                    assert(f.subrange(0, 3) =~= f);
                    assert(f[0] != "SYN"@[0]);
                }
            }
            assert(contains_sub(f, "ACK"@)) by {
                assert(f.subrange(0, 3) =~= f);
                assert(crate::text::occurs_at(f, "ACK"@, 0));
            }
        }
    }
    assert forall|i: int| 0 <= i < r.len() implies (#[trigger] r[i])@.events.len() > 0 by {
        lemma_members_nonempty(ps, i, g);
    }
    assert forall|j: int| 0 <= j < ps.len() && is_handshake_packet(#[trigger] ps[j]) implies o.contains(
        stream_key(ps[j])->0,
    ) && members(ps, stream_key(ps[j])->0, g).contains(ps[j]) by {
        assert(group_key(ps[j], g) is Some);
        lemma_members_of(ps, stream_key(ps[j])->0, g);
    }
    assert forall|p: PacketView, q: PacketView|
        is_handshake_packet(p) && is_handshake_packet(q) && p.src_port != p.dst_port implies (
        #[trigger] group_key(p, g) == #[trigger] group_key(q, g) <==> same_conversation(p, q)) by {
        lemma_stream_key_endpoints(p, q);
    }
}

proof fn lemma_ack_text(f: Seq<char>)
    requires
        f == "ACK"@,
    ensures
        !contains_sub(f, "SYN"@),
        contains_sub(f, "ACK"@),
{
    reveal_strlit("ACK");
    reveal_strlit("SYN");
    if contains_sub(f, "SYN"@) {
        let i = choose|i: int| crate::text::occurs_at(f, "SYN"@, i);
        assert(i == 0);
        assert(f.subrange(0, 3) =~= f);
        assert(f[0] != "SYN"@[0]);
    }
    assert(f.subrange(0, 3) =~= f);
    assert(crate::text::occurs_at(f, "ACK"@, 0));
}

/// Whatever the packets, every event of every timeline is one of the three
/// handshake steps, told apart by its flag text: flags with SYN and without
/// ACK are the `SYN`, sent client to server; flags with both are the
/// `SYN+ACK`, sent server to client; flags exactly `ACK` are the third
/// packet, `ACK (3rd)`, sent client to server like the SYN.  Only the
/// SYN+ACK goes server to client.
pub proof fn lemma_event_steps(r: Seq<HandshakeTimeline>, ps: Seq<PacketView>)
    requires
        timelines_match(r, ps),
    ensures
        forall|i: int, e: int|
            0 <= i < r.len() && 0 <= e < r[i]@.events.len() ==> {
                let ev = #[trigger] r[i]@.events[e];
                let syn = contains_sub(ev.flags, "SYN"@);
                let ack = contains_sub(ev.flags, "ACK"@);
                &&& syn || ev.flags == "ACK"@
                &&& (syn && !ack ==> ev.description == "SYN"@ && ev.direction == "C->S"@)
                &&& (syn && ack ==> ev.description == "SYN+ACK"@ && ev.direction == "S->C"@)
                &&& (ev.flags == "ACK"@ ==> ev.description == "ACK (3rd)"@ && ev.direction == "C->S"@)
                &&& (ev.direction == "S->C"@ <==> syn && ack)
            },
{
    reveal_strlit("C->S");
    reveal_strlit("S->C");
    assert("C->S"@ != "S->C"@) by {
        assert("C->S"@[0] != "S->C"@[0]);
    }
    let g = Grouping::Handshakes;
    let o = flow_order(ps, g);
    assert forall|i: int, e: int| 0 <= i < r.len() && 0 <= e < r[i]@.events.len() implies {
        let ev = #[trigger] r[i]@.events[e];
        let syn = contains_sub(ev.flags, "SYN"@);
        let ack = contains_sub(ev.flags, "ACK"@);
        &&& syn || ev.flags == "ACK"@
        &&& (syn && !ack ==> ev.description == "SYN"@ && ev.direction == "C->S"@)
        &&& (syn && ack ==> ev.description == "SYN+ACK"@ && ev.direction == "S->C"@)
        &&& (ev.flags == "ACK"@ ==> ev.description == "ACK (3rd)"@ && ev.direction == "C->S"@)
        &&& (ev.direction == "S->C"@ <==> syn && ack)
    } by {
        let m = members(ps, o[i], g);
        lemma_members_of(ps, o[i], g);
        assert(r[i]@.events == m.map_values(|p: PacketView| event_of(p)));
        let p = m[e];
        assert(r[i]@.events[e] == event_of(p));
        assert(group_key(p, g) == Some(o[i]));
        let f = crate::parser::or_empty(p.tcp_flags);
        if f == "ACK"@ {
            lemma_ack_text(f);
        }
    }
}

// ---------------------------------------------------------------------------
// Text export
// ---------------------------------------------------------------------------

/// The readable text of a stream: endpoints, start and end time in whole
/// milliseconds, byte counts, then each side's data decoded lossily.
pub open spec fn stream_text(t: StreamView) -> Seq<char> {
    "=== TCP Stream "@ + t.client_ip + ":"@ + dec(t.client_port as nat) + " <-> "@ + t.server_ip
        + ":"@ + dec(t.server_port as nat) + " ===\n"@ + "Start: "@ + dec(
        t.start_time_ns as nat / 1_000_000,
    ) + "ms  End: "@ + dec(t.end_time_ns as nat / 1_000_000) + "ms\n"@ + "Client -> Server: "@
        + dec(t.client_bytes as nat) + " bytes\n"@ + "Server -> Client: "@ + dec(
        t.server_bytes as nat,
    ) + " bytes\n"@ + "\n----- Client Data -----\n"@ + crate::text::utf8_lossy(t.client_data)
        + "\n\n----- Server Data -----\n"@ + crate::text::utf8_lossy(t.server_data) + "\n"@
}

/// Exports a TCP stream as readable text.
pub fn export_stream_to_text(stream: &TcpStream) -> (s: String)
    ensures
        s@ == stream_text(stream@),
{
    let mut out = chars_of("=== TCP Stream ");
    push_str_chars(&mut out, stream.client_ip.as_str());
    push_str_chars(&mut out, ":");
    push_dec(&mut out, stream.client_port as u64);
    push_str_chars(&mut out, " <-> ");
    push_str_chars(&mut out, stream.server_ip.as_str());
    push_str_chars(&mut out, ":");
    push_dec(&mut out, stream.server_port as u64);
    push_str_chars(&mut out, " ===\n");
    push_str_chars(&mut out, "Start: ");
    push_dec(&mut out, stream.start_time_ns / 1_000_000);
    push_str_chars(&mut out, "ms  End: ");
    push_dec(&mut out, stream.end_time_ns / 1_000_000);
    push_str_chars(&mut out, "ms\n");
    push_str_chars(&mut out, "Client -> Server: ");
    push_dec(&mut out, stream.client_bytes as u64);
    push_str_chars(&mut out, " bytes\n");
    push_str_chars(&mut out, "Server -> Client: ");
    push_dec(&mut out, stream.server_bytes as u64);
    push_str_chars(&mut out, " bytes\n");
    push_str_chars(&mut out, "\n----- Client Data -----\n");
    let c = crate::text::decode_lossy(stream.client_data.as_slice());
    push_str_chars(&mut out, c.as_str());
    push_str_chars(&mut out, "\n\n----- Server Data -----\n");
    let d = crate::text::decode_lossy(stream.server_data.as_slice());
    push_str_chars(&mut out, d.as_str());
    push_str_chars(&mut out, "\n");
    string_from(&out)
}

} // verus!
